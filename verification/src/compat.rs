//! Versions, and whether a collection of vectors can be used with a configuration.

use vstd::prelude::*;
use crate::memory::MemoryError;
use crate::text;

verus! {

/// The version of the tools.
pub const ARTESIAN_VERSION: &'static str = "0.5.9";

/// The version of the record format.
pub const HEADWATER_VERSION: &'static str = "1";

/// The former name of [`HEADWATER_VERSION`].
pub const OKF_VERSION: &'static str = "1";

/// The point of a collection that holds its compatibility record.
pub const COMPAT_POINT_ID: &'static str = "__artesian_compat";

/// The embedding model that collections are built with.
pub const PINNED_FASTEMBED_MODEL: &'static str = "intfloat/multilingual-e5-small";

/// The length of the vectors of the pinned model.
pub const PINNED_FASTEMBED_DIMENSIONS: usize = 384;

/// How the distance between vectors is measured.
#[derive(Debug, Clone, Copy, PartialEq, Eq, Structural)]
pub enum Distance {
    Cosine,
    Dot,
    Euclid,
}

/// What a vector backend is set up with.
#[derive(Debug, Clone, PartialEq, Eq)]
pub struct VectorMemoryConfig {
    pub embedding_model: String,
    pub dimensions: usize,
    pub distance: Distance,
}

/// What a collection was built with.
#[derive(Debug, Clone, PartialEq, Eq)]
pub struct CollectionCompat {
    pub artesian_version: String,
    pub headwater_version: String,
    pub embedding_model: String,
    pub dimensions: usize,
    pub distance: Distance,
}

/// A compatibility record as it is stored. The format version may stand under a former name.
#[derive(Debug, Clone, PartialEq, Eq)]
pub struct CollectionCompatWire {
    pub artesian_version: String,
    pub headwater_version: Option<String>,
    pub okf_version: Option<String>,
    pub embedding_model: String,
    pub dimensions: usize,
    pub distance: Distance,
}

/// What a collection was built with.
#[verifier::ext_equal]
pub struct CompatView {
    pub artesian_version: Seq<char>,
    pub headwater_version: Seq<char>,
    pub embedding_model: Seq<char>,
    pub dimensions: usize,
    pub distance: Distance,
}

impl View for CollectionCompat {
    type V = CompatView;

    open spec fn view(&self) -> CompatView {
        CompatView {
            artesian_version: self.artesian_version@,
            headwater_version: self.headwater_version@,
            embedding_model: self.embedding_model@,
            dimensions: self.dimensions,
            distance: self.distance,
        }
    }
}

/// Vectors of two collections can be compared: the same model, length and distance. The versions
/// do not matter.
pub open spec fn compatible(a: CompatView, b: CompatView) -> bool {
    a.embedding_model == b.embedding_model && a.dimensions == b.dimensions && a.distance
        == b.distance
}

impl CollectionCompat {
    /// What this version of the tools builds collections with.
    pub fn current() -> (r: Self)
        ensures
            r@ == (CompatView {
                artesian_version: ARTESIAN_VERSION@,
                headwater_version: HEADWATER_VERSION@,
                embedding_model: PINNED_FASTEMBED_MODEL@,
                dimensions: PINNED_FASTEMBED_DIMENSIONS,
                distance: Distance::Cosine,
            }),
    {
        CollectionCompat {
            artesian_version: ARTESIAN_VERSION.to_owned(),
            headwater_version: HEADWATER_VERSION.to_owned(),
            embedding_model: PINNED_FASTEMBED_MODEL.to_owned(),
            dimensions: PINNED_FASTEMBED_DIMENSIONS,
            distance: Distance::Cosine,
        }
    }

    /// What a configuration asks for.
    pub fn from_config(config: &VectorMemoryConfig) -> (r: Self)
        ensures
            r@ == (CompatView {
                artesian_version: ARTESIAN_VERSION@,
                headwater_version: HEADWATER_VERSION@,
                embedding_model: config.embedding_model@,
                dimensions: config.dimensions,
                distance: config.distance,
            }),
    {
        CollectionCompat {
            artesian_version: ARTESIAN_VERSION.to_owned(),
            headwater_version: HEADWATER_VERSION.to_owned(),
            embedding_model: config.embedding_model.clone(),
            dimensions: config.dimensions,
            distance: config.distance,
        }
    }

    /// Reads a stored record. The format version comes from its own name, else from the former
    /// name, else it is the current one. The second result tells that the former name was used.
    pub fn from_wire(wire: CollectionCompatWire) -> (r: (Self, bool))
        ensures
            r.1 == (wire.okf_version is Some),
            r.0@ == (CompatView {
                artesian_version: wire.artesian_version@,
                headwater_version: match wire.headwater_version {
                    Some(version) => version@,
                    None => match wire.okf_version {
                        Some(version) => version@,
                        None => HEADWATER_VERSION@,
                    },
                },
                embedding_model: wire.embedding_model@,
                dimensions: wire.dimensions,
                distance: wire.distance,
            }),
    {
        let legacy = wire.okf_version.is_some();
        let headwater_version = match wire.headwater_version {
            Some(version) => version,
            None => match wire.okf_version {
                Some(version) => version,
                None => HEADWATER_VERSION.to_owned(),
            },
        };
        (
            CollectionCompat {
                artesian_version: wire.artesian_version,
                headwater_version,
                embedding_model: wire.embedding_model,
                dimensions: wire.dimensions,
                distance: wire.distance,
            },
            legacy,
        )
    }

    /// Whether vectors of this collection can be used where `expected` is configured. The error
    /// names both models and lengths.
    pub fn validate_compatible(&self, expected: &Self) -> (r: Result<(), MemoryError>)
        ensures
            r is Ok <==> compatible(self@, expected@),
            r is Err ==> (r->Err_0 matches MemoryError::CompatMismatch {
                collection_model,
                collection_dimensions,
                configured_model,
                configured_dimensions,
            } && collection_model@ == self.embedding_model@ && collection_dimensions
                == self.dimensions && configured_model@ == expected.embedding_model@
                && configured_dimensions == expected.dimensions),
    {
        if !text::same_text(self.embedding_model.as_str(), expected.embedding_model.as_str())
            || self.dimensions != expected.dimensions || self.distance != expected.distance {
            return Err(
                MemoryError::CompatMismatch {
                    collection_model: self.embedding_model.clone(),
                    collection_dimensions: self.dimensions,
                    configured_model: expected.embedding_model.clone(),
                    configured_dimensions: expected.dimensions,
                },
            );
        }
        Ok(())
    }
}

impl Default for CollectionCompat {
    fn default() -> (r: Self)
        ensures
            r@ == (CompatView {
                artesian_version: ARTESIAN_VERSION@,
                headwater_version: HEADWATER_VERSION@,
                embedding_model: PINNED_FASTEMBED_MODEL@,
                dimensions: PINNED_FASTEMBED_DIMENSIONS,
                distance: Distance::Cosine,
            }),
    {
        CollectionCompat::current()
    }
}

/// Compatibility is an equivalence: every collection goes with itself, two go with each other or
/// neither does, and what goes with the same collection goes together.
pub proof fn law_compatible_is_equivalence(a: CompatView, b: CompatView, c: CompatView)
    ensures
        compatible(a, a),
        compatible(a, b) == compatible(b, a),
        compatible(a, b) && compatible(b, c) ==> compatible(a, c),
{
}

/// Collections go together exactly when they agree in the model, the length of the vectors and the
/// distance: a difference in one of the three is enough to part them, and no difference in the
/// versions is.
pub proof fn law_model_length_and_distance_decide(a: CompatView, b: CompatView)
    ensures
        a.embedding_model != b.embedding_model ==> !compatible(a, b),
        a.dimensions != b.dimensions ==> !compatible(a, b),
        a.distance != b.distance ==> !compatible(a, b),
        a.embedding_model == b.embedding_model && a.dimensions == b.dimensions && a.distance
            == b.distance ==> compatible(a, b),
{
}

} // verus!
