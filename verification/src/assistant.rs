//! The coding assistant whose registrations and sessions are looked at, beside Codex and Zed.

use vstd::prelude::*;
use crate::text;

verus! {

/// The names of a coding assistant. Its registration file and its directory in the home directory
/// are named after `slug`, with a dot in front.
#[derive(Debug, Clone, PartialEq, Eq)]
pub struct Assistant {
    /// What the assistant is called.
    pub name: String,
    /// What its command line tool is called.
    pub product: String,
    /// The name of its command.
    pub slug: String,
}

impl Assistant {
    /// An assistant with its names.
    pub fn new(name: &str, product: &str, slug: &str) -> (r: Self)
        ensures
            r.name@ == name@,
            r.product@ == product@,
            r.slug@ == slug@,
    {
        Assistant { name: name.to_owned(), product: product.to_owned(), slug: slug.to_owned() }
    }

    /// The assistant that is started by a command: it is called after the command, with a capital,
    /// and its command line tool is its code tool.
    pub fn for_command(command: &str) -> (r: Self)
        ensures
            r.name@ == text::capitalized(command@),
            r.product@ == text::capitalized(command@) + " Code"@,
            r.slug@ == command@,
    {
        let name = text::capitalize(command);
        let mut product = name.clone();
        product.append(" Code");
        Assistant { name, product, slug: command.to_owned() }
    }

    /// The name of the directory of the assistant in the home directory.
    pub open spec fn dir_name(self) -> Seq<char> {
        "."@ + self.slug@
    }

    /// The name of the directory of the assistant in the home directory.
    pub fn directory(&self) -> (r: String)
        ensures
            r@ == self.dir_name(),
    {
        let mut out = ".".to_owned();
        out.append(self.slug.as_str());
        out
    }

    /// The name of the registration file of the assistant in the home directory.
    pub open spec fn file_name(self) -> Seq<char> {
        self.dir_name() + ".json"@
    }

    /// The name of the registration file of the assistant in the home directory.
    pub fn registration_file(&self) -> (r: String)
        ensures
            r@ == self.file_name(),
    {
        let mut out = self.directory();
        out.append(".json");
        out
    }
}

} // verus!
