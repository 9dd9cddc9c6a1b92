//! Unix paths as text: their components, their order, and how they are put together.

use vstd::prelude::*;
use crate::sorting;
use crate::sorting::Ranked;
use crate::text;
use crate::text::Rank;

verus! {

/// What one component of a path is.
#[verifier::ext_equal]
pub enum PartView {
    Root,
    Current,
    Parent,
    Normal(Seq<char>),
}

/// One component of a path.
pub enum Part {
    Root,
    Current,
    Parent,
    Normal(String),
}

impl View for Part {
    type V = PartView;

    open spec fn view(&self) -> PartView {
        match *self {
            Part::Root => PartView::Root,
            Part::Current => PartView::Current,
            Part::Parent => PartView::Parent,
            Part::Normal(name) => PartView::Normal(name@),
        }
    }
}

/// The component that a piece between slashes stands for. An empty piece stands for none, and
/// neither does a dot unless it begins the path.
pub open spec fn part_of(piece: Seq<char>, first: bool) -> Option<PartView> {
    if piece.len() == 0 {
        None
    } else if piece == "."@ {
        if first {
            Some(PartView::Current)
        } else {
            None
        }
    } else if piece == ".."@ {
        Some(PartView::Parent)
    } else {
        Some(PartView::Normal(piece))
    }
}

/// The components that the first `n` pieces stand for.
pub open spec fn parts_from(pieces: Seq<Seq<char>>, n: int) -> Seq<PartView>
    decreases n,
{
    if n <= 0 {
        Seq::empty()
    } else {
        match part_of(pieces[n - 1], n == 1) {
            Some(part) => parts_from(pieces, n - 1).push(part),
            None => parts_from(pieces, n - 1),
        }
    }
}

/// The path begins at the root.
pub open spec fn is_absolute(path: Seq<char>) -> bool {
    path.len() > 0 && path[0] == '/'
}

/// The components of a path: the root when it is absolute, then what stands between the slashes.
pub open spec fn parts_of(path: Seq<char>) -> Seq<PartView> {
    let pieces = text::pieces(path, '/');
    let named = parts_from(pieces, pieces.len() as int);
    if is_absolute(path) {
        seq![PartView::Root] + named
    } else {
        named
    }
}

/// The last component of a path, when it is a name.
pub open spec fn name_of(path: Seq<char>) -> Option<Seq<char>> {
    let parts = parts_of(path);
    if parts.len() > 0 {
        match parts.last() {
            PartView::Normal(name) => Some(name),
            _ => None,
        }
    } else {
        None
    }
}

/// `name` below `base`; an absolute `name` stands alone.
pub open spec fn joined(base: Seq<char>, name: Seq<char>) -> Seq<char> {
    if is_absolute(name) || base.len() == 0 {
        name
    } else if base.last() == '/' {
        base + name
    } else {
        base + "/"@ + name
    }
}

/// The components of a path.
pub fn parts(path: &str) -> (r: Vec<Part>)
    ensures
        sorting::views(r@) == parts_of(path@),
{
    let pieces = text::split_char(path, '/');
    let cs = text::to_chars(path);
    let mut out: Vec<Part> = Vec::new();
    let ghost all = text::pieces(path@, '/');
    let absolute: bool = cs.len() > 0 && cs[0] == '/';
    if absolute {
        out.push(Part::Root);
    }
    let ghost lead = sorting::views(out@);
    assert(lead =~= if is_absolute(path@) { seq![PartView::Root] } else { Seq::empty() });
    let mut i: usize = 0;
    assert(lead + parts_from(all, 0) =~= lead);
    while i < pieces.len()
        invariant
            all == text::pieces(path@, '/'),
            text::texts(pieces@) == all,
            i <= pieces@.len(),
            sorting::views(out@) == lead + parts_from(all, i as int),
        decreases pieces@.len() - i,
    {
        let piece = &pieces[i];
        let ghost before = out@;
        let ghost earlier = parts_from(all, i as int);
        assert(all[i as int] == piece@);
        if piece.as_str().is_empty() {
            assert(piece@.len() == 0);
        } else if text::same_text(piece.as_str(), ".") {
            if i == 0 {
                out.push(Part::Current);
                proof {
                    sorting::lemma_views_push(before, out@.last());
                    assert(out@ =~= before.push(out@.last()));
                    assert((lead + earlier).push(PartView::Current) =~= lead + earlier.push(
                        PartView::Current,
                    ));
                }
            }
        } else if text::same_text(piece.as_str(), "..") {
            out.push(Part::Parent);
            proof {
                    sorting::lemma_views_push(before, out@.last());
                    assert(out@ =~= before.push(out@.last()));
                    assert((lead + earlier).push(PartView::Parent) =~= lead + earlier.push(
                        PartView::Parent,
                    ));
                }
        } else {
            out.push(Part::Normal(piece.clone()));
            proof {
                    sorting::lemma_views_push(before, out@.last());
                    assert(out@ =~= before.push(out@.last()));
                    assert((lead + earlier).push(PartView::Normal(piece@)) =~= lead + earlier.push(
                        PartView::Normal(piece@),
                    ));
                }
        }
        i = i + 1;
    }
    proof {
        if !is_absolute(path@) {
            assert(lead + parts_from(all, all.len() as int) =~= parts_from(all, all.len() as int));
        }
    }
    out
}

/// The last component of a path, when it is a name.
pub fn file_name(path: &str) -> (r: Option<String>)
    ensures
        text::text_opt(r) == name_of(path@),
{
    let mut list = parts(path);
    let ghost all = list@;
    match list.pop() {
        Some(part) => {
            assert(part@ == sorting::views(all).last());
            match part {
                Part::Normal(name) => Some(name),
                _ => None,
            }
        },
        None => None,
    }
}

/// The number of components of a path.
pub fn part_count(path: &str) -> (r: usize)
    ensures
        r == parts_of(path@).len(),
{
    let list = parts(path);
    assert(sorting::views(list@).len() == list@.len());
    list.len()
}

/// `name` below `base`; an absolute `name` stands alone.
pub fn join(base: &str, name: &str) -> (r: String)
    ensures
        r@ == joined(base@, name@),
{
    let bs = text::to_chars(base);
    let ns = text::to_chars(name);
    if (ns.len() > 0 && ns[0] == '/') || bs.len() == 0 {
        return name.to_owned();
    }
    let mut out = base.to_owned();
    if bs[bs.len() - 1] != '/' {
        out.append("/");
    }
    out.append(name);
    out
}

/// Whether two paths have the same components.
pub fn same_path(a: &str, b: &str) -> (r: bool)
    ensures
        r == (parts_of(a@) == parts_of(b@)),
{
    match rank(a, b) {
        Rank::Same => true,
        _ => {
            proof {
                lemma_parts_irreflexive(parts_of(a@));
            }
            false
        },
    }
}

// ---------------------------------------------------------------------------------------------
// Order
// ---------------------------------------------------------------------------------------------

/// The root goes before a dot, a dot before two dots, and these before names, which go by
/// dictionary order.
pub open spec fn part_precedes(a: PartView, b: PartView) -> bool {
    match (a, b) {
        (PartView::Normal(x), PartView::Normal(y)) => text::precedes(x, y),
        (x, y) => part_class(x) < part_class(y),
    }
}

/// The place of a kind of component.
pub open spec fn part_class(a: PartView) -> int {
    match a {
        PartView::Root => 0,
        PartView::Current => 1,
        PartView::Parent => 2,
        PartView::Normal(_) => 3,
    }
}

/// Paths go by their first different component; a path goes before those below it.
pub open spec fn parts_precede(a: Seq<PartView>, b: Seq<PartView>) -> bool
    decreases a.len(),
{
    if b.len() == 0 {
        false
    } else if a.len() == 0 {
        true
    } else if a[0] == b[0] {
        parts_precede(a.drop_first(), b.drop_first())
    } else {
        part_precedes(a[0], b[0])
    }
}

proof fn lemma_part_order(a: PartView, b: PartView, c: PartView)
    ensures
        !part_precedes(a, a),
        part_precedes(a, b) && part_precedes(b, c) ==> part_precedes(a, c),
        part_precedes(a, b) || a == b || part_precedes(b, a),
        part_precedes(a, b) ==> a != b && !part_precedes(b, a),
{
    if a is Normal {
        text::lemma_precedes_irreflexive(a->Normal_0);
        if b is Normal {
            text::lemma_precedes_total(a->Normal_0, b->Normal_0);
            if text::precedes(a->Normal_0, b->Normal_0) {
                text::lemma_precedes_asymmetric(a->Normal_0, b->Normal_0);
                if c is Normal && text::precedes(b->Normal_0, c->Normal_0) {
                    text::lemma_precedes_transitive(a->Normal_0, b->Normal_0, c->Normal_0);
                }
            }
        }
    }
}

proof fn lemma_parts_irreflexive(a: Seq<PartView>)
    ensures
        !parts_precede(a, a),
    decreases a.len(),
{
    if a.len() > 0 {
        lemma_parts_irreflexive(a.drop_first());
    }
}

proof fn lemma_parts_transitive(a: Seq<PartView>, b: Seq<PartView>, c: Seq<PartView>)
    requires
        parts_precede(a, b),
        parts_precede(b, c),
    ensures
        parts_precede(a, c),
    decreases a.len(),
{
    if a.len() > 0 {
        lemma_part_order(a[0], b[0], c[0]);
        if a[0] == b[0] && b[0] == c[0] {
            lemma_parts_transitive(a.drop_first(), b.drop_first(), c.drop_first());
        } else if a[0] != b[0] && b[0] != c[0] {
            lemma_part_order(a[0], c[0], b[0]);
        }
    }
}

proof fn lemma_parts_total(a: Seq<PartView>, b: Seq<PartView>)
    ensures
        parts_precede(a, b) || a == b || parts_precede(b, a),
    decreases a.len(),
{
    if a.len() > 0 && b.len() > 0 {
        lemma_part_order(a[0], b[0], a[0]);
        if a[0] == b[0] {
            lemma_parts_total(a.drop_first(), b.drop_first());
            if a.drop_first() == b.drop_first() {
                assert(a =~= seq![a[0]] + a.drop_first());
                assert(b =~= seq![b[0]] + b.drop_first());
            }
        }
    } else if a.len() == 0 && b.len() == 0 {
        assert(a =~= b);
    }
}

/// Where one component stands relative to another.
fn part_rank(a: &Part, b: &Part) -> (r: Rank)
    ensures
        match r {
            Rank::Before => part_precedes(a@, b@),
            Rank::Same => a@ == b@,
            Rank::After => part_precedes(b@, a@),
        },
{
    match (a, b) {
        (Part::Normal(x), Part::Normal(y)) => text::rank(x.as_str(), y.as_str()),
        _ => {
            let ca = class_of(a);
            let cb = class_of(b);
            if ca < cb {
                Rank::Before
            } else if ca == cb {
                Rank::Same
            } else {
                Rank::After
            }
        },
    }
}

fn class_of(a: &Part) -> (r: u8)
    ensures
        r == part_class(a@),
{
    match a {
        Part::Root => 0,
        Part::Current => 1,
        Part::Parent => 2,
        Part::Normal(_) => 3,
    }
}

/// Where one path stands relative to another.
pub fn rank(a: &str, b: &str) -> (r: Rank)
    ensures
        match r {
            Rank::Before => parts_precede(parts_of(a@), parts_of(b@)),
            Rank::Same => parts_of(a@) == parts_of(b@),
            Rank::After => parts_precede(parts_of(b@), parts_of(a@)),
        },
{
    let pa = parts(a);
    let pb = parts(b);
    let ghost va = parts_of(a@);
    let ghost vb = parts_of(b@);
    let mut i: usize = 0;
    assert(va.skip(0) =~= va);
    assert(vb.skip(0) =~= vb);
    loop
        invariant
            sorting::views(pa@) == va,
            sorting::views(pb@) == vb,
            va == parts_of(a@),
            vb == parts_of(b@),
            i <= pa@.len(),
            i <= pb@.len(),
            forall|j: int| 0 <= j < i ==> va[j] == vb[j],
            parts_precede(va, vb) == parts_precede(va.skip(i as int), vb.skip(i as int)),
            parts_precede(vb, va) == parts_precede(vb.skip(i as int), va.skip(i as int)),
        decreases pa@.len() - i,
    {
        if i == pa.len() {
            if i == pb.len() {
                assert(va =~= vb);
                return Rank::Same;
            }
            return Rank::Before;
        }
        if i == pb.len() {
            return Rank::After;
        }
        proof {
            assert(va.skip(i as int)[0] == pa@[i as int]@);
            assert(vb.skip(i as int)[0] == pb@[i as int]@);
            assert(va.skip(i as int).drop_first() =~= va.skip(i + 1));
            assert(vb.skip(i as int).drop_first() =~= vb.skip(i + 1));
            lemma_part_order(va[i as int], vb[i as int], va[i as int]);
            lemma_part_order(vb[i as int], va[i as int], vb[i as int]);
        }
        match part_rank(&pa[i], &pb[i]) {
            Rank::Before => {
                return Rank::Before;
            },
            Rank::Same => {
                i = i + 1;
            },
            Rank::After => {
                return Rank::After;
            },
        }
    }
}

/// A path that is sorted by its components.
pub struct PathText {
    pub text: String,
}

impl View for PathText {
    type V = Seq<char>;

    open spec fn view(&self) -> Seq<char> {
        self.text@
    }
}

impl Ranked for PathText {
    open spec fn goes_before(a: Seq<char>, b: Seq<char>) -> bool {
        parts_precede(parts_of(a), parts_of(b))
    }

    proof fn order_laws(a: Seq<char>, b: Seq<char>, c: Seq<char>) {
        let (x, y, z) = (parts_of(a), parts_of(b), parts_of(c));
        lemma_parts_irreflexive(x);
        if parts_precede(x, y) && parts_precede(y, z) {
            lemma_parts_transitive(x, y, z);
        }
        if parts_precede(x, z) {
            lemma_parts_total(x, y);
            lemma_parts_total(y, z);
            if !parts_precede(x, y) && !parts_precede(y, z) {
                if x == y {
                } else if y == z {
                } else {
                    lemma_parts_transitive(z, y, x);
                    lemma_parts_transitive(x, z, x);
                }
            }
        }
    }

    fn is_before(&self, other: &Self) -> (r: bool) {
        match rank(self.text.as_str(), other.text.as_str()) {
            Rank::Before => true,
            Rank::Same => {
                proof {
                    lemma_parts_irreflexive(parts_of(self@));
                }
                false
            },
            Rank::After => {
                proof {
                    if parts_precede(parts_of(self@), parts_of(other@)) {
                        lemma_parts_transitive(
                            parts_of(self@),
                            parts_of(other@),
                            parts_of(self@),
                        );
                        lemma_parts_irreflexive(parts_of(self@));
                    }
                }
                false
            },
        }
    }
}

/// `list` without an element that has the same components as the one before it.
pub open spec fn without_repeats(list: Seq<Seq<char>>) -> Seq<Seq<char>>
    decreases list.len(),
{
    if list.len() <= 1 {
        list
    } else {
        let rest = without_repeats(list.drop_last());
        if parts_of(rest.last()) == parts_of(list.last()) {
            rest
        } else {
            rest.push(list.last())
        }
    }
}

/// The paths in order, each once.
pub open spec fn sorted_distinct(list: Seq<Seq<char>>) -> Seq<Seq<char>> {
    without_repeats(sorting::stable_sorted::<PathText>(list))
}

/// Every path of a list stays among the ones that are left, by its components.
proof fn lemma_without_repeats(list: Seq<Seq<char>>)
    requires
        sorting::in_order::<PathText>(list),
    ensures
        list.len() > 0 ==> without_repeats(list).len() > 0,
        list.len() > 0 ==> parts_of(without_repeats(list).last()) == parts_of(list.last()),
        forall|i: int, j: int|
            0 <= i < j < without_repeats(list).len() ==> parts_precede(
                parts_of(#[trigger] without_repeats(list)[i]),
                parts_of(#[trigger] without_repeats(list)[j]),
            ),
    decreases list.len(),
{
    if list.len() > 1 {
        let head = list.drop_last();
        assert(sorting::in_order::<PathText>(head)) by {
            assert forall|i: int, j: int| 0 <= i < j < head.len() implies !PathText::goes_before(
                #[trigger] head[j],
                #[trigger] head[i],
            ) by {
                assert(head[j] == list[j] && head[i] == list[i]);
            }
        }
        lemma_without_repeats(head);
        let rest = without_repeats(head);
        let r = without_repeats(list);
        if parts_of(rest.last()) != parts_of(list.last()) {
            let last = list.last();
            assert(head.last() == list[list.len() - 2]);
            assert(!PathText::goes_before(list[list.len() - 1], list[list.len() - 2]));
            lemma_parts_total(parts_of(head.last()), parts_of(last));
            assert forall|i: int, j: int| 0 <= i < j < r.len() implies parts_precede(
                parts_of(#[trigger] r[i]),
                parts_of(#[trigger] r[j]),
            ) by {
                if j == r.len() - 1 {
                    if i < rest.len() - 1 {
                        assert(parts_precede(parts_of(rest[i]), parts_of(rest[rest.len() - 1])));
                        lemma_parts_transitive(
                            parts_of(rest[i]),
                            parts_of(head.last()),
                            parts_of(last),
                        );
                    }
                } else {
                    assert(r[i] == rest[i] && r[j] == rest[j]);
                }
            }
        }
    }
}

/// Sorting paths without repeats makes them strictly ascend.
pub proof fn law_sorted_distinct_ascends(list: Seq<Seq<char>>, i: int, j: int)
    requires
        0 <= i < j < sorted_distinct(list).len(),
    ensures
        parts_precede(parts_of(sorted_distinct(list)[i]), parts_of(sorted_distinct(list)[j])),
{
    sorting::law_stable_sorted::<PathText>(list);
    lemma_without_repeats(sorting::stable_sorted::<PathText>(list));
}

/// The paths in order, each once.
pub fn sort_distinct(list: &Vec<String>) -> (r: Vec<String>)
    ensures
        text::texts(r@) == sorted_distinct(text::texts(list@)),
{
    let mut wrapped: Vec<PathText> = Vec::new();
    let mut i: usize = 0;
    while i < list.len()
        invariant
            i <= list@.len(),
            wrapped@.len() == i,
            forall|j: int| 0 <= j < i ==> (#[trigger] wrapped@[j])@ == list@[j]@,
        decreases list@.len() - i,
    {
        wrapped.push(PathText { text: list[i].clone() });
        i = i + 1;
    }
    assert(sorting::views(wrapped@) =~= text::texts(list@));
    let sorted = sorting::stable_sort(wrapped);
    let ghost order = sorting::stable_sorted::<PathText>(text::texts(list@));
    let mut out: Vec<String> = Vec::new();
    let mut k: usize = 0;
    assert(order.take(0) =~= Seq::<Seq<char>>::empty());
    assert(text::texts(out@) =~= Seq::<Seq<char>>::empty());
    while k < sorted.len()
        invariant
            k <= sorted@.len(),
            sorting::views(sorted@) == order,
            text::texts(out@) == without_repeats(order.take(k as int)),
            k > 0 ==> out@.len() > 0,
        decreases sorted@.len() - k,
    {
        let item = &sorted[k];
        let ghost before = out@;
        proof {
            assert(order[k as int] == item@);
            assert(order.take(k + 1).drop_last() =~= order.take(k as int));
            assert(order.take(k + 1).last() == item@);
        }
        if k == 0 {
            out.push(item.text.clone());
            assert(text::texts(out@) =~= order.take(1));
        } else {
            assert(text::texts(before).last() == before.last()@);
            if !same_path(out[out.len() - 1].as_str(), item.text.as_str()) {
                out.push(item.text.clone());
                proof {
                    text::lemma_texts_push(before, out@.last());
                    assert(out@ =~= before.push(out@.last()));
                }
            }
        }
        k = k + 1;
    }
    assert(order.take(k as int) =~= order);
    out
}

/// The pieces of two texts with a separator between them are those of the first, then those of the
/// second.
pub proof fn lemma_pieces_concat(a: Seq<char>, sep: char, b: Seq<char>)
    ensures
        text::pieces(a + seq![sep] + b, sep) == text::pieces(a, sep) + text::pieces(b, sep),
    decreases a.len(),
{
    let class = text::CharClass::Only(sep);
    let all = a + seq![sep] + b;
    let n = text::span_outside(a, class);
    let m = text::span_outside(all, class);
    text::lemma_span_bound(a, class);
    text::lemma_span_bound(all, class);
    assert(all[a.len() as int] == sep);
    if m > a.len() {
        assert(!class.has(all[a.len() as int]));
    }
    if n < a.len() {
        assert(all[n] == a[n]);
        if m > n {
            assert(!class.has(all[n]));
        }
        if m < n {
            assert(all[m] == a[m]);
        }
        lemma_pieces_concat(a.skip(n + 1), sep, b);
        assert(all.skip(n + 1) =~= a.skip(n + 1) + seq![sep] + b);
        assert(all.take(n) =~= a.take(n));
        assert(text::pieces(all, sep) =~= text::pieces(a, sep) + text::pieces(b, sep));
    } else {
        if m < n {
            assert(all[m] == a[m]);
        }
        assert(all.take(m) =~= a);
        assert(all.skip(m + 1) =~= b);
        assert(text::pieces(all, sep) =~= text::pieces(a, sep) + text::pieces(b, sep));
    }
}

proof fn lemma_parts_prefix(a: Seq<Seq<char>>, b: Seq<Seq<char>>, n: int)
    requires
        n <= a.len(),
        n <= b.len(),
        forall|i: int| 0 <= i < n ==> #[trigger] a[i] == b[i],
    ensures
        parts_from(a, n) == parts_from(b, n),
    decreases n,
{
    if n > 0 {
        lemma_parts_prefix(a, b, n - 1);
        assert(a[n - 1] == b[n - 1]);
    }
}

/// A name that is put below a directory becomes its last component, after all of the directory's, and
/// is the name of the path; whether the directory is written with a slash at its end does not matter.
pub proof fn law_name_below_a_directory(base: Seq<char>, name: Seq<char>)
    requires
        base.len() > 0,
        name.len() > 0,
        !name.contains('/'),
        name != "."@,
        name != ".."@,
    ensures
        parts_of(joined(base, name)) == parts_of(base).push(PartView::Normal(name)),
        name_of(joined(base, name)) == Some(name),
        is_absolute(joined(base, name)) == is_absolute(base),
        base.last() != '/' ==> parts_of(base + "/"@) == parts_of(base),
{
    reveal_strlit("/");
    assert("/"@ =~= seq!['/']);
    let class = text::CharClass::Only('/');
    assert(!is_absolute(name)) by {
        if name[0] == '/' {
            assert(name.contains(name[0]));
        }
    }
    text::lemma_span_bound(name, class);
    let k = text::span_outside(name, class);
    if k < name.len() {
        assert(name.contains(name[k]));
    }
    assert(text::pieces(name, '/') =~= seq![name]);
    let nothing = Seq::<char>::empty();
    assert(text::span_outside(nothing, class) == 0);
    assert(text::pieces(nothing, '/') =~= seq![nothing]);
    let stem = if base.last() == '/' {
        base.drop_last()
    } else {
        base
    };
    let all = joined(base, name);
    assert(all =~= stem + seq!['/'] + name);
    lemma_pieces_concat(stem, '/', name);
    lemma_pieces_concat(stem, '/', nothing);
    let above = text::pieces(stem, '/');
    crate::text_laws::law_pieces_join_back(stem, '/');
    let slashed = stem + seq!['/'] + nothing;
    let n = above.len() as int;
    let with_name = text::pieces(all, '/');
    let with_slash = text::pieces(slashed, '/');
    assert(with_name =~= above.push(name));
    assert(with_slash =~= above.push(nothing));
    lemma_parts_prefix(with_name, above, n);
    lemma_parts_prefix(with_slash, above, n);
    assert(parts_from(with_name, n + 1) == parts_from(above, n).push(PartView::Normal(name)));
    assert(parts_from(with_slash, n + 1) == parts_from(above, n));
    assert(all[0] == base[0]);
    if base.last() == '/' {
        assert(base =~= slashed);
    } else {
        assert(slashed =~= base + "/"@);
        assert(slashed[0] == base[0]);
    }
    assert(parts_of(all) =~= parts_of(base).push(PartView::Normal(name)));
}

/// Sorting paths without repeats loses none and makes none up: each path of the list has one with the
/// same components in the result, and each of the result is in the list.
pub proof fn law_sorted_distinct_keeps_paths(list: Seq<Seq<char>>, path: Seq<char>)
    ensures
        list.contains(path) ==> exists|i: int|
            0 <= i < sorted_distinct(list).len() && parts_of(#[trigger] sorted_distinct(list)[i])
                == parts_of(path),
        sorted_distinct(list).contains(path) ==> list.contains(path),
{
    let sorted = sorting::stable_sorted::<PathText>(list);
    sorting::law_sorting_keeps_elements::<PathText>(list, path);
    lemma_repeats_kept(sorted, path);
}

proof fn lemma_repeats_kept(list: Seq<Seq<char>>, path: Seq<char>)
    ensures
        list.len() > 0 ==> without_repeats(list).len() > 0,
        list.contains(path) ==> exists|i: int|
            0 <= i < without_repeats(list).len() && parts_of(#[trigger] without_repeats(list)[i])
                == parts_of(path),
        without_repeats(list).contains(path) ==> list.contains(path),
    decreases list.len(),
{
    if list.len() <= 1 {
        if list.contains(path) {
            let i = choose|i: int| 0 <= i < list.len() && list[i] == path;
            assert(parts_of(without_repeats(list)[i]) == parts_of(path));
        }
    } else {
        let front = list.drop_last();
        let rest = without_repeats(front);
        let all = without_repeats(list);
        lemma_repeats_kept(front, path);
        if list.contains(path) {
            let i = choose|i: int| 0 <= i < list.len() && list[i] == path;
            if i < front.len() {
                assert(front[i] == path);
                let k = choose|k: int|
                    0 <= k < rest.len() && parts_of(#[trigger] rest[k]) == parts_of(path);
                assert(all[k] == rest[k]);
            } else if parts_of(rest.last()) == parts_of(list.last()) {
                assert(parts_of(all[all.len() - 1]) == parts_of(path));
            } else {
                assert(all[all.len() - 1] == path);
            }
        }
        if all.contains(path) {
            let i = choose|i: int| 0 <= i < all.len() && all[i] == path;
            if i < rest.len() {
                assert(rest[i] == path);
                let k = choose|k: int| 0 <= k < front.len() && front[k] == path;
                assert(list[k] == path);
            } else {
                assert(list[list.len() - 1] == path);
            }
        }
    }
}

/// Empty pieces and dots between slashes are no components; two dots are one, and go up.
pub proof fn law_dots_and_slashes(a: Seq<char>, b: Seq<char>)
    requires
        a.len() > 0,
    ensures
        parts_of(a + "//"@ + b) == parts_of(a + "/"@ + b),
        parts_of(a + "/./"@ + b) == parts_of(a + "/"@ + b),
        parts_of(a + "/.."@) == parts_of(a).push(PartView::Parent),
        parts_of("."@) == seq![PartView::Current],
        parts_of("/"@) == seq![PartView::Root],
{
    reveal_strlit("/");
    reveal_strlit("//");
    reveal_strlit("/./");
    reveal_strlit("/..");
    reveal_strlit(".");
    reveal_strlit("..");
    let nothing = Seq::<char>::empty();
    let class = text::CharClass::Only('/');
    let above = text::pieces(a, '/');
    let below = text::pieces(b, '/');
    crate::text_laws::law_pieces_join_back(a, '/');
    lemma_single_piece(nothing);
    lemma_single_piece("."@);
    lemma_single_piece(".."@);
    lemma_pieces_concat(a, '/', b);
    lemma_pieces_concat(nothing, '/', b);
    lemma_pieces_concat("."@, '/', b);
    lemma_pieces_concat(a, '/', nothing + seq!['/'] + b);
    lemma_pieces_concat(a, '/', "."@ + seq!['/'] + b);
    lemma_pieces_concat(a, '/', ".."@);
    lemma_pieces_concat(nothing, '/', nothing);
    assert(a + "/"@ + b =~= a + seq!['/'] + b);
    assert(a + "//"@ + b =~= a + seq!['/'] + (nothing + seq!['/'] + b));
    assert(a + "/./"@ + b =~= a + seq!['/'] + ("."@ + seq!['/'] + b));
    assert(a + "/.."@ =~= a + seq!['/'] + ".."@);
    assert("/"@ =~= nothing + seq!['/'] + nothing);
    let plain = above + below;
    let double = above + seq![nothing] + below;
    let dotted = above + seq!["."@] + below;
    assert(text::pieces(a + "//"@ + b, '/') =~= double);
    assert(text::pieces(a + "/./"@ + b, '/') =~= dotted);
    lemma_skipped_piece(above, nothing, below, below.len() as int);
    lemma_skipped_piece(above, "."@, below, below.len() as int);
    let up = text::pieces(a + "/.."@, '/');
    assert(up =~= above.push(".."@));
    lemma_parts_prefix(up, above, above.len() as int);
    assert(parts_from(up, above.len() as int + 1) == parts_from(above, above.len() as int).push(
        PartView::Parent,
    ));
    assert((a + "/.."@)[0] == a[0]);
    assert((a + "//"@ + b)[0] == a[0]);
    assert((a + "/./"@ + b)[0] == a[0]);
    assert((a + "/"@ + b)[0] == a[0]);
    assert(parts_of(a + "/.."@) =~= parts_of(a).push(PartView::Parent));
    let dot = text::pieces("."@, '/');
    assert(dot =~= seq!["."@]);
    assert(parts_from(dot, 0) =~= Seq::empty());
    assert(parts_from(dot, 1) =~= seq![PartView::Current]);
    let root = text::pieces("/"@, '/');
    assert(root =~= seq![nothing, nothing]);
    assert(parts_from(root, 0) =~= Seq::empty());
    assert(parts_from(root, 1) =~= Seq::empty());
    assert(parts_from(root, 2) =~= Seq::empty());
    assert(parts_of("/"@) =~= seq![PartView::Root]);
}

proof fn lemma_single_piece(s: Seq<char>)
    requires
        !s.contains('/'),
    ensures
        text::pieces(s, '/') == seq![s],
{
    let class = text::CharClass::Only('/');
    text::lemma_span_bound(s, class);
    let n = text::span_outside(s, class);
    if n < s.len() {
        assert(s.contains(s[n]));
    }
    assert(text::pieces(s, '/') =~= seq![s]);
}

proof fn lemma_skipped_piece(
    above: Seq<Seq<char>>,
    piece: Seq<char>,
    below: Seq<Seq<char>>,
    n: int,
)
    requires
        above.len() > 0,
        piece.len() == 0 || piece == "."@,
        0 <= n <= below.len(),
    ensures
        parts_from(above + seq![piece] + below, above.len() + 1 + n) == parts_from(
            above + below,
            above.len() + n,
        ),
    decreases n,
{
    let longer = above + seq![piece] + below;
    let shorter = above + below;
    let m = above.len() as int;
    if n == 0 {
        lemma_parts_prefix(longer, shorter, m);
        assert(longer[m] == piece);
    } else {
        lemma_skipped_piece(above, piece, below, n - 1);
        assert(longer[m + n] == below[n - 1]);
        assert(shorter[m + n - 1] == below[n - 1]);
    }
}

/// Paths are ordered by their first different component, a directory before what is below it; names
/// go by dictionary order, and the root, a dot and two dots go before names.
pub proof fn law_paths_are_ordered_by_components(
    common: Seq<PartView>,
    x: Seq<char>,
    y: Seq<char>,
    rest: Seq<PartView>,
    more: Seq<PartView>,
)
    ensures
        text::precedes(x, y) ==> parts_precede(
            common + (seq![PartView::Normal(x)] + rest),
            common + (seq![PartView::Normal(y)] + more),
        ),
        rest.len() > 0 ==> parts_precede(common, common + rest),
        !parts_precede(common + rest, common),
        part_precedes(PartView::Root, PartView::Current),
        part_precedes(PartView::Current, PartView::Parent),
        part_precedes(PartView::Parent, PartView::Normal(x)),
        !part_precedes(PartView::Normal(x), PartView::Parent),
    decreases common.len(),
{
    let a = seq![PartView::Normal(x)] + rest;
    let b = seq![PartView::Normal(y)] + more;
    if common.len() > 0 {
        law_paths_are_ordered_by_components(common.drop_first(), x, y, rest, more);
        assert((common + a).drop_first() =~= common.drop_first() + a);
        assert((common + b).drop_first() =~= common.drop_first() + b);
        assert((common + rest).drop_first() =~= common.drop_first() + rest);
    } else {
        assert(common + a =~= a);
        assert(common + b =~= b);
        assert(common + rest =~= rest);
        if text::precedes(x, y) {
            text::lemma_precedes_asymmetric(x, y);
        }
    }
}

} // verus!
