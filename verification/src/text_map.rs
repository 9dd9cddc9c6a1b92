//! Maps and sets keyed by text and walked in dictionary order.

use vstd::prelude::*;
use crate::text;
use crate::text::Rank;

verus! {

/// `keys` lists the members of `members` once each, in dictionary order.
pub open spec fn lists(keys: Seq<Seq<char>>, members: Set<Seq<char>>) -> bool {
    text::ascending(keys) && keys.to_set() == members
}

/// The members of a set in dictionary order.
pub open spec fn listing(members: Set<Seq<char>>) -> Seq<Seq<char>> {
    choose|keys: Seq<Seq<char>>| lists(keys, members)
}

/// A list of the members in dictionary order is the list of them.
pub proof fn lemma_listing(keys: Seq<Seq<char>>, members: Set<Seq<char>>)
    requires
        lists(keys, members),
    ensures
        listing(members) == keys,
{
    lemma_lists_unique(listing(members), keys, members);
}

/// A finite set of texts has a first member in dictionary order.
proof fn lemma_first_member(members: Set<Seq<char>>) -> (first: Seq<char>)
    requires
        members.finite(),
        members.len() > 0,
    ensures
        members.contains(first),
        forall|k: Seq<char>| members.contains(k) && k != first ==> #[trigger] text::precedes(first, k),
    decreases members.len(),
{
    let one = members.choose();
    let rest = members.remove(one);
    if rest.len() == 0 {
        assert(rest =~= Set::empty());
        assert forall|k: Seq<char>| members.contains(k) implies k == one by {
            if k != one {
                assert(rest.contains(k));
            }
        }
        one
    } else {
        let other = lemma_first_member(rest);
        text::lemma_precedes_total(one, other);
        let first = if text::precedes(one, other) {
            one
        } else {
            other
        };
        assert forall|k: Seq<char>| members.contains(k) && k != first implies #[trigger] text::precedes(
            first,
            k,
        ) by {
            if first == one {
                assert(rest.contains(k));
                if k != other {
                    assert(text::precedes(other, k));
                    text::lemma_precedes_transitive(one, other, k);
                }
            } else if k != one {
                assert(rest.contains(k));
            }
        }
        first
    }
}

/// Every finite set of texts has a list of its members in dictionary order.
pub proof fn lemma_listing_exists(members: Set<Seq<char>>)
    requires
        members.finite(),
    ensures
        lists(listing(members), members),
    decreases members.len(),
{
    if members.len() == 0 {
        let keys = Seq::<Seq<char>>::empty();
        assert(keys.to_set() =~= members);
        assert(lists(keys, members));
    } else {
        let first = lemma_first_member(members);
        let rest = members.remove(first);
        lemma_listing_exists(rest);
        let tail = listing(rest);
        let keys = seq![first] + tail;
        lemma_listed(tail, rest);
        assert forall|i: int, j: int| 0 <= i < j < keys.len() implies text::precedes(
            #[trigger] keys[i],
            #[trigger] keys[j],
        ) by {
            assert(keys[j] == tail[j - 1]);
            if i == 0 {
                assert(rest.contains(tail[j - 1]));
            } else {
                assert(keys[i] == tail[i - 1]);
            }
        }
        assert forall|k: Seq<char>| keys.to_set().contains(k) == members.contains(k) by {
            if keys.to_set().contains(k) {
                assert(keys.contains(k));
                let i = choose|i: int| 0 <= i < keys.len() && keys[i] == k;
                if i > 0 {
                    assert(rest.contains(tail[i - 1]));
                }
            }
            if members.contains(k) {
                if k == first {
                    assert(keys[0] == k);
                } else {
                    assert(tail.contains(k));
                    let i = choose|i: int| 0 <= i < tail.len() && tail[i] == k;
                    assert(keys[i + 1] == k);
                }
                assert(keys.contains(k));
            }
        }
        assert(keys.to_set() =~= members);
        assert(lists(keys, members));
    }
}

/// What the values of a map stand for.
pub open spec fn views<V: View>(m: Map<Seq<char>, V>) -> Map<Seq<char>, V::V> {
    Map::new(|key: Seq<char>| m.dom().contains(key), |key: Seq<char>| m[key]@)
}

/// A new entry of a map is a new entry of what it stands for.
pub proof fn lemma_views_insert<V: View>(m: Map<Seq<char>, V>, key: Seq<char>, value: V)
    ensures
        views(m.insert(key, value)) == views(m).insert(key, value@),
{
    assert(views(m.insert(key, value)) =~= views(m).insert(key, value@));
}

/// Nothing stands for nothing.
pub proof fn lemma_views_empty<V: View>()
    ensures
        views(Map::<Seq<char>, V>::empty()) == Map::<Seq<char>, V::V>::empty(),
{
    assert(views(Map::<Seq<char>, V>::empty()) =~= Map::<Seq<char>, V::V>::empty());
}

/// Two lists of the same members in dictionary order are the same list.
pub proof fn lemma_lists_unique(a: Seq<Seq<char>>, b: Seq<Seq<char>>, members: Set<Seq<char>>)
    requires
        lists(a, members),
        lists(b, members),
    ensures
        a == b,
    decreases a.len(),
{
    lemma_listed(a, members);
    lemma_listed(b, members);
    if a.len() == 0 {
        if b.len() > 0 {
            assert(members.contains(b[0]));
            assert(a.contains(b[0]));
        }
        assert(a =~= b);
    } else {
        assert(members.contains(a[0]));
        assert(b.contains(a[0]));
        let i = choose|i: int| 0 <= i < b.len() && b[i] == a[0];
        assert(members.contains(b[0]));
        assert(a.contains(b[0]));
        let j = choose|j: int| 0 <= j < a.len() && a[j] == b[0];
        if i > 0 {
            assert(text::precedes(b[0], b[i]));
            if j > 0 {
                assert(text::precedes(a[0], a[j]));
                text::lemma_precedes_asymmetric(a[0], b[0]);
            } else {
                text::lemma_precedes_irreflexive(a[0]);
            }
        }
        assert(a[0] == b[0]);
        let rest = members.remove(a[0]);
        lemma_lists_tail(a, members);
        lemma_lists_tail(b, members);
        lemma_lists_unique(a.drop_first(), b.drop_first(), rest);
        assert(a =~= seq![a[0]] + a.drop_first());
        assert(b =~= seq![b[0]] + b.drop_first());
    }
}

/// A list of members holds every member, and only members.
pub proof fn lemma_listed(keys: Seq<Seq<char>>, members: Set<Seq<char>>)
    requires
        lists(keys, members),
    ensures
        forall|i: int| 0 <= i < keys.len() ==> members.contains(#[trigger] keys[i]),
        forall|k: Seq<char>| members.contains(k) ==> keys.contains(k),
{
    assert forall|i: int| 0 <= i < keys.len() implies members.contains(#[trigger] keys[i]) by {
        assert(keys.contains(keys[i]));
        assert(keys.to_set().contains(keys[i]));
    }
    assert forall|k: Seq<char>| members.contains(k) implies keys.contains(k) by {
        assert(keys.to_set().contains(k));
    }
}

proof fn lemma_lists_tail(keys: Seq<Seq<char>>, members: Set<Seq<char>>)
    requires
        lists(keys, members),
        keys.len() > 0,
    ensures
        lists(keys.drop_first(), members.remove(keys[0])),
{
    let tail = keys.drop_first();
    assert(text::ascending(tail)) by {
        assert forall|i: int, j: int| 0 <= i < j < tail.len() implies text::precedes(
            #[trigger] tail[i],
            #[trigger] tail[j],
        ) by {
            assert(tail[i] == keys[i + 1] && tail[j] == keys[j + 1]);
        }
    }
    lemma_listed(keys, members);
    assert forall|k: Seq<char>| tail.to_set().contains(k) == members.remove(keys[0]).contains(k) by {
        if tail.to_set().contains(k) {
            assert(tail.contains(k));
            let i = choose|i: int| 0 <= i < tail.len() && tail[i] == k;
            assert(keys[i + 1] == k);
            assert(text::precedes(keys[0], keys[i + 1]));
            text::lemma_precedes_irreflexive(k);
        }
        if members.remove(keys[0]).contains(k) {
            assert(keys.contains(k));
            let i = choose|i: int| 0 <= i < keys.len() && keys[i] == k;
            assert(tail[i - 1] == k);
            assert(tail.contains(k));
        }
    }
    assert(tail.to_set() =~= members.remove(keys[0]));
}

/// A map from text to `V` that keeps its keys in dictionary order.
pub struct TextMap<V> {
    entries: Vec<(String, V)>,
}

/// The keys of an association list.
spec fn keys_of<V>(entries: Seq<(String, V)>) -> Seq<Seq<char>> {
    Seq::new(entries.len(), |i: int| entries[i].0@)
}

/// Where `key` stands in an association list.
spec fn slot_of<V>(entries: Seq<(String, V)>, key: Seq<char>) -> int {
    choose|i: int| 0 <= i < entries.len() && (#[trigger] entries[i]).0@ == key
}

/// The map that an association list stands for.
spec fn map_of<V>(entries: Seq<(String, V)>) -> Map<Seq<char>, V> {
    Map::new(
        |key: Seq<char>| keys_of(entries).contains(key),
        |key: Seq<char>| entries[slot_of(entries, key)].1,
    )
}

/// In a list with ascending keys, the entry at `i` is what its key maps to.
proof fn lemma_slot<V>(entries: Seq<(String, V)>, i: int)
    requires
        text::ascending(keys_of(entries)),
        0 <= i < entries.len(),
    ensures
        map_of(entries).dom().contains(entries[i].0@),
        map_of(entries)[entries[i].0@] == entries[i].1,
{
    let keys = keys_of(entries);
    let key = entries[i].0@;
    assert(keys[i] == key);
    assert(keys.contains(key));
    let j = slot_of(entries, key);
    assert(0 <= j < entries.len() && entries[j].0@ == key);
    assert(keys[j] == key);
    if i < j {
        text::lemma_precedes_irreflexive(key);
    } else if j < i {
        text::lemma_precedes_irreflexive(key);
    }
}

/// A key of the map stands somewhere in the list.
proof fn lemma_member<V>(entries: Seq<(String, V)>, key: Seq<char>) -> (i: int)
    requires
        text::ascending(keys_of(entries)),
        map_of(entries).dom().contains(key),
    ensures
        0 <= i < entries.len(),
        entries[i].0@ == key,
        map_of(entries)[key] == entries[i].1,
{
    let keys = keys_of(entries);
    let i = choose|i: int| 0 <= i < keys.len() && keys[i] == key;
    lemma_slot(entries, i);
    i
}

/// The keys of a list are as many as they are listed.
proof fn lemma_cardinality<V>(entries: Seq<(String, V)>)
    requires
        text::ascending(keys_of(entries)),
    ensures
        map_of(entries).dom().finite(),
        map_of(entries).dom().len() == entries.len(),
        lists(keys_of(entries), map_of(entries).dom()),
{
    let keys = keys_of(entries);
    assert(keys.no_duplicates()) by {
        assert forall|i: int, j: int| 0 <= i < keys.len() && 0 <= j < keys.len() && i != j implies keys[i]
            != keys[j] by {
            if i < j {
                text::lemma_precedes_asymmetric(keys[i], keys[j]);
            } else {
                text::lemma_precedes_asymmetric(keys[j], keys[i]);
            }
        }
    }
    keys.unique_seq_to_set();
    vstd::seq_lib::seq_to_set_is_finite(keys);
    assert(map_of(entries).dom() =~= keys.to_set());
}

impl<V> View for TextMap<V> {
    type V = Map<Seq<char>, V>;

    closed spec fn view(&self) -> Map<Seq<char>, V> {
        map_of(self.entries@)
    }
}

impl<V> TextMap<V> {
    #[verifier::type_invariant]
    spec fn sorted(self) -> bool {
        text::ascending(keys_of(self.entries@))
    }

    /// A map without entries.
    pub fn new() -> (r: Self)
        ensures
            r@ == Map::<Seq<char>, V>::empty(),
    {
        let r = TextMap { entries: Vec::new() };
        assert(r@ =~= Map::<Seq<char>, V>::empty());
        r
    }

    /// The number of entries.
    pub fn len(&self) -> (r: usize)
        ensures
            self@.dom().finite(),
            r == self@.dom().len(),
    {
        proof {
            use_type_invariant(self);
            lemma_cardinality(self.entries@);
        }
        self.entries.len()
    }

    /// Whether the map has no entry.
    pub fn is_empty(&self) -> (r: bool)
        ensures
            r == (self@ == Map::<Seq<char>, V>::empty()),
    {
        proof {
            use_type_invariant(self);
            if self.entries@.len() > 0 {
                lemma_slot(self.entries@, 0);
            } else {
                assert(self@ =~= Map::<Seq<char>, V>::empty());
            }
        }
        self.entries.len() == 0
    }

    /// Where `key` stands, or where it would have to be put.
    fn position(&self, key: &str) -> (r: (usize, bool))
        ensures
            r.0 <= self.entries@.len(),
            r.1 ==> r.0 < self.entries@.len() && self.entries@[r.0 as int].0@ == key@,
            r.1 == self@.dom().contains(key@),
            forall|i: int| 0 <= i < r.0 ==> text::precedes(keys_of(self.entries@)[i], key@),
            !r.1 ==> forall|i: int|
                r.0 <= i < self.entries@.len() ==> text::precedes(
                    key@,
                    #[trigger] keys_of(self.entries@)[i],
                ),
    {
        let ghost keys = keys_of(self.entries@);
        proof {
            use_type_invariant(self);
        }
        let mut i: usize = 0;
        while i < self.entries.len()
            invariant
                i <= self.entries@.len(),
                keys == keys_of(self.entries@),
                text::ascending(keys),
                forall|j: int| 0 <= j < i ==> text::precedes(#[trigger] keys[j], key@),
            decreases self.entries@.len() - i,
        {
            match text::rank(self.entries[i].0.as_str(), key) {
                Rank::Before => {
                    i = i + 1;
                },
                Rank::Same => {
                    proof {
                        lemma_slot(self.entries@, i as int);
                    }
                    return (i, true);
                },
                Rank::After => {
                    proof {
                        assert forall|j: int| i <= j < keys.len() implies text::precedes(
                            key@,
                            #[trigger] keys[j],
                        ) by {
                            if j > i {
                                text::lemma_precedes_transitive(key@, keys[i as int], keys[j]);
                            }
                        }
                        if self@.dom().contains(key@) {
                            let k = lemma_member(self.entries@, key@);
                            assert(keys[k] == key@);
                            text::lemma_precedes_irreflexive(key@);
                        }
                    }
                    return (i, false);
                },
            }
        }
        proof {
            if self@.dom().contains(key@) {
                let k = lemma_member(self.entries@, key@);
                assert(keys[k] == key@);
                text::lemma_precedes_irreflexive(key@);
            }
        }
        (i, false)
    }

    /// Whether the map has an entry for `key`.
    pub fn contains(&self, key: &str) -> (r: bool)
        ensures
            r == self@.dom().contains(key@),
    {
        self.position(key).1
    }

    /// What `key` maps to.
    pub fn get(&self, key: &str) -> (r: Option<&V>)
        ensures
            match r {
                Some(v) => self@.dom().contains(key@) && *v == self@[key@],
                None => !self@.dom().contains(key@),
            },
    {
        let (i, found) = self.position(key);
        if found {
            proof {
                use_type_invariant(self);
                lemma_slot(self.entries@, i as int);
            }
            Some(&self.entries[i].1)
        } else {
            None
        }
    }

    /// Maps `key` to `value`, whatever it mapped to before.
    pub fn insert(&mut self, key: String, value: V)
        ensures
            final(self)@ == old(self)@.insert(key@, value),
    {
        let (i, found) = self.position(key.as_str());
        proof {
            use_type_invariant(&*self);
        }
        let ghost before = self.entries@;
        let mut entries: Vec<(String, V)> = Vec::new();
        std::mem::swap(&mut entries, &mut self.entries);
        let ghost name = key@;
        if found {
            entries.set(i, (key, value));
            proof {
                let after = entries@;
                assert(keys_of(after) =~= keys_of(before));
                lemma_same_keys(before, after, i as int, value);
            }
        } else {
            entries.insert(i, (key, value));
            proof {
                lemma_inserted(before, entries@, i as int, name, value);
            }
        }
        self.entries = entries;
    }

    /// Removes the entry for `key` and hands back what it mapped to.
    pub fn remove(&mut self, key: &str) -> (r: Option<V>)
        ensures
            final(self)@ == old(self)@.remove(key@),
            match r {
                Some(v) => old(self)@.dom().contains(key@) && v == old(self)@[key@],
                None => !old(self)@.dom().contains(key@),
            },
    {
        let (i, found) = self.position(key);
        if !found {
            assert(self@ =~= old(self)@.remove(key@));
            return None;
        }
        proof {
            use_type_invariant(&*self);
        }
        let ghost before = self.entries@;
        let mut entries: Vec<(String, V)> = Vec::new();
        std::mem::swap(&mut entries, &mut self.entries);
        let (_, value) = entries.remove(i);
        proof {
            lemma_removed(before, entries@, i as int);
        }
        self.entries = entries;
        Some(value)
    }

    /// The keys in dictionary order.
    pub fn keys(&self) -> (r: Vec<String>)
        ensures
            lists(text::texts(r@), self@.dom()),
            text::texts(r@) == listing(self@.dom()),
    {
        proof {
            use_type_invariant(self);
            lemma_cardinality(self.entries@);
        }
        let mut out: Vec<String> = Vec::new();
        let mut i: usize = 0;
        while i < self.entries.len()
            invariant
                i <= self.entries@.len(),
                out@.len() == i,
                forall|j: int| 0 <= j < i ==> (#[trigger] out@[j])@ == self.entries@[j].0@,
            decreases self.entries@.len() - i,
        {
            out.push(self.entries[i].0.clone());
            i = i + 1;
        }
        assert(text::texts(out@) =~= keys_of(self.entries@));
        proof {
            lemma_listing(text::texts(out@), self@.dom());
        }
        out
    }
}

proof fn lemma_same_keys<V>(before: Seq<(String, V)>, after: Seq<(String, V)>, i: int, value: V)
    requires
        text::ascending(keys_of(before)),
        0 <= i < before.len(),
        keys_of(after) == keys_of(before),
        after.len() == before.len(),
        after[i].1 == value,
        forall|j: int| 0 <= j < before.len() && j != i ==> after[j].1 == before[j].1,
    ensures
        map_of(after) == map_of(before).insert(before[i].0@, value),
{
    let name = before[i].0@;
    assert(keys_of(after)[i] == name);
    assert forall|key: Seq<char>| map_of(after).dom().contains(key) implies map_of(after)[key]
        == map_of(before).insert(name, value)[key] by {
        let j = lemma_member(after, key);
        assert(keys_of(after)[j] == keys_of(before)[j]);
        lemma_slot(before, j);
        lemma_slot(before, i);
        lemma_slot(after, i);
    }
    lemma_slot(before, i);
    assert(map_of(after) =~= map_of(before).insert(name, value));
}

proof fn lemma_inserted<V>(
    before: Seq<(String, V)>,
    after: Seq<(String, V)>,
    i: int,
    name: Seq<char>,
    value: V,
)
    requires
        text::ascending(keys_of(before)),
        0 <= i <= before.len(),
        after.len() == before.len() + 1,
        after[i].0@ == name,
        after[i].1 == value,
        forall|j: int| 0 <= j < i ==> after[j] == before[j],
        forall|j: int| i < j < after.len() ==> after[j] == before[j - 1],
        forall|j: int| 0 <= j < i ==> text::precedes(keys_of(before)[j], name),
        forall|j: int| i <= j < before.len() ==> text::precedes(name, #[trigger] keys_of(before)[j]),
    ensures
        text::ascending(keys_of(after)),
        map_of(after) == map_of(before).insert(name, value),
{
    let ka = keys_of(after);
    let kb = keys_of(before);
    assert forall|a: int, b: int| 0 <= a < b < ka.len() implies text::precedes(
        #[trigger] ka[a],
        #[trigger] ka[b],
    ) by {
        let a2 = if a < i { a } else { a - 1 };
        let b2 = if b < i { b } else { b - 1 };
        if a != i {
            assert(ka[a] == kb[a2]);
        }
        if b != i {
            assert(ka[b] == kb[b2]);
        }
    }
    assert forall|key: Seq<char>| map_of(after).dom().contains(key) == map_of(before).insert(
        name,
        value,
    ).dom().contains(key) by {
        if map_of(after).dom().contains(key) {
            let j = lemma_member(after, key);
            if j < i {
                lemma_slot(before, j);
            } else if j > i {
                lemma_slot(before, j - 1);
            }
        }
        if map_of(before).dom().contains(key) {
            let j = lemma_member(before, key);
            if j < i {
                assert(after[j] == before[j]);
                lemma_slot(after, j);
            } else {
                assert(after[j + 1] == before[j]);
                lemma_slot(after, j + 1);
            }
        }
        lemma_slot(after, i);
    }
    assert forall|key: Seq<char>| map_of(after).dom().contains(key) implies map_of(after)[key]
        == map_of(before).insert(name, value)[key] by {
        let j = lemma_member(after, key);
        if j < i {
            lemma_slot(before, j);
            text::lemma_precedes_irreflexive(name);
            assert(kb[j] == key);
        } else if j > i {
            lemma_slot(before, j - 1);
            text::lemma_precedes_irreflexive(name);
            assert(kb[j - 1] == key);
        }
    }
    assert(map_of(after) =~= map_of(before).insert(name, value));
}

proof fn lemma_removed<V>(before: Seq<(String, V)>, after: Seq<(String, V)>, i: int)
    requires
        text::ascending(keys_of(before)),
        0 <= i < before.len(),
        after == before.remove(i),
    ensures
        text::ascending(keys_of(after)),
        map_of(after) == map_of(before).remove(before[i].0@),
        map_of(before)[before[i].0@] == before[i].1,
{
    let ka = keys_of(after);
    let kb = keys_of(before);
    let name = before[i].0@;
    lemma_slot(before, i);
    assert forall|a: int, b: int| 0 <= a < b < ka.len() implies text::precedes(
        #[trigger] ka[a],
        #[trigger] ka[b],
    ) by {
        let a2 = if a < i { a } else { a + 1 };
        let b2 = if b < i { b } else { b + 1 };
        assert(ka[a] == kb[a2]);
        assert(ka[b] == kb[b2]);
    }
    assert forall|key: Seq<char>| map_of(after).dom().contains(key) == map_of(before).remove(
        name,
    ).dom().contains(key) by {
        if map_of(after).dom().contains(key) {
            let j = lemma_member(after, key);
            let j2 = if j < i { j } else { j + 1 };
            assert(after[j] == before[j2]);
            lemma_slot(before, j2);
            assert(kb[j2] == key);
            assert(kb[i] == name);
            text::lemma_precedes_irreflexive(name);
        }
        if map_of(before).dom().contains(key) && key != name {
            let j = lemma_member(before, key);
            let j2 = if j < i { j } else { j - 1 };
            assert(after[j2] == before[j]);
            lemma_slot(after, j2);
        }
    }
    assert forall|key: Seq<char>| map_of(after).dom().contains(key) implies map_of(after)[key]
        == map_of(before).remove(name)[key] by {
        let j = lemma_member(after, key);
        let j2 = if j < i { j } else { j + 1 };
        assert(after[j] == before[j2]);
        lemma_slot(before, j2);
        assert(kb[j2] == key);
        assert(kb[i] == name);
        text::lemma_precedes_irreflexive(name);
    }
    assert(map_of(after) =~= map_of(before).remove(name));
}

/// A copy of a map from text to text.
pub fn copy_texts(m: &TextMap<String>) -> (r: TextMap<String>)
    ensures
        r@ == m@,
{
    let keys = m.keys();
    let mut out: TextMap<String> = TextMap::new();
    let mut i: usize = 0;
    let ghost names = text::texts(keys@);
    while i < keys.len()
        invariant
            names == text::texts(keys@),
            lists(names, m@.dom()),
            i <= keys@.len(),
            forall|k: Seq<char>|
                out@.dom().contains(k) <==> exists|j: int| 0 <= j < i && #[trigger] names[j] == k,
            forall|k: Seq<char>| #[trigger] out@.dom().contains(k) ==> out@[k] == m@[k],
        decreases keys@.len() - i,
    {
        proof {
            lemma_listed(names, m@.dom());
            assert(names[i as int] == keys@[i as int]@);
        }
        let ghost before = out@;
        match m.get(keys[i].as_str()) {
            Some(value) => {
                out.insert(keys[i].clone(), value.clone());
            },
            None => {},
        }
        proof {
            assert forall|k: Seq<char>|
                out@.dom().contains(k) <==> exists|j: int|
                    0 <= j < i + 1 && #[trigger] names[j] == k by {
                if out@.dom().contains(k) {
                    if k == names[i as int] {
                    } else {
                        assert(before.dom().contains(k));
                    }
                }
                if exists|j: int| 0 <= j < i + 1 && #[trigger] names[j] == k {
                    let j = choose|j: int| 0 <= j < i + 1 && #[trigger] names[j] == k;
                    if j < i {
                        assert(before.dom().contains(k));
                    }
                }
            }
        }
        i = i + 1;
    }
    proof {
        lemma_listed(names, m@.dom());
        assert forall|k: Seq<char>| out@.dom().contains(k) == m@.dom().contains(k) by {
            if m@.dom().contains(k) {
                assert(names.contains(k));
            }
        }
        assert(out@ =~= m@);
    }
    out
}

/// Whether two maps hold the same texts.
pub fn same_entries(a: &TextMap<String>, b: &TextMap<String>) -> (r: bool)
    ensures
        r == (views(a@) == views(b@)),
{
    let ka = a.keys();
    let kb = b.keys();
    let ghost na = text::texts(ka@);
    let ghost nb = text::texts(kb@);
    proof {
        lemma_listed(na, a@.dom());
        lemma_listed(nb, b@.dom());
        assert(views(a@).dom() =~= a@.dom());
        assert(views(b@).dom() =~= b@.dom());
    }
    if !text::same_texts(&ka, &kb) {
        proof {
            if views(a@) == views(b@) {
                lemma_lists_unique(na, nb, a@.dom());
            }
        }
        return false;
    }
    let mut i: usize = 0;
    while i < ka.len()
        invariant
            i <= ka@.len(),
            na == text::texts(ka@),
            na == nb,
            forall|j: int| 0 <= j < na.len() ==> a@.dom().contains(#[trigger] na[j]),
            forall|j: int| 0 <= j < na.len() ==> b@.dom().contains(#[trigger] na[j]),
            forall|j: int| 0 <= j < i ==> a@[#[trigger] na[j]]@ == b@[na[j]]@,
        decreases ka@.len() - i,
    {
        assert(na[i as int] == ka@[i as int]@);
        match (a.get(ka[i].as_str()), b.get(ka[i].as_str())) {
            (Some(x), Some(y)) => {
                if !text::same_text(x.as_str(), y.as_str()) {
                    assert(views(a@)[na[i as int]] != views(b@)[na[i as int]]);
                    return false;
                }
            },
            _ => {},
        }
        i = i + 1;
    }
    proof {
        assert(na.to_set() == nb.to_set());
        assert(a@.dom() == b@.dom());
        assert forall|k: Seq<char>| views(a@).dom().contains(k) implies views(a@)[k]
            == views(b@)[k] by {
            assert(na.contains(k));
        }
        assert(views(a@) =~= views(b@));
    }
    true
}

/// A set of texts walked in dictionary order.
pub struct TextSet {
    members: TextMap<()>,
}

impl View for TextSet {
    type V = Set<Seq<char>>;

    closed spec fn view(&self) -> Set<Seq<char>> {
        self.members@.dom()
    }
}

impl TextSet {
    /// A set without members.
    pub fn new() -> (r: Self)
        ensures
            r@ == Set::<Seq<char>>::empty(),
    {
        let r = TextSet { members: TextMap::new() };
        assert(r@ =~= Set::<Seq<char>>::empty());
        r
    }

    /// The number of members.
    pub fn len(&self) -> (r: usize)
        ensures
            self@.finite(),
            r == self@.len(),
    {
        self.members.len()
    }

    /// Whether `member` is in the set.
    pub fn contains(&self, member: &str) -> (r: bool)
        ensures
            r == self@.contains(member@),
    {
        self.members.contains(member)
    }

    /// Puts `member` into the set and says whether it is new there.
    pub fn insert(&mut self, member: String) -> (r: bool)
        ensures
            final(self)@ == old(self)@.insert(member@),
            r == !old(self)@.contains(member@),
    {
        let fresh = !self.members.contains(member.as_str());
        let ghost name = member@;
        self.members.insert(member, ());
        assert(self@ =~= old(self)@.insert(name));
        fresh
    }

    /// Takes `member` out of the set and says whether it was there.
    pub fn remove(&mut self, member: &str) -> (r: bool)
        ensures
            final(self)@ == old(self)@.remove(member@),
            r == old(self)@.contains(member@),
    {
        let gone = self.members.remove(member);
        assert(self@ =~= old(self)@.remove(member@));
        gone.is_some()
    }

    /// The members in dictionary order.
    pub fn to_vec(&self) -> (r: Vec<String>)
        ensures
            lists(text::texts(r@), self@),
    {
        self.members.keys()
    }
}

} // verus!
