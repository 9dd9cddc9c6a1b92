//! The vector backend: its configuration, the ids of what it stores, and what it is asked for.

use vstd::prelude::*;
use vstd::utf8::encode_utf8;
use crate::compat::{PINNED_FASTEMBED_DIMENSIONS, PINNED_FASTEMBED_MODEL};
use crate::clock::Timestamp;
use crate::memory::{MemoryRecord, StoreMemory};
use crate::text;
use crate::text_map;

verus! {

/// How a vector backend is reached and what it holds.
#[derive(Debug, Clone, PartialEq, Eq)]
pub struct QdrantBackendConfig {
    pub url: String,
    pub api_key: Option<String>,
    pub collection: String,
    pub embedding_model: String,
    pub dimensions: usize,
}

impl QdrantBackendConfig {
    /// A backend without a key, with the pinned model.
    pub fn new(url: &str, collection: &str) -> (r: Self)
        ensures
            r.url@ == url@,
            r.api_key is None,
            r.collection@ == collection@,
            r.embedding_model@ == PINNED_FASTEMBED_MODEL@,
            r.dimensions == PINNED_FASTEMBED_DIMENSIONS,
    {
        QdrantBackendConfig {
            url: url.to_owned(),
            api_key: None,
            collection: collection.to_owned(),
            embedding_model: PINNED_FASTEMBED_MODEL.to_owned(),
            dimensions: PINNED_FASTEMBED_DIMENSIONS,
        }
    }
}

/// The text that is embedded: what it is for, and the text itself.
pub fn embedding_input(prefix: &str, content: &str) -> (r: String)
    ensures
        r@ == prefix@ + ": "@ + content@,
{
    let mut out = prefix.to_owned();
    out.append(": ");
    out.append(content);
    out
}

// ---------------------------------------------------------------------------------------------
// Ids
// ---------------------------------------------------------------------------------------------

/// The SHA-256 digest of bytes.
pub uninterp spec fn sha256_digest(data: Seq<u8>) -> Seq<u8>;

/// `sha2::Sha256::digest`: the digest of the bytes, which is 32 bytes long. Which bytes it holds
/// is left to the name.
#[verifier::external_body]
fn sha256(data: &Vec<u8>) -> (r: Vec<u8>)
    ensures
        r@ == sha256_digest(data@),
        r@.len() == 32,
{
    <sha2::Sha256 as sha2::Digest>::digest(data).to_vec()
}

/// The hexadecimal digit for `d`, which is less than sixteen.
pub open spec fn hex_char(d: int) -> char {
    if d < 10 {
        (0x30 + d) as char
    } else {
        (0x57 + d) as char
    }
}

/// Bytes in lower-case hexadecimal, two digits for each.
pub open spec fn hex_text(bytes: Seq<u8>) -> Seq<char> {
    Seq::new(
        2 * bytes.len(),
        |i: int|
            if i % 2 == 0 {
                hex_char(bytes[i / 2] as int / 16)
            } else {
                hex_char(bytes[i / 2] as int % 16)
            },
    )
}

fn hex_digit(d: u8) -> (r: char)
    requires
        d < 16,
    ensures
        r == hex_char(d as int),
{
    if d < 10 {
        (0x30u8 + d) as char
    } else {
        (0x57u8 + d) as char
    }
}

/// Bytes in lower-case hexadecimal.
pub fn to_hex(bytes: &Vec<u8>) -> (r: String)
    ensures
        r@ == hex_text(bytes@),
{
    let mut out = String::new();
    let mut i: usize = 0;
    while i < bytes.len()
        invariant
            i <= bytes@.len(),
            out@ == hex_text(bytes@).take(2 * i),
        decreases bytes@.len() - i,
    {
        let b: u8 = bytes[i];
        out.push(hex_digit(b / 16));
        out.push(hex_digit(b % 16));
        proof {
            let all = hex_text(bytes@);
            assert(all[2 * i] == hex_char(b as int / 16));
            assert(all[2 * i + 1] == hex_char(b as int % 16));
            assert(all.take(2 * i + 2) =~= all.take(2 * i).push(all[2 * i]).push(all[2 * i + 1]));
        }
        i = i + 1;
    }
    assert(hex_text(bytes@).take(2 * i) =~= hex_text(bytes@));
    out
}

/// The bytes of the first `n` texts, one after another.
pub open spec fn bytes_of_texts(texts: Seq<Seq<char>>, n: int) -> Seq<u8>
    decreases n,
{
    if n <= 0 {
        Seq::empty()
    } else {
        bytes_of_texts(texts, n - 1) + encode_utf8(texts[n - 1])
    }
}

/// The bytes of the first `n` keys and their values, one after another.
pub open spec fn bytes_of_entries(
    keys: Seq<Seq<char>>,
    entries: Map<Seq<char>, Seq<char>>,
    n: int,
) -> Seq<u8>
    decreases n,
{
    if n <= 0 {
        Seq::empty()
    } else {
        bytes_of_entries(keys, entries, n - 1) + encode_utf8(keys[n - 1]) + encode_utf8(
            entries[keys[n - 1]],
        )
    }
}

/// The bytes that the id of a memory is made from: content, tier, tags, metadata in the order of
/// its keys, and node.
pub open spec fn identity_of(memory: StoreMemory) -> Seq<u8> {
    let tags = text::texts(memory.tags@);
    let keys = text_map::listing(memory.metadata@.dom());
    let base = encode_utf8(memory.content@) + encode_utf8(memory.tier.word()) + bytes_of_texts(
        tags,
        tags.len() as int,
    ) + bytes_of_entries(keys, text_map::views(memory.metadata@), keys.len() as int);
    match memory.node_id {
        Some(node_id) => base + encode_utf8(node_id@),
        None => base,
    }
}

fn push_bytes(out: &mut Vec<u8>, s: &str)
    ensures
        final(out)@ == old(out)@ + encode_utf8(s@),
{
    let mut bytes = s.as_bytes_vec();
    out.append(&mut bytes);
}

/// The bytes that the id of a memory is made from.
pub fn identity(memory: &StoreMemory) -> (r: Vec<u8>)
    ensures
        r@ == identity_of(*memory),
{
    let mut out: Vec<u8> = Vec::new();
    push_bytes(&mut out, memory.content.as_str());
    assert(out@ =~= encode_utf8(memory.content@));
    push_bytes(&mut out, memory.tier.label());
    let ghost head = out@;
    let ghost tags = text::texts(memory.tags@);
    let mut i: usize = 0;
    assert(head + bytes_of_texts(tags, 0) =~= head);
    while i < memory.tags.len()
        invariant
            tags == text::texts(memory.tags@),
            i <= memory.tags@.len(),
            out@ == head + bytes_of_texts(tags, i as int),
        decreases memory.tags@.len() - i,
    {
        assert(tags[i as int] == memory.tags@[i as int]@);
        push_bytes(&mut out, memory.tags[i].as_str());
        i = i + 1;
        assert(out@ =~= head + bytes_of_texts(tags, i as int));
    }
    let ghost middle = out@;
    let names = memory.metadata.keys();
    let ghost keys = text::texts(names@);
    let ghost entries = text_map::views(memory.metadata@);
    let mut k: usize = 0;
    assert(middle + bytes_of_entries(keys, entries, 0) =~= middle);
    while k < names.len()
        invariant
            keys == text::texts(names@),
            entries == text_map::views(memory.metadata@),
            text_map::lists(keys, memory.metadata@.dom()),
            k <= names@.len(),
            out@ == middle + bytes_of_entries(keys, entries, k as int),
        decreases names@.len() - k,
    {
        proof {
            text_map::lemma_listed(keys, memory.metadata@.dom());
            assert(keys[k as int] == names@[k as int]@);
        }
        push_bytes(&mut out, names[k].as_str());
        match memory.metadata.get(names[k].as_str()) {
            Some(value) => {
                push_bytes(&mut out, value.as_str());
            },
            None => {
                assert(false);
            },
        }
        k = k + 1;
        assert(out@ =~= middle + bytes_of_entries(keys, entries, k as int));
    }
    match &memory.node_id {
        Some(node_id) => {
            push_bytes(&mut out, node_id.as_str());
        },
        None => {},
    }
    out
}

/// The id of a memory: the digest of what identifies it, in hexadecimal.
pub fn stable_id(memory: &StoreMemory) -> (r: String)
    ensures
        r@ == hex_text(sha256_digest(identity_of(*memory))),
        r@.len() == 64,
{
    let bytes = identity(memory);
    let digest = sha256(&bytes);
    to_hex(&digest)
}

/// The node of a memory: its own, else one named after its id.
pub fn node_id_for(node_id: Option<String>, id: &str) -> (r: String)
    ensures
        r@ == (match node_id {
            Some(node_id) => node_id@,
            None => "node:"@ + id@,
        }),
{
    match node_id {
        Some(node_id) => node_id,
        None => {
            let mut out = "node:".to_owned();
            out.append(id);
            out
        },
    }
}

/// The record of a memory that is stored under an id at a time.
pub fn record_for(memory: StoreMemory, id: String, created_at: Timestamp) -> (r: MemoryRecord)
    ensures
        r.id == id,
        r.node_id@ == (match memory.node_id {
            Some(node_id) => node_id@,
            None => "node:"@ + id@,
        }),
        r.content == memory.content,
        r.tags == memory.tags,
        r.metadata == memory.metadata,
        r.tier == memory.tier,
        r.created_at == created_at,
{
    let node_id = node_id_for(memory.node_id, id.as_str());
    MemoryRecord {
        id,
        node_id,
        content: memory.content,
        tags: memory.tags,
        metadata: memory.metadata,
        tier: memory.tier,
        created_at,
    }
}

/// The number of bytes of a character in UTF-8.
pub open spec fn char_width(c: char) -> int {
    let n = c as int;
    if n < 0x80 {
        1
    } else if n < 0x800 {
        2
    } else if n < 0x10000 {
        3
    } else {
        4
    }
}

/// The number of bytes of the first `n` characters in UTF-8.
pub open spec fn byte_len(s: Seq<char>, n: int) -> int
    decreases n,
{
    if n <= 0 {
        0
    } else {
        byte_len(s, n - 1) + char_width(s[n - 1])
    }
}

/// The characters of `s` from byte `from` up to byte `to`.
pub open spec fn is_byte_range(part: Seq<char>, s: Seq<char>, from: int, to: int) -> bool {
    exists|i: int, j: int|
        0 <= i <= j <= s.len() && byte_len(s, i) == from && byte_len(s, j) == to && part
            == #[trigger] s.subrange(i, j)
}

/// A character of `s` begins, or `s` ends, at byte `n`.
pub open spec fn is_cut(s: Seq<char>, n: int) -> bool {
    exists|i: int| 0 <= i <= s.len() && #[trigger] byte_len(s, i) == n
}

/// The hexadecimal digits that the id of a point is made from: those of the memory, filled up with
/// zeros to 32 characters when they have fewer than 32 bytes.
pub open spec fn point_hex(memory_id: Seq<char>) -> Seq<char> {
    if byte_len(memory_id, memory_id.len() as int) >= 32 {
        memory_id
    } else {
        text::padded_right(memory_id, 32, '0')
    }
}

/// `id` is made of the first 32 bytes of `hex` in groups of 8, 4, 4, 4 and 12.
pub open spec fn is_point_id(id: Seq<char>, hex: Seq<char>) -> bool {
    exists|a: Seq<char>, b: Seq<char>, c: Seq<char>, d: Seq<char>, e: Seq<char>|
        is_byte_range(a, hex, 0, 8) && is_byte_range(b, hex, 8, 12) && is_byte_range(c, hex, 12, 16)
            && is_byte_range(d, hex, 16, 20) && is_byte_range(e, hex, 20, 32) && id
            == #[trigger] grouped(a, b, c, d, e)
}

/// Groups with dashes between them.
pub open spec fn grouped(
    a: Seq<char>,
    b: Seq<char>,
    c: Seq<char>,
    d: Seq<char>,
    e: Seq<char>,
) -> Seq<char> {
    a + "-"@ + b + "-"@ + c + "-"@ + d + "-"@ + e
}

fn width_of(c: char) -> (r: usize)
    ensures
        r == char_width(c),
        1 <= r <= 4,
{
    let n: u32 = text::code_point(c);
    if n < 0x80 {
        1
    } else if n < 0x800 {
        2
    } else if n < 0x10000 {
        3
    } else {
        4
    }
}

proof fn lemma_byte_len_grows(s: Seq<char>, m: int, n: int)
    requires
        0 <= m <= n,
    ensures
        byte_len(s, m) + (n - m) <= byte_len(s, n),
    decreases n - m,
{
    if m < n {
        lemma_byte_len_grows(s, m, n - 1);
    }
}

/// The number of characters before byte `n`, where a character begins.
fn cut_at(cs: &Vec<char>, n: usize) -> (r: usize)
    requires
        is_cut(cs@, n as int),
    ensures
        r <= cs@.len(),
        byte_len(cs@, r as int) == n,
{
    let ghost k = choose|k: int| 0 <= k <= cs@.len() && #[trigger] byte_len(cs@, k) == n;
    let len = cs.len();
    let mut i: usize = 0;
    let mut bytes: usize = 0;
    while bytes < n
        invariant
            0 <= k <= cs@.len(),
            len == cs@.len(),
            byte_len(cs@, k) == n,
            i <= k,
            bytes == byte_len(cs@, i as int),
        decreases k - i,
    {
        proof {
            lemma_byte_len_grows(cs@, i as int, k);
            assert(i < k);
            lemma_byte_len_grows(cs@, i + 1, k);
        }
        bytes = bytes + width_of(cs[i]);
        i = i + 1;
    }
    proof {
        lemma_byte_len_grows(cs@, i as int, k);
    }
    i
}

/// Whether the text has at least 32 bytes in UTF-8.
fn has_32_bytes(cs: &Vec<char>) -> (r: bool)
    ensures
        r == (byte_len(cs@, cs@.len() as int) >= 32),
{
    let mut i: usize = 0;
    let mut bytes: usize = 0;
    while i < cs.len()
        invariant
            i <= cs@.len(),
            bytes == byte_len(cs@, i as int),
            bytes < 32,
        decreases cs@.len() - i,
    {
        bytes = bytes + width_of(cs[i]);
        i = i + 1;
        if bytes >= 32 {
            proof {
                lemma_byte_len_grows(cs@, i as int, cs@.len() as int);
            }
            return true;
        }
    }
    false
}

/// Whether a character begins, or the text ends, at byte `n`.
fn has_cut(cs: &Vec<char>, n: usize) -> (r: bool)
    requires
        n <= 32,
    ensures
        r == is_cut(cs@, n as int),
{
    let mut i: usize = 0;
    let mut bytes: usize = 0;
    assert(byte_len(cs@, 0) == 0);
    while i < cs.len() && bytes < n
        invariant
            n <= 32,
            i <= cs@.len(),
            bytes == byte_len(cs@, i as int),
            bytes <= n + 3,
            i > 0 ==> byte_len(cs@, i - 1) < n,
        decreases cs@.len() - i,
    {
        bytes = bytes + width_of(cs[i]);
        i = i + 1;
    }
    proof {
        if is_cut(cs@, n as int) {
            let k = choose|k: int| 0 <= k <= cs@.len() && #[trigger] byte_len(cs@, k) == n;
            if k < i {
                lemma_byte_len_grows(cs@, k, i - 1);
            } else {
                lemma_byte_len_grows(cs@, i as int, k);
            }
        }
    }
    bytes == n
}

/// A memory has a point: its id can be cut into the groups of a UUID.
pub open spec fn has_groups(memory_id: Seq<char>) -> bool {
    let hex = point_hex(memory_id);
    is_cut(hex, 8) && is_cut(hex, 12) && is_cut(hex, 16) && is_cut(hex, 20) && is_cut(hex, 32)
}

fn hex_of(memory_id: &str) -> (r: String)
    ensures
        r@ == point_hex(memory_id@),
{
    let chars = text::to_chars(memory_id);
    if has_32_bytes(&chars) {
        memory_id.to_owned()
    } else {
        text::pad_right(memory_id, 32, '0')
    }
}

/// Whether a memory has a point.
pub fn has_point(memory_id: &str) -> (r: bool)
    ensures
        r == has_groups(memory_id@),
{
    let hex = hex_of(memory_id);
    let cs = text::to_chars(hex.as_str());
    has_cut(&cs, 8) && has_cut(&cs, 12) && has_cut(&cs, 16) && has_cut(&cs, 20) && has_cut(&cs, 32)
}

/// The id of a point for a memory: its hexadecimal digits in the groups of a UUID. The groups must
/// not cut a character in two.
pub fn point_id(memory_id: &str) -> (r: String)
    requires
        has_groups(memory_id@),
    ensures
        is_point_id(r@, point_hex(memory_id@)),
{
    let hex = hex_of(memory_id);
    let cs = text::to_chars(hex.as_str());
    let c8 = cut_at(&cs, 8);
    let c12 = cut_at(&cs, 12);
    let c16 = cut_at(&cs, 16);
    let c20 = cut_at(&cs, 20);
    let c32 = cut_at(&cs, 32);
    proof {
        lemma_cut_order(cs@, c8 as int, c12 as int);
        lemma_cut_order(cs@, c12 as int, c16 as int);
        lemma_cut_order(cs@, c16 as int, c20 as int);
        lemma_cut_order(cs@, c20 as int, c32 as int);
    }
    let a = text::string_of(&cs, 0, c8);
    let b = text::string_of(&cs, c8, c12);
    let c = text::string_of(&cs, c12, c16);
    let d = text::string_of(&cs, c16, c20);
    let e = text::string_of(&cs, c20, c32);
    let mut out = a.clone();
    out.append("-");
    out.append(b.as_str());
    out.append("-");
    out.append(c.as_str());
    out.append("-");
    out.append(d.as_str());
    out.append("-");
    out.append(e.as_str());
    proof {
        let s = point_hex(memory_id@);
        assert(byte_len(s, 0) == 0);
        assert(is_byte_range(a@, s, 0, 8));
        assert(is_byte_range(b@, s, 8, 12));
        assert(is_byte_range(c@, s, 12, 16));
        assert(is_byte_range(d@, s, 16, 20));
        assert(is_byte_range(e@, s, 20, 32));
        assert(out@ == grouped(a@, b@, c@, d@, e@));
    }
    out
}

proof fn lemma_cut_order(s: Seq<char>, i: int, j: int)
    requires
        0 <= i <= s.len(),
        0 <= j <= s.len(),
        byte_len(s, i) < byte_len(s, j),
    ensures
        i < j,
{
    if j <= i {
        lemma_byte_len_grows(s, j, i);
    }
}

/// Every id in ASCII has a point.
pub proof fn law_ascii_ids_have_points(memory_id: Seq<char>)
    requires
        forall|i: int| 0 <= i < memory_id.len() ==> (#[trigger] memory_id[i]) as int <= 0x7f,
    ensures
        has_groups(memory_id),
{
    let hex = point_hex(memory_id);
    lemma_ascii_len(memory_id, memory_id.len() as int);
    assert forall|i: int| 0 <= i < hex.len() implies (#[trigger] hex[i]) as int <= 0x7f by {
        if i < memory_id.len() {
            assert(hex[i] == memory_id[i]);
        }
    }
    assert(hex.len() >= 32);
    assert forall|n: int| 0 <= n <= 32 implies #[trigger] is_cut(hex, n) by {
        lemma_ascii_len(hex, n);
        assert(byte_len(hex, n) == n);
    }
}

/// Every stored memory has a point.
pub proof fn law_stored_ids_have_points(digest: Seq<u8>)
    ensures
        has_groups(hex_text(digest)),
{
    let id = hex_text(digest);
    assert forall|i: int| 0 <= i < id.len() implies (#[trigger] id[i]) as int <= 0x7f by {
        assert(0 <= digest[i / 2] as int / 16 < 16);
        assert(0 <= digest[i / 2] as int % 16 < 16);
    }
    law_ascii_ids_have_points(id);
}

proof fn lemma_ascii_len(s: Seq<char>, n: int)
    requires
        0 <= n <= s.len(),
        forall|i: int| 0 <= i < s.len() ==> (#[trigger] s[i]) as int <= 0x7f,
    ensures
        byte_len(s, n) == n,
    decreases n,
{
    if n > 0 {
        lemma_ascii_len(s, n - 1);
        assert(s[n - 1] as int <= 0x7f);
    }
}

/// A byte is written by two digits, the upper half first: the text tells the bytes apart, and is made
/// of digits and letters from `a` to `f` alone.
pub proof fn law_hex_tells_bytes_apart(a: Seq<u8>, b: Seq<u8>, i: int)
    ensures
        hex_text(a).len() == 2 * a.len(),
        0 <= i < a.len() ==> hex_value(hex_text(a)[2 * i]) * 16 + hex_value(hex_text(a)[2 * i + 1])
            == a[i],
        hex_text(a) == hex_text(b) ==> a == b,
        0 <= i < hex_text(a).len() ==> {
            ||| '0' as int <= hex_text(a)[i] as int <= '9' as int
            ||| 'a' as int <= hex_text(a)[i] as int <= 'f' as int
        },
{
    if 0 <= i < a.len() {
        lemma_hex_byte(a, i);
    }
    if 0 <= i < hex_text(a).len() {
        let byte = a[i / 2] as int;
        assert(0 <= byte / 16 < 16 && 0 <= byte % 16 < 16);
    }
    if hex_text(a) == hex_text(b) {
        assert(hex_text(a).len() == hex_text(b).len());
        assert forall|k: int| 0 <= k < a.len() implies a[k] == b[k] by {
            lemma_hex_byte(a, k);
            lemma_hex_byte(b, k);
        }
        assert(a =~= b);
    }
}

/// The number that a hexadecimal digit stands for.
pub open spec fn hex_value(c: char) -> int {
    if c as int <= '9' as int {
        c as int - '0' as int
    } else {
        c as int - 'a' as int + 10
    }
}

proof fn lemma_hex_byte(a: Seq<u8>, i: int)
    requires
        0 <= i < a.len(),
    ensures
        hex_value(hex_text(a)[2 * i]) == a[i] as int / 16,
        hex_value(hex_text(a)[2 * i + 1]) == a[i] as int % 16,
        hex_value(hex_text(a)[2 * i]) * 16 + hex_value(hex_text(a)[2 * i + 1]) == a[i],
{
    let byte = a[i] as int;
    assert((2 * i) % 2 == 0 && (2 * i) / 2 == i);
    assert((2 * i + 1) % 2 == 1 && (2 * i + 1) / 2 == i);
    assert(hex_text(a)[2 * i] == hex_char(byte / 16));
    assert(hex_text(a)[2 * i + 1] == hex_char(byte % 16));
    assert(0 <= byte / 16 < 16 && 0 <= byte % 16 < 16);
}

spec fn tag_bytes(memory: StoreMemory) -> Seq<u8> {
    let tags = text::texts(memory.tags@);
    bytes_of_texts(tags, tags.len() as int)
}

spec fn data_bytes(memory: StoreMemory) -> Seq<u8> {
    let keys = text_map::listing(memory.metadata@.dom());
    bytes_of_entries(keys, text_map::views(memory.metadata@), keys.len() as int)
}

spec fn node_bytes(node: Option<Seq<char>>) -> Seq<u8> {
    match node {
        Some(node) => encode_utf8(node),
        None => Seq::empty(),
    }
}

proof fn lemma_identity_parts(memory: StoreMemory)
    ensures
        identity_of(memory) == encode_utf8(memory.content@) + encode_utf8(memory.tier.word())
            + tag_bytes(memory) + data_bytes(memory) + node_bytes(text::text_opt(memory.node_id)),
{
    let base = encode_utf8(memory.content@) + encode_utf8(memory.tier.word()) + tag_bytes(memory)
        + data_bytes(memory);
    assert(base + Seq::<u8>::empty() =~= base);
}

/// The id of a memory rests on its content: memories that differ in nothing else are made from
/// different bytes, and those that do not differ from the same.
pub proof fn law_identity_tells_contents_apart(a: StoreMemory, b: StoreMemory)
    requires
        a.tier == b.tier,
        text::texts(a.tags@) == text::texts(b.tags@),
        a.metadata@ == b.metadata@,
        text::text_opt(a.node_id) == text::text_opt(b.node_id),
    ensures
        identity_of(a) == identity_of(b) <==> a.content@ == b.content@,
{
    lemma_identity_parts(a);
    lemma_identity_parts(b);
    let (ca, cb) = (encode_utf8(a.content@), encode_utf8(b.content@));
    let rest = encode_utf8(a.tier.word()) + tag_bytes(a) + data_bytes(a) + node_bytes(
        text::text_opt(a.node_id),
    );
    assert(identity_of(a) =~= ca + rest);
    assert(identity_of(b) =~= cb + rest);
    if identity_of(a) == identity_of(b) {
        assert(ca.len() == cb.len());
        assert(ca =~= (ca + rest).take(ca.len() as int));
        assert(cb =~= (cb + rest).take(cb.len() as int));
        lemma_encoding_injective(a.content@, b.content@);
    }
}

/// The id of a memory rests on its tier: memories that differ in nothing else are made from
/// different bytes.
pub proof fn law_identity_tells_tiers_apart(a: StoreMemory, b: StoreMemory)
    requires
        a.content@ == b.content@,
        a.tier != b.tier,
        text::texts(a.tags@) == text::texts(b.tags@),
        a.metadata@ == b.metadata@,
        text::text_opt(a.node_id) == text::text_opt(b.node_id),
    ensures
        identity_of(a) != identity_of(b),
{
    lemma_identity_parts(a);
    lemma_identity_parts(b);
    lemma_tier_lengths();
    assert(identity_of(a).len() != identity_of(b).len());
}

/// The id of a memory rests on its node: memories that differ in nothing else are made from
/// different bytes.
pub proof fn law_identity_tells_nodes_apart(a: StoreMemory, b: StoreMemory)
    requires
        a.content@ == b.content@,
        a.tier == b.tier,
        text::texts(a.tags@) == text::texts(b.tags@),
        a.metadata@ == b.metadata@,
        a.node_id is Some,
        b.node_id is Some,
    ensures
        identity_of(a) == identity_of(b) <==> a.node_id->0@ == b.node_id->0@,
{
    lemma_identity_parts(a);
    lemma_identity_parts(b);
    let front = encode_utf8(a.content@) + encode_utf8(a.tier.word()) + tag_bytes(a) + data_bytes(a);
    let (na, nb) = (encode_utf8(a.node_id->0@), encode_utf8(b.node_id->0@));
    assert(identity_of(a) == front + na);
    assert(identity_of(b) == front + nb);
    if identity_of(a) == identity_of(b) {
        assert(na =~= (front + na).skip(front.len() as int));
        assert(nb =~= (front + nb).skip(front.len() as int));
        lemma_encoding_injective(a.node_id->0@, b.node_id->0@);
    }
}

/// The id of a memory rests on its tags: one more makes other bytes.
pub proof fn law_identity_tells_tags_apart(a: StoreMemory, b: StoreMemory)
    requires
        a.content@ == b.content@,
        a.tier == b.tier,
        a.metadata@ == b.metadata@,
        text::text_opt(a.node_id) == text::text_opt(b.node_id),
        b.tags@.len() > 0,
        b.tags@.last()@.len() > 0,
        text::texts(a.tags@) == text::texts(b.tags@).drop_last(),
    ensures
        identity_of(a) != identity_of(b),
{
    lemma_identity_parts(a);
    lemma_identity_parts(b);
    let (ga, gb) = (text::texts(a.tags@), text::texts(b.tags@));
    lemma_texts_prefix(ga, gb, ga.len() as int);
    assert(gb.last() == b.tags@.last()@);
    lemma_encoding_not_empty(gb.last());
    assert(tag_bytes(b).len() == tag_bytes(a).len() + encode_utf8(gb.last()).len());
    assert(identity_of(a).len() < identity_of(b).len());
}

/// The id of a memory rests on its metadata: with some it is made from other bytes than without.
pub proof fn law_identity_tells_metadata_apart(a: StoreMemory, b: StoreMemory, key: Seq<char>)
    requires
        a.content@ == b.content@,
        a.tier == b.tier,
        text::texts(a.tags@) == text::texts(b.tags@),
        text::text_opt(a.node_id) == text::text_opt(b.node_id),
        a.metadata@ == Map::<Seq<char>, String>::empty(),
        b.metadata@.dom().finite(),
        b.metadata@.dom().contains(key),
        key.len() > 0,
    ensures
        identity_of(a) != identity_of(b),
{
    lemma_identity_parts(a);
    lemma_identity_parts(b);
    let (ka, kb) = (
        text_map::listing(a.metadata@.dom()),
        text_map::listing(b.metadata@.dom()),
    );
    text_map::lemma_listing_exists(b.metadata@.dom());
    text_map::lemma_listed(kb, b.metadata@.dom());
    let i = choose|i: int| 0 <= i < kb.len() && kb[i] == key;
    lemma_encoding_not_empty(key);
    lemma_entry_bytes(kb, text_map::views(b.metadata@), kb.len() as int, i);
    text_map::lemma_listing_exists(a.metadata@.dom());
    text_map::lemma_listed(ka, a.metadata@.dom());
    if ka.len() > 0 {
        assert(a.metadata@.dom().contains(ka[0]));
    }
    assert(data_bytes(a).len() == 0);
    assert(data_bytes(b).len() > 0);
    assert(tag_bytes(a) == tag_bytes(b));
    assert(identity_of(a).len() < identity_of(b).len());
}

proof fn lemma_encoding_injective(a: Seq<char>, b: Seq<char>)
    requires
        encode_utf8(a) == encode_utf8(b),
    ensures
        a == b,
{
    vstd::utf8::encode_utf8_decode_utf8(a);
    vstd::utf8::encode_utf8_decode_utf8(b);
}

proof fn lemma_encoding_not_empty(s: Seq<char>)
    requires
        s.len() > 0,
    ensures
        encode_utf8(s).len() > 0,
{
    if encode_utf8(s).len() == 0 {
        let nothing = Seq::<char>::empty();
        assert(encode_utf8(nothing) =~= encode_utf8(s));
        lemma_encoding_injective(nothing, s);
    }
}

proof fn lemma_tier_lengths()
    ensures
        encode_utf8("L0Raw"@).len() == 5,
        encode_utf8("L1Atom"@).len() == 6,
{
    reveal_strlit("L0Raw");
    reveal_strlit("L1Atom");
    assert(vstd::utf8::is_ascii_chars("L0Raw"@));
    assert(vstd::utf8::is_ascii_chars("L1Atom"@));
    vstd::utf8::is_ascii_chars_encode_utf8("L0Raw"@);
    vstd::utf8::is_ascii_chars_encode_utf8("L1Atom"@);
}

proof fn lemma_texts_prefix(a: Seq<Seq<char>>, b: Seq<Seq<char>>, n: int)
    requires
        n <= a.len(),
        n <= b.len(),
        forall|i: int| 0 <= i < n ==> #[trigger] a[i] == b[i],
    ensures
        bytes_of_texts(a, n) == bytes_of_texts(b, n),
    decreases n,
{
    if n > 0 {
        lemma_texts_prefix(a, b, n - 1);
        assert(a[n - 1] == b[n - 1]);
    }
}

proof fn lemma_entry_bytes(
    keys: Seq<Seq<char>>,
    entries: Map<Seq<char>, Seq<char>>,
    n: int,
    i: int,
)
    requires
        0 <= i < n <= keys.len(),
    ensures
        bytes_of_entries(keys, entries, n).len() >= encode_utf8(keys[i]).len(),
    decreases n,
{
    if i < n - 1 {
        lemma_entry_bytes(keys, entries, n - 1, i);
    }
}

/// The point of a memory whose id is in ASCII is the first 32 characters of the id in groups of 8, 4,
/// 4, 4 and 12 with dashes between them; a shorter id is filled up with zeros.
pub proof fn law_points_are_grouped_ids(memory_id: Seq<char>, id: Seq<char>)
    requires
        forall|i: int| 0 <= i < memory_id.len() ==> (#[trigger] memory_id[i]) as int <= 0x7f,
        is_point_id(id, point_hex(memory_id)),
    ensures
        ({
            let hex = memory_id + Seq::new(32, |i: int| '0');
            id == hex.subrange(0, 8) + "-"@ + hex.subrange(8, 12) + "-"@ + hex.subrange(12, 16)
                + "-"@ + hex.subrange(16, 20) + "-"@ + hex.subrange(20, 32)
        }),
{
    let hex = point_hex(memory_id);
    let long = memory_id + Seq::new(32, |i: int| '0');
    lemma_ascii_len(memory_id, memory_id.len() as int);
    assert forall|i: int| 0 <= i < hex.len() implies (#[trigger] hex[i]) as int <= 0x7f by {
        if i < memory_id.len() {
            assert(hex[i] == memory_id[i]);
        }
    }
    assert(hex.len() >= 32);
    assert forall|i: int| 0 <= i < 32 implies hex[i] == long[i] by {}
    let (a, b, c, d, e) = choose|
        a: Seq<char>,
        b: Seq<char>,
        c: Seq<char>,
        d: Seq<char>,
        e: Seq<char>,
    |
        is_byte_range(a, hex, 0, 8) && is_byte_range(b, hex, 8, 12) && is_byte_range(c, hex, 12, 16)
            && is_byte_range(d, hex, 16, 20) && is_byte_range(e, hex, 20, 32) && id
            == #[trigger] grouped(a, b, c, d, e);
    lemma_ascii_range(a, hex, 0, 8);
    lemma_ascii_range(b, hex, 8, 12);
    lemma_ascii_range(c, hex, 12, 16);
    lemma_ascii_range(d, hex, 16, 20);
    lemma_ascii_range(e, hex, 20, 32);
    assert(a =~= long.subrange(0, 8));
    assert(b =~= long.subrange(8, 12));
    assert(c =~= long.subrange(12, 16));
    assert(d =~= long.subrange(16, 20));
    assert(e =~= long.subrange(20, 32));
}

proof fn lemma_ascii_range(part: Seq<char>, s: Seq<char>, from: int, to: int)
    requires
        forall|i: int| 0 <= i < s.len() ==> (#[trigger] s[i]) as int <= 0x7f,
        is_byte_range(part, s, from, to),
    ensures
        0 <= from <= to <= s.len(),
        part == s.subrange(from, to),
{
    let (i, j) = choose|i: int, j: int|
        0 <= i <= j <= s.len() && byte_len(s, i) == from && byte_len(s, j) == to && part
            == #[trigger] s.subrange(i, j);
    lemma_ascii_len(s, i);
    lemma_ascii_len(s, j);
}

/// An id of 32 bytes or more is used as it is; a shorter one keeps all of its characters and gets only
/// zeros behind them.
pub proof fn law_short_ids_get_zeros(memory_id: Seq<char>, i: int)
    ensures
        byte_len(memory_id, memory_id.len() as int) >= 32 ==> point_hex(memory_id) == memory_id,
        byte_len(memory_id, memory_id.len() as int) < 32 ==> {
            let hex = point_hex(memory_id);
            &&& hex.len() >= 32
            &&& hex.take(memory_id.len() as int) == memory_id
            &&& memory_id.len() <= i < hex.len() ==> hex[i] == '0'
        },
{
    assert(point_hex(memory_id).take(memory_id.len() as int) =~= memory_id);
}

} // verus!
