//! Text as a sequence of characters: the scanning, trimming, splitting and number forms that the
//! rest of the library is stated in.
//!
//! Every operation has a specification over `Seq<char>`; the executable form works on a vector
//! of characters and is proved against it.

use vstd::prelude::*;

verus! {

/// `String::push` of the standard library appends one character to the end of the string.
pub assume_specification[ String::push ](s: &mut String, c: char)
    ensures
        final(s)@ == old(s)@.push(c),
;

// ---------------------------------------------------------------------------------------------
// Conversions
// ---------------------------------------------------------------------------------------------

/// The texts of a sequence of strings.
pub open spec fn texts(strings: Seq<String>) -> Seq<Seq<char>> {
    Seq::new(strings.len(), |i: int| strings[i]@)
}

/// The text of an optional string.
pub open spec fn text_opt(s: Option<String>) -> Option<Seq<char>> {
    match s {
        Some(s) => Some(s@),
        None => None,
    }
}

/// The text of an optional string slice.
pub open spec fn str_opt(s: Option<&str>) -> Option<Seq<char>> {
    match s {
        Some(s) => Some(s@),
        None => None,
    }
}

/// The characters of `s` as a vector.
pub fn to_chars(s: &str) -> (r: Vec<char>)
    ensures
        r@ == s@,
{
    let mut out: Vec<char> = Vec::new();
    for c in it: s.chars()
        invariant
            out@ == s@.take(it.index() as int),
            it.seq() == s@,
    {
        proof {
            assert(s@.take(it.index() + 1) =~= s@.take(it.index() as int).push(s@[it.index() as int]));
        }
        out.push(c);
    }
    assert(s@.take(s@.len() as int) =~= s@);
    out
}

/// The string made of the characters of `cs` from `from` up to `to`.
pub fn string_of(cs: &Vec<char>, from: usize, to: usize) -> (r: String)
    requires
        from <= to <= cs@.len(),
    ensures
        r@ == cs@.subrange(from as int, to as int),
{
    let mut out = String::new();
    let mut i: usize = from;
    while i < to
        invariant
            from <= i <= to <= cs@.len(),
            out@ == cs@.subrange(from as int, i as int),
        decreases to - i,
    {
        out.push(cs[i]);
        i = i + 1;
        assert(cs@.subrange(from as int, i as int) =~= cs@.subrange(from as int, i - 1).push(
            cs@[i - 1],
        ));
    }
    out
}

/// Whether two strings hold the same text.
pub fn same_text(a: &str, b: &str) -> (r: bool)
    ensures
        r == (a@ == b@),
{
    a.to_owned() == b.to_owned()
}

/// A copy of a list of strings.
pub fn copy_strings(list: &Vec<String>) -> (r: Vec<String>)
    ensures
        r@ == list@,
        texts(r@) == texts(list@),
{
    let mut out: Vec<String> = Vec::new();
    for i in 0..list.len()
        invariant
            out@ == list@.take(i as int),
    {
        out.push(list[i].clone());
        assert(list@.take(i + 1) =~= list@.take(i as int).push(list@[i as int]));
    }
    assert(list@.take(list@.len() as int) =~= list@);
    out
}

/// A copy of an optional string.
pub fn copy_opt(s: &Option<String>) -> (r: Option<String>)
    ensures
        r == *s,
{
    match s {
        Some(s) => Some(s.clone()),
        None => None,
    }
}

/// Appending one string to a list appends its text.
pub proof fn lemma_texts_push(list: Seq<String>, s: String)
    ensures
        texts(list.push(s)) == texts(list).push(s@),
{
    assert(texts(list.push(s)) =~= texts(list).push(s@));
}

/// The same list of texts exactly when the strings agree one by one.
pub fn same_texts(a: &Vec<String>, b: &Vec<String>) -> (r: bool)
    ensures
        r == (texts(a@) == texts(b@)),
{
    if a.len() != b.len() {
        assert(texts(a@).len() != texts(b@).len());
        return false;
    }
    let mut i: usize = 0;
    while i < a.len()
        invariant
            i <= a.len() == b.len(),
            forall|j: int| 0 <= j < i ==> a@[j]@ == b@[j]@,
        decreases a.len() - i,
    {
        if a[i] != b[i] {
            assert(texts(a@)[i as int] != texts(b@)[i as int]);
            return false;
        }
        i = i + 1;
    }
    assert(texts(a@) =~= texts(b@));
    true
}

// ---------------------------------------------------------------------------------------------
// Character classes
// ---------------------------------------------------------------------------------------------

/// The code point of `c`.
pub fn code_point(c: char) -> (r: u32)
    ensures
        r as int == c as int,
{
    c as u32
}

/// The characters with the Unicode `White_Space` property.
pub open spec fn is_space(c: char) -> bool {
    let n = c as int;
    ||| 0x9 <= n <= 0xd
    ||| n == 0x20
    ||| n == 0x85
    ||| n == 0xa0
    ||| n == 0x1680
    ||| 0x2000 <= n <= 0x200a
    ||| n == 0x2028
    ||| n == 0x2029
    ||| n == 0x202f
    ||| n == 0x205f
    ||| n == 0x3000
}

/// Whether `c` has the Unicode `White_Space` property.
pub fn is_whitespace(c: char) -> (r: bool)
    ensures
        r == is_space(c),
{
    let n: u32 = c as u32;
    (0x9 <= n && n <= 0xd) || n == 0x20 || n == 0x85 || n == 0xa0 || n == 0x1680 || (0x2000 <= n
        && n <= 0x200a) || n == 0x2028 || n == 0x2029 || n == 0x202f || n == 0x205f || n == 0x3000
}

/// ASCII letters and digits.
pub open spec fn is_ascii_word(c: char) -> bool {
    let n = c as int;
    ||| 0x30 <= n <= 0x39
    ||| 0x41 <= n <= 0x5a
    ||| 0x61 <= n <= 0x7a
}

/// Whether `c` is an ASCII letter or digit.
pub fn is_ascii_alphanumeric(c: char) -> (r: bool)
    ensures
        r == is_ascii_word(c),
{
    let n: u32 = c as u32;
    (0x30 <= n && n <= 0x39) || (0x41 <= n && n <= 0x5a) || (0x61 <= n && n <= 0x7a)
}

/// `c` with ASCII upper case turned into lower case.
pub open spec fn lower_char(c: char) -> char {
    if 0x41 <= c as int <= 0x5a {
        ((c as int) + 0x20) as char
    } else {
        c
    }
}

/// `c` with ASCII upper case turned into lower case.
pub fn to_lower_char(c: char) -> (r: char)
    ensures
        r == lower_char(c),
{
    let n: u32 = c as u32;
    if 0x41 <= n && n <= 0x5a {
        (n as u8 + 0x20u8) as char
    } else {
        c
    }
}

/// `c` with ASCII lower case turned into upper case.
pub open spec fn upper_char(c: char) -> char {
    if 0x61 <= c as int <= 0x7a {
        ((c as int) - 0x20) as char
    } else {
        c
    }
}

/// `s` with its first character in ASCII upper case.
pub open spec fn capitalized(s: Seq<char>) -> Seq<char> {
    Seq::new(
        s.len(),
        |i: int|
            if i == 0 {
                upper_char(s[i])
            } else {
                s[i]
            },
    )
}

/// `s` with its first character in ASCII upper case.
pub fn capitalize(s: &str) -> (r: String)
    ensures
        r@ == capitalized(s@),
{
    let cs = to_chars(s);
    if cs.len() == 0 {
        let r = String::new();
        assert(r@ =~= capitalized(s@));
        return r;
    }
    let n: u32 = cs[0] as u32;
    let mut out = String::new();
    out.push(
        if 0x61 <= n && n <= 0x7a {
            (n as u8 - 0x20u8) as char
        } else {
            cs[0]
        },
    );
    let rest = string_of(&cs, 1, cs.len());
    out.append(rest.as_str());
    assert(out@ =~= capitalized(s@));
    out
}

/// `s` with ASCII upper case turned into lower case, character by character.
pub open spec fn lowered(s: Seq<char>) -> Seq<char> {
    Seq::new(s.len(), |i: int| lower_char(s[i]))
}

/// `s` with ASCII upper case turned into lower case.
pub fn to_ascii_lowercase(s: &str) -> (r: String)
    ensures
        r@ == lowered(s@),
{
    let cs = to_chars(s);
    let mut out = String::new();
    for i in 0..cs.len()
        invariant
            cs@ == s@,
            out@ == lowered(s@).take(i as int),
    {
        out.push(to_lower_char(cs[i]));
        assert(lowered(s@).take(i + 1) =~= lowered(s@).take(i as int).push(lower_char(s@[i as int])));
    }
    assert(lowered(s@).take(s@.len() as int) =~= lowered(s@));
    out
}

/// A set of characters that trimming removes.
#[derive(Clone, Copy)]
pub enum CharClass {
    /// Every white-space character.
    Space,
    /// One given character.
    Only(char),
}

impl CharClass {
    /// Whether the class holds `c`.
    pub open spec fn has(self, c: char) -> bool {
        match self {
            CharClass::Space => is_space(c),
            CharClass::Only(d) => c == d,
        }
    }

    /// Whether the class holds `c`.
    pub fn holds(self, c: char) -> (r: bool)
        ensures
            r == self.has(c),
    {
        match self {
            CharClass::Space => is_whitespace(c),
            CharClass::Only(d) => c == d,
        }
    }
}

// ---------------------------------------------------------------------------------------------
// Trimming
// ---------------------------------------------------------------------------------------------

/// `s` without the leading characters of `class`.
pub open spec fn trim_start(s: Seq<char>, class: CharClass) -> Seq<char>
    decreases s.len(),
{
    if s.len() > 0 && class.has(s[0]) {
        trim_start(s.drop_first(), class)
    } else {
        s
    }
}

/// `s` without the trailing characters of `class`.
pub open spec fn trim_end(s: Seq<char>, class: CharClass) -> Seq<char>
    decreases s.len(),
{
    if s.len() > 0 && class.has(s.last()) {
        trim_end(s.drop_last(), class)
    } else {
        s
    }
}

/// `s` without the leading and trailing characters of `class`.
pub open spec fn trimmed(s: Seq<char>, class: CharClass) -> Seq<char> {
    trim_end(trim_start(s, class), class)
}

/// `s` without surrounding white space.
pub open spec fn bare(s: Seq<char>) -> Seq<char> {
    trimmed(s, CharClass::Space)
}

/// Where the text of `cs` begins and ends once the characters of `class` are trimmed.
pub fn trim_bounds(cs: &Vec<char>, class: CharClass) -> (r: (usize, usize))
    ensures
        r.0 <= r.1 <= cs@.len(),
        cs@.subrange(r.0 as int, r.1 as int) == trimmed(cs@, class),
        cs@.skip(r.0 as int) == trim_start(cs@, class),
{
    let mut start: usize = 0;
    assert(cs@.skip(0) =~= cs@);
    while start < cs.len() && class.holds(cs[start])
        invariant
            start <= cs@.len(),
            trim_start(cs@.skip(start as int), class) == trim_start(cs@, class),
        decreases cs@.len() - start,
    {
        assert(cs@.skip(start as int).drop_first() =~= cs@.skip(start + 1));
        start = start + 1;
    }
    let mut end: usize = cs.len();
    let ghost from = cs@.skip(start as int);
    assert(cs@.subrange(start as int, end as int) =~= from);
    while start < end && class.holds(cs[end - 1])
        invariant
            start <= end <= cs@.len(),
            trim_end(cs@.subrange(start as int, end as int), class) == trim_end(from, class),
        decreases end - start,
    {
        assert(cs@.subrange(start as int, end as int).drop_last() =~= cs@.subrange(
            start as int,
            end - 1,
        ));
        end = end - 1;
    }
    (start, end)
}

/// The part of `s` left when the characters of `class` are trimmed from both ends.
pub fn trim_class(s: &str, class: CharClass) -> (r: String)
    ensures
        r@ == trimmed(s@, class),
{
    let cs = to_chars(s);
    let (from, to) = trim_bounds(&cs, class);
    string_of(&cs, from, to)
}

/// `s` without surrounding white space.
pub fn trim(s: &str) -> (r: String)
    ensures
        r@ == bare(s@),
{
    trim_class(s, CharClass::Space)
}

/// What trimming the start leaves is a suffix.
pub proof fn lemma_trim_start_suffix(s: Seq<char>, class: CharClass)
    ensures
        trim_start(s, class).len() <= s.len(),
        trim_start(s, class) == s.skip(s.len() - trim_start(s, class).len()),
    decreases s.len(),
{
    if s.len() > 0 && class.has(s[0]) {
        lemma_trim_start_suffix(s.drop_first(), class);
        let t = trim_start(s, class);
        assert(s.drop_first().skip(s.len() - 1 - t.len()) =~= s.skip(s.len() - t.len()));
    } else {
        assert(s.skip(0) =~= s);
    }
}

/// What trimming the start leaves does not begin with a character of the class.
pub proof fn lemma_trim_start_head(s: Seq<char>, class: CharClass)
    ensures
        trim_start(s, class).len() > 0 ==> !class.has(trim_start(s, class)[0]),
    decreases s.len(),
{
    if s.len() > 0 && class.has(s[0]) {
        lemma_trim_start_head(s.drop_first(), class);
    }
}

/// Trimming the end keeps a beginning that does not end in a character of the class.
pub proof fn lemma_trim_end_prefix(s: Seq<char>, class: CharClass)
    ensures
        trim_end(s, class).len() <= s.len(),
        trim_end(s, class) == s.take(trim_end(s, class).len() as int),
        trim_end(s, class).len() > 0 ==> !class.has(trim_end(s, class).last()),
    decreases s.len(),
{
    if s.len() > 0 && class.has(s.last()) {
        lemma_trim_end_prefix(s.drop_last(), class);
        let t = trim_end(s, class);
        assert(s.drop_last().take(t.len() as int) =~= s.take(t.len() as int));
    } else {
        assert(s.take(s.len() as int) =~= s);
    }
}

/// Trimming keeps a part of the text that neither begins nor ends in a character of the class.
pub proof fn lemma_trimmed_part(s: Seq<char>, class: CharClass)
    ensures
        ({
            let part = trimmed(s, class);
            let from = s.len() - trim_start(s, class).len();
            &&& 0 <= from && from + part.len() <= s.len()
            &&& part == s.subrange(from, from + part.len())
            &&& part.len() > 0 ==> !class.has(part[0]) && !class.has(part.last())
        }),
{
    let tail = trim_start(s, class);
    let part = trimmed(s, class);
    let from = s.len() - tail.len();
    lemma_trim_start_suffix(s, class);
    lemma_trim_start_head(s, class);
    lemma_trim_end_prefix(tail, class);
    assert(tail.take(part.len() as int) =~= s.subrange(from, from + part.len()));
}

/// A text that neither begins nor ends in a character of the class is trimmed already.
pub proof fn lemma_trimmed_stays(s: Seq<char>, class: CharClass)
    requires
        s.len() > 0 ==> !class.has(s[0]) && !class.has(s.last()),
    ensures
        trimmed(s, class) == s,
{
}

// ---------------------------------------------------------------------------------------------
// Splitting
// ---------------------------------------------------------------------------------------------

/// The number of leading characters of `s` outside `class`.
pub open spec fn span_outside(s: Seq<char>, class: CharClass) -> int
    decreases s.len(),
{
    if s.len() > 0 && !class.has(s[0]) {
        1 + span_outside(s.drop_first(), class)
    } else {
        0
    }
}

/// A run outside the class is no longer than the text.
pub proof fn lemma_span_bound(s: Seq<char>, class: CharClass)
    ensures
        0 <= span_outside(s, class) <= s.len(),
        forall|i: int| 0 <= i < span_outside(s, class) ==> !class.has(s[i]),
        span_outside(s, class) < s.len() ==> class.has(s[span_outside(s, class)]),
    decreases s.len(),
{
    if s.len() > 0 && !class.has(s[0]) {
        let t = s.drop_first();
        lemma_span_bound(t, class);
        assert forall|i: int| 0 <= i < span_outside(s, class) implies !class.has(s[i]) by {
            if i > 0 {
                assert(t[i - 1] == s[i]);
            }
        }
        if span_outside(s, class) < s.len() {
            assert(t[span_outside(t, class)] == s[span_outside(s, class)]);
        }
    }
}

/// The position of the first character of `class` at or after `from`, or the length.
pub fn find_class(cs: &Vec<char>, from: usize, class: CharClass) -> (r: usize)
    requires
        from <= cs@.len(),
    ensures
        from <= r <= cs@.len(),
        r - from == span_outside(cs@.skip(from as int), class),
{
    let mut i: usize = from;
    while i < cs.len() && !class.holds(cs[i])
        invariant
            from <= i <= cs@.len(),
            span_outside(cs@.skip(from as int), class) == (i - from) + span_outside(
                cs@.skip(i as int),
                class,
            ),
        decreases cs@.len() - i,
    {
        assert(cs@.skip(i as int).drop_first() =~= cs@.skip(i + 1));
        i = i + 1;
    }
    i
}

/// The white-space separated words of `s`.
pub open spec fn words(s: Seq<char>) -> Seq<Seq<char>>
    decreases s.len(),
    via words_decreases
{
    let t = trim_start(s, CharClass::Space);
    if t.len() == 0 {
        Seq::empty()
    } else {
        let n = span_outside(t, CharClass::Space);
        seq![t.take(n)] + words(t.skip(n))
    }
}

#[via_fn]
proof fn words_decreases(s: Seq<char>) {
    lemma_trim_start_suffix(s, CharClass::Space);
    lemma_trim_start_head(s, CharClass::Space);
    lemma_span_bound(trim_start(s, CharClass::Space), CharClass::Space);
}

/// Something is a word: it is not empty and holds no white space.
pub open spec fn is_word(s: Seq<char>) -> bool {
    &&& s.len() > 0
    &&& forall|i: int| 0 <= i < s.len() ==> !is_space(#[trigger] s[i])
}

/// The words of a text are words.
pub proof fn lemma_words_are_words(s: Seq<char>)
    ensures
        forall|i: int| 0 <= i < words(s).len() ==> is_word(#[trigger] words(s)[i]),
    decreases s.len(),
{
    let t = trim_start(s, CharClass::Space);
    lemma_trim_start_suffix(s, CharClass::Space);
    lemma_trim_start_head(s, CharClass::Space);
    lemma_span_bound(t, CharClass::Space);
    if t.len() > 0 {
        let n = span_outside(t, CharClass::Space);
        lemma_words_are_words(t.skip(n));
        assert forall|i: int| 0 <= i < words(s).len() implies is_word(#[trigger] words(s)[i]) by {
            if i == 0 {
                assert forall|j: int| 0 <= j < n implies !is_space(#[trigger] t.take(n)[j]) by {
                    assert(!CharClass::Space.has(t[j]));
                }
            } else {
                assert(words(s)[i] == words(t.skip(n))[i - 1]);
            }
        }
    }
}

/// A word that stands before white space, or alone, is the first word.
pub proof fn lemma_first_word(word: Seq<char>, rest: Seq<char>)
    requires
        is_word(word),
        rest.len() > 0 ==> is_space(rest[0]),
    ensures
        words(word + rest) == seq![word] + words(rest),
{
    let s = word + rest;
    assert(s[0] == word[0]);
    assert(!CharClass::Space.has(s[0]));
    assert(trim_start(s, CharClass::Space) == s);
    let n = span_outside(s, CharClass::Space);
    lemma_span_bound(s, CharClass::Space);
    if n < word.len() {
        assert(s[n] == word[n]);
    }
    if n > word.len() {
        assert(s[word.len() as int] == rest[0]);
        assert(!CharClass::Space.has(s[word.len() as int]));
    }
    assert(s.take(n) =~= word);
    assert(s.skip(n) =~= rest);
}

/// Joining takes the first part off at the front as well as the last at the end.
pub proof fn lemma_joined_front(parts: Seq<Seq<char>>, sep: Seq<char>)
    requires
        parts.len() >= 2,
    ensures
        joined(parts, sep) == parts[0] + sep + joined(parts.drop_first(), sep),
    decreases parts.len(),
{
    let front = parts.drop_last();
    let back = parts.drop_first();
    if parts.len() == 2 {
        assert(joined(front, sep) == parts[0]);
        assert(joined(back, sep) == parts[1]);
    } else {
        lemma_joined_front(front, sep);
        assert(front.drop_first() =~= back.drop_last());
        assert(joined(parts, sep) =~= parts[0] + sep + joined(back, sep));
    }
}

/// Words that are joined by blanks are the words of what they are joined to.
pub proof fn lemma_joined_words(parts: Seq<Seq<char>>)
    requires
        forall|i: int| 0 <= i < parts.len() ==> is_word(#[trigger] parts[i]),
    ensures
        words(joined(parts, " "@)) == parts,
    decreases parts.len(),
{
    reveal_strlit(" ");
    if parts.len() == 0 {
        assert(words(Seq::empty()) =~= parts);
    } else if parts.len() == 1 {
        lemma_first_word(parts[0], Seq::empty());
        assert(parts[0] + Seq::empty() =~= parts[0]);
        assert(words(Seq::<char>::empty()) =~= Seq::empty());
        assert(words(parts[0]) =~= parts);
    } else {
        let back = parts.drop_first();
        let tail = joined(back, " "@);
        lemma_joined_front(parts, " "@);
        assert(parts[0] + " "@ + tail =~= parts[0] + (" "@ + tail));
        assert((" "@ + tail)[0] == ' ');
        lemma_first_word(parts[0], " "@ + tail);
        assert((" "@ + tail).drop_first() =~= tail);
        assert(trim_start(" "@ + tail, CharClass::Space) == trim_start(tail, CharClass::Space));
        assert(words(" "@ + tail) == words(tail));
        assert forall|i: int| 0 <= i < back.len() implies is_word(#[trigger] back[i]) by {
            assert(back[i] == parts[i + 1]);
        }
        lemma_joined_words(back);
        assert(seq![parts[0]] + back =~= parts);
    }
}

/// The white-space separated words of `s`.
pub fn split_whitespace(s: &str) -> (r: Vec<String>)
    ensures
        texts(r@) == words(s@),
{
    let cs = to_chars(s);
    let mut out: Vec<String> = Vec::new();
    let mut i: usize = 0;
    assert(cs@.skip(0) =~= cs@);
    assert(texts(out@) + words(cs@.skip(0)) =~= words(s@));
    loop
        invariant
            cs@ == s@,
            i <= cs@.len(),
            texts(out@) + words(cs@.skip(i as int)) == words(s@),
        decreases cs@.len() - i,
    {
        let ghost rest = cs@.skip(i as int);
        let ghost t = trim_start(rest, CharClass::Space);
        proof {
            lemma_trim_start_suffix(rest, CharClass::Space);
        }
        let mut j: usize = i;
        while j < cs.len() && is_whitespace(cs[j])
            invariant
                i <= j <= cs@.len(),
                trim_start(cs@.skip(j as int), CharClass::Space) == t,
            decreases cs@.len() - j,
        {
            assert(cs@.skip(j as int).drop_first() =~= cs@.skip(j + 1));
            j = j + 1;
        }
        assert(t == cs@.skip(j as int));
        if j == cs.len() {
            assert(texts(out@) + Seq::<Seq<char>>::empty() =~= texts(out@));
            return out;
        }
        let k = find_class(&cs, j, CharClass::Space);
        proof {
            lemma_span_bound(t, CharClass::Space);
            assert(t.take(k - j) =~= cs@.subrange(j as int, k as int));
            assert(t.skip(k - j) =~= cs@.skip(k as int));
            let w = t.take(k - j);
            assert(texts(out@) + (seq![w] + words(cs@.skip(k as int))) =~= texts(out@).push(w)
                + words(cs@.skip(k as int)));
        }
        let ghost before = out@;
        let word = string_of(&cs, j, k);
        proof {
            lemma_texts_push(before, word);
        }
        out.push(word);
        i = k;
    }
}

/// The pieces of `s` between the occurrences of `sep`: one more piece than there are separators.
pub open spec fn pieces(s: Seq<char>, sep: char) -> Seq<Seq<char>>
    decreases s.len(),
{
    let n = span_outside(s, CharClass::Only(sep));
    if n >= s.len() {
        seq![s]
    } else {
        proof {
            lemma_span_bound(s, CharClass::Only(sep));
        }
        seq![s.take(n)] + pieces(s.skip(n + 1), sep)
    }
}

/// The pieces of `s` between the occurrences of `sep`.
pub fn split_char(s: &str, sep: char) -> (r: Vec<String>)
    ensures
        texts(r@) == pieces(s@, sep),
        r@.len() > 0,
{
    let cs = to_chars(s);
    let mut out: Vec<String> = Vec::new();
    let mut i: usize = 0;
    assert(cs@.skip(0) =~= cs@);
    assert(texts(out@) + pieces(cs@.skip(0), sep) =~= pieces(s@, sep));
    loop
        invariant
            cs@ == s@,
            i <= cs@.len(),
            texts(out@) + pieces(cs@.skip(i as int), sep) == pieces(s@, sep),
        decreases cs@.len() - i,
    {
        let ghost rest = cs@.skip(i as int);
        let k = find_class(&cs, i, CharClass::Only(sep));
        let ghost before = out@;
        let piece = string_of(&cs, i, k);
        proof {
            lemma_span_bound(rest, CharClass::Only(sep));
            lemma_texts_push(before, piece);
            assert(rest.take(k - i) =~= cs@.subrange(i as int, k as int));
        }
        out.push(piece);
        if k == cs.len() {
            assert(rest =~= cs@.subrange(i as int, k as int));
            assert(texts(before) + seq![rest] =~= texts(before).push(rest));
            return out;
        }
        proof {
            assert(rest.skip(k - i + 1) =~= cs@.skip(k + 1));
            let tail = pieces(cs@.skip(k + 1), sep);
            assert(texts(before) + (seq![piece@] + tail) =~= texts(before).push(piece@) + tail);
        }
        i = k + 1;
    }
}

/// `s` without one trailing carriage return.
pub open spec fn without_cr(s: Seq<char>) -> Seq<char> {
    if s.len() > 0 && s.last() == '\r' {
        s.drop_last()
    } else {
        s
    }
}

/// The lines of `s`: each ends at a line feed, which it does not hold, nor a carriage return
/// right before it. A last line without a line feed counts when it is not empty.
pub open spec fn lines_of(s: Seq<char>) -> Seq<Seq<char>>
    decreases s.len(),
    via lines_decreases
{
    if s.len() == 0 {
        Seq::empty()
    } else {
        let n = span_outside(s, CharClass::Only('\n'));
        if n >= s.len() {
            seq![s]
        } else {
            seq![without_cr(s.take(n))] + lines_of(s.skip(n + 1))
        }
    }
}

#[via_fn]
proof fn lines_decreases(s: Seq<char>) {
    lemma_span_bound(s, CharClass::Only('\n'));
}

/// The lines of `s`, without their line ends.
pub fn lines(s: &str) -> (r: Vec<String>)
    ensures
        texts(r@) == lines_of(s@),
{
    let cs = to_chars(s);
    let mut out: Vec<String> = Vec::new();
    let mut i: usize = 0;
    assert(cs@.skip(0) =~= cs@);
    assert(texts(out@) + lines_of(cs@.skip(0)) =~= lines_of(s@));
    while i < cs.len()
        invariant
            cs@ == s@,
            i <= cs@.len(),
            texts(out@) + lines_of(cs@.skip(i as int)) == lines_of(s@),
        decreases cs@.len() - i,
    {
        let ghost rest = cs@.skip(i as int);
        let k = find_class(&cs, i, CharClass::Only('\n'));
        let ghost before = out@;
        proof {
            lemma_span_bound(rest, CharClass::Only('\n'));
            assert(rest.take(k - i) =~= cs@.subrange(i as int, k as int));
        }
        if k == cs.len() {
            let line = string_of(&cs, i, k);
            proof {
                lemma_texts_push(before, line);
                assert(rest =~= cs@.subrange(i as int, k as int));
                assert(texts(before) + seq![rest] =~= texts(before).push(rest));
            }
            out.push(line);
            return out;
        }
        let to: usize = if k > i && cs[k - 1] == '\r' {
            k - 1
        } else {
            k
        };
        let line = string_of(&cs, i, to);
        proof {
            assert(without_cr(rest.take(k - i)) =~= cs@.subrange(i as int, to as int));
            lemma_texts_push(before, line);
            assert(rest.skip(k - i + 1) =~= cs@.skip(k + 1));
            let tail = lines_of(cs@.skip(k + 1));
            assert(texts(before) + (seq![line@] + tail) =~= texts(before).push(line@) + tail);
        }
        out.push(line);
        i = k + 1;
    }
    assert(cs@.skip(i as int) =~= Seq::<char>::empty());
    assert(texts(out@) + Seq::<Seq<char>>::empty() =~= texts(out@));
    out
}

// ---------------------------------------------------------------------------------------------
// Searching
// ---------------------------------------------------------------------------------------------

/// `needle` stands in `hay` at position `i`.
pub open spec fn occurs_at(hay: Seq<char>, needle: Seq<char>, i: int) -> bool {
    0 <= i && i + needle.len() <= hay.len() && hay.subrange(i, i + needle.len()) == needle
}

/// `needle` stands somewhere in `hay`.
pub open spec fn has_text(hay: Seq<char>, needle: Seq<char>) -> bool {
    exists|i: int| occurs_at(hay, needle, i)
}

/// `s` begins with `prefix`.
pub open spec fn begins_with(s: Seq<char>, prefix: Seq<char>) -> bool {
    occurs_at(s, prefix, 0)
}

/// `s` ends with `suffix`.
pub open spec fn finishes_with(s: Seq<char>, suffix: Seq<char>) -> bool {
    occurs_at(s, suffix, s.len() - suffix.len())
}

/// The first position at or after `i` where `needle` stands in `hay`.
pub open spec fn first_from(hay: Seq<char>, needle: Seq<char>, i: int) -> Option<int>
    decreases hay.len() - i + 1,
{
    if i + needle.len() > hay.len() {
        None
    } else if occurs_at(hay, needle, i) {
        Some(i)
    } else {
        first_from(hay, needle, i + 1)
    }
}

/// The first position where `needle` stands in `hay`.
pub open spec fn first_of(hay: Seq<char>, needle: Seq<char>) -> Option<int> {
    first_from(hay, needle, 0)
}

/// A search from `i` finds the least position at or after `i`, and finds one if there is one.
pub proof fn lemma_first_from(hay: Seq<char>, needle: Seq<char>, i: int)
    requires
        0 <= i,
    ensures
        match first_from(hay, needle, i) {
            Some(k) => i <= k && occurs_at(hay, needle, k) && (forall|j: int|
                i <= j < k ==> !occurs_at(hay, needle, j)),
            None => forall|j: int| i <= j ==> !occurs_at(hay, needle, j),
        },
    decreases hay.len() - i + 1,
{
    if i + needle.len() <= hay.len() && !occurs_at(hay, needle, i) {
        lemma_first_from(hay, needle, i + 1);
    }
}

/// Whether `needle` stands in `hay` at `i`.
pub fn matches_at(hay: &Vec<char>, needle: &Vec<char>, i: usize) -> (r: bool)
    requires
        i <= hay@.len(),
    ensures
        r == occurs_at(hay@, needle@, i as int),
{
    if needle.len() > hay.len() - i {
        return false;
    }
    let mut k: usize = 0;
    while k < needle.len()
        invariant
            i + needle@.len() <= hay@.len() <= usize::MAX,
            k <= needle@.len(),
            forall|j: int| 0 <= j < k ==> hay@[i + j] == needle@[j],
        decreases needle@.len() - k,
    {
        if hay[i + k] != needle[k] {
            proof {
                let sub = hay@.subrange(i as int, i + needle@.len());
                assert(sub[k as int] == hay@[i + k]);
            }
            return false;
        }
        k = k + 1;
    }
    assert(hay@.subrange(i as int, i + needle@.len()) =~= needle@);
    true
}

/// The first position at or after `from` where `needle` stands in `hay`.
pub fn find_from(hay: &Vec<char>, needle: &Vec<char>, from: usize) -> (r: Option<usize>)
    requires
        from <= hay@.len(),
    ensures
        match r {
            Some(k) => first_from(hay@, needle@, from as int) == Some(k as int),
            None => first_from(hay@, needle@, from as int) is None,
        },
        r is Some ==> r->0 + needle@.len() <= hay@.len(),
{
    let mut i: usize = from;
    while needle.len() <= hay.len() - i
        invariant
            from <= i <= hay@.len(),
            first_from(hay@, needle@, from as int) == first_from(hay@, needle@, i as int),
        decreases hay@.len() - i,
    {
        if matches_at(hay, needle, i) {
            return Some(i);
        }
        if i == hay.len() {
            assert(first_from(hay@, needle@, i + 1) is None);
            return None;
        }
        i = i + 1;
    }
    None
}

/// The first position, counted in characters, where `needle` stands in `hay`.
pub fn find(hay: &str, needle: &str) -> (r: Option<usize>)
    ensures
        match r {
            Some(k) => first_of(hay@, needle@) == Some(k as int),
            None => first_of(hay@, needle@) is None,
        },
        r is Some ==> r->0 + needle@.len() <= hay@.len(),
{
    find_from(&to_chars(hay), &to_chars(needle), 0)
}

/// Whether `needle` stands somewhere in `hay`.
pub fn contains(hay: &str, needle: &str) -> (r: bool)
    ensures
        r == has_text(hay@, needle@),
{
    proof {
        lemma_first_from(hay@, needle@, 0);
    }
    find(hay, needle).is_some()
}

/// Whether `s` begins with `prefix`.
pub fn starts_with(s: &str, prefix: &str) -> (r: bool)
    ensures
        r == begins_with(s@, prefix@),
{
    matches_at(&to_chars(s), &to_chars(prefix), 0)
}

/// What follows `prefix` in `s`, when `s` begins with it.
pub fn strip_prefix(s: &str, prefix: &str) -> (r: Option<String>)
    ensures
        text_opt(r) == (if begins_with(s@, prefix@) {
            Some(s@.skip(prefix@.len() as int))
        } else {
            None
        }),
{
    let cs = to_chars(s);
    let head = to_chars(prefix);
    if matches_at(&cs, &head, 0) {
        let rest = string_of(&cs, head.len(), cs.len());
        assert(cs@.subrange(head@.len() as int, cs@.len() as int) =~= s@.skip(
            prefix@.len() as int,
        ));
        Some(rest)
    } else {
        None
    }
}

/// What stands before `suffix` in `s`, when `s` ends with it.
pub fn strip_suffix(s: &str, suffix: &str) -> (r: Option<String>)
    ensures
        text_opt(r) == (if finishes_with(s@, suffix@) {
            Some(s@.take(s@.len() - suffix@.len()))
        } else {
            None
        }),
{
    let cs = to_chars(s);
    let tail = to_chars(suffix);
    if tail.len() <= cs.len() && matches_at(&cs, &tail, cs.len() - tail.len()) {
        let rest = string_of(&cs, 0, cs.len() - tail.len());
        assert(cs@.subrange(0, cs@.len() - tail@.len()) =~= s@.take(s@.len() - suffix@.len()));
        Some(rest)
    } else {
        None
    }
}

/// The number of occurrences of `needle`, which is not empty, in `s` counted from the left without
/// overlap.
pub open spec fn count_of(s: Seq<char>, needle: Seq<char>) -> nat
    recommends
        needle.len() > 0,
    decreases s.len(),
{
    if needle.len() == 0 {
        0
    } else if s.len() < needle.len() {
        0
    } else if begins_with(s, needle) {
        1 + count_of(s.skip(needle.len() as int), needle)
    } else {
        count_of(s.drop_first(), needle)
    }
}

/// The number of occurrences of `needle` in `s`, from the left and without overlap.
pub fn count_matches(s: &str, needle: &str) -> (r: usize)
    requires
        needle@.len() > 0,
    ensures
        r == count_of(s@, needle@),
{
    let cs = to_chars(s);
    let pat = to_chars(needle);
    let mut i: usize = 0;
    let mut n: usize = 0;
    assert(cs@.skip(0) =~= cs@);
    while pat.len() <= cs.len() - i
        invariant
            cs@ == s@,
            pat@ == needle@,
            pat@.len() > 0,
            i <= cs@.len(),
            n <= i,
            n + count_of(cs@.skip(i as int), pat@) == count_of(s@, needle@),
        decreases cs@.len() - i,
    {
        let ghost rest = cs@.skip(i as int);
        proof {
            if occurs_at(cs@, pat@, i as int) {
                assert(rest.subrange(0, pat@.len() as int) =~= cs@.subrange(
                    i as int,
                    i + pat@.len(),
                ));
                assert(rest.skip(pat@.len() as int) =~= cs@.skip(i + pat@.len()));
            } else if begins_with(rest, pat@) {
                assert(rest.subrange(0, pat@.len() as int) =~= cs@.subrange(
                    i as int,
                    i + pat@.len(),
                ));
            }
            assert(rest.drop_first() =~= cs@.skip(i + 1));
        }
        if matches_at(&cs, &pat, i) {
            n = n + 1;
            i = i + pat.len();
        } else {
            i = i + 1;
        }
    }
    n
}

/// `s` with every occurrence of `from`, taken from the left without overlap, replaced by `to`.
pub open spec fn replaced(s: Seq<char>, from: Seq<char>, to: Seq<char>) -> Seq<char>
    decreases s.len(),
{
    if from.len() == 0 || s.len() < from.len() {
        s
    } else if begins_with(s, from) {
        to + replaced(s.skip(from.len() as int), from, to)
    } else {
        seq![s[0]] + replaced(s.drop_first(), from, to)
    }
}

/// `s` with every occurrence of `from` replaced by `to`.
pub fn replace(s: &str, from: &str, to: &str) -> (r: String)
    requires
        from@.len() > 0,
    ensures
        r@ == replaced(s@, from@, to@),
{
    let cs = to_chars(s);
    let pat = to_chars(from);
    let mut out = String::new();
    let mut i: usize = 0;
    assert(cs@.skip(0) =~= cs@);
    assert(out@ + replaced(cs@.skip(0), pat@, to@) =~= replaced(s@, from@, to@));
    while pat.len() <= cs.len() - i
        invariant
            cs@ == s@,
            pat@ == from@,
            pat@.len() > 0,
            i <= cs@.len(),
            out@ + replaced(cs@.skip(i as int), pat@, to@) == replaced(s@, from@, to@),
        decreases cs@.len() - i,
    {
        let ghost rest = cs@.skip(i as int);
        let ghost before = out@;
        proof {
            assert(rest.subrange(0, pat@.len() as int) =~= cs@.subrange(i as int, i + pat@.len()));
            assert(rest.skip(pat@.len() as int) =~= cs@.skip(i + pat@.len()));
            assert(rest.drop_first() =~= cs@.skip(i + 1));
        }
        if matches_at(&cs, &pat, i) {
            out.append(to);
            i = i + pat.len();
            assert(before + (to@ + replaced(cs@.skip(i as int), pat@, to@)) =~= (before + to@)
                + replaced(cs@.skip(i as int), pat@, to@));
        } else {
            out.push(cs[i]);
            i = i + 1;
            assert(before + (seq![rest[0]] + replaced(cs@.skip(i as int), pat@, to@)) =~= before.push(
                rest[0],
            ) + replaced(cs@.skip(i as int), pat@, to@));
        }
    }
    let tail = string_of(&cs, i, cs.len());
    assert(cs@.subrange(i as int, cs@.len() as int) =~= cs@.skip(i as int));
    out.append(tail.as_str());
    out
}

// ---------------------------------------------------------------------------------------------
// Joining and padding
// ---------------------------------------------------------------------------------------------

/// The parts one after another with `sep` between neighbours.
pub open spec fn joined(parts: Seq<Seq<char>>, sep: Seq<char>) -> Seq<char>
    decreases parts.len(),
{
    if parts.len() == 0 {
        Seq::empty()
    } else if parts.len() == 1 {
        parts[0]
    } else {
        joined(parts.drop_last(), sep) + sep + parts.last()
    }
}

/// The parts one after another with `sep` between neighbours.
pub fn join(parts: &Vec<String>, sep: &str) -> (r: String)
    ensures
        r@ == joined(texts(parts@), sep@),
{
    if parts.len() == 0 {
        return String::new();
    }
    let mut out = parts[0].clone();
    let mut i: usize = 1;
    assert(texts(parts@).take(1).len() == 1);
    while i < parts.len()
        invariant
            1 <= i <= parts@.len(),
            out@ == joined(texts(parts@).take(i as int), sep@),
        decreases parts@.len() - i,
    {
        assert(texts(parts@).take(i + 1).drop_last() =~= texts(parts@).take(i as int));
        out.append(sep);
        out.append(parts[i].as_str());
        i = i + 1;
    }
    assert(texts(parts@).take(i as int) =~= texts(parts@));
    out
}

/// `s` followed by enough copies of `fill` to be `width` characters long.
pub open spec fn padded_right(s: Seq<char>, width: int, fill: char) -> Seq<char> {
    s + Seq::new((if s.len() < width { width - s.len() } else { 0 }) as nat, |i: int| fill)
}

/// `s` after enough copies of `fill` to be `width` characters long.
pub open spec fn padded_left(s: Seq<char>, width: int, fill: char) -> Seq<char> {
    Seq::new((if s.len() < width { width - s.len() } else { 0 }) as nat, |i: int| fill) + s
}

/// `s` padded on the right to `width` characters.
pub fn pad_right(s: &str, width: usize, fill: char) -> (r: String)
    ensures
        r@ == padded_right(s@, width as int, fill),
{
    let mut out = s.to_owned();
    let mut n: usize = to_chars(s).len();
    assert(padded_right(s@, s@.len() as int, fill) =~= s@);
    while n < width
        invariant
            s@.len() <= n,
            n <= width || n == s@.len(),
            out@ == padded_right(s@, n as int, fill),
        decreases width - n,
    {
        out.push(fill);
        n = n + 1;
        assert(padded_right(s@, n as int, fill) =~= padded_right(s@, n - 1, fill).push(fill));
    }
    assert(padded_right(s@, n as int, fill) =~= padded_right(s@, width as int, fill));
    out
}

/// `s` padded on the left to `width` characters.
pub fn pad_left(s: &str, width: usize, fill: char) -> (r: String)
    ensures
        r@ == padded_left(s@, width as int, fill),
{
    let have: usize = to_chars(s).len();
    let need: usize = if have < width {
        width - have
    } else {
        0
    };
    let mut out = String::new();
    let mut n: usize = 0;
    let ghost pad = |k: int| Seq::new(k as nat, |i: int| fill);
    assert(out@ =~= pad(0));
    while n < need
        invariant
            n <= need,
            pad == (|k: int| Seq::new(k as nat, |i: int| fill)),
            out@ == pad(n as int),
        decreases need - n,
    {
        out.push(fill);
        n = n + 1;
        assert(pad(n as int) =~= pad(n - 1).push(fill));
    }
    out.append(s);
    out
}

/// The first `n` characters of `s`, or all of them when there are fewer.
pub open spec fn head(s: Seq<char>, n: int) -> Seq<char> {
    if s.len() <= n {
        s
    } else {
        s.take(n)
    }
}

/// The first `n` characters of `s`, or all of them when there are fewer.
pub fn take_chars(s: &str, n: usize) -> (r: String)
    ensures
        r@ == head(s@, n as int),
{
    let cs = to_chars(s);
    let to: usize = if cs.len() <= n {
        cs.len()
    } else {
        n
    };
    assert(cs@.subrange(0, to as int) =~= head(s@, n as int));
    string_of(&cs, 0, to)
}

// ---------------------------------------------------------------------------------------------
// Numbers
// ---------------------------------------------------------------------------------------------

/// The decimal digit for `d`, which is less than ten.
pub open spec fn digit_char(d: nat) -> char {
    (0x30 + d) as char
}

/// The decimal form of `n`, without leading zeros.
pub open spec fn decimal(n: nat) -> Seq<char>
    decreases n,
{
    if n < 10 {
        seq![digit_char(n)]
    } else {
        decimal(n / 10).push(digit_char(n % 10))
    }
}

/// The decimal form of `n`, with a minus sign when it is negative.
pub open spec fn decimal_int(n: int) -> Seq<char> {
    if n < 0 {
        seq!['-'] + decimal((-n) as nat)
    } else {
        decimal(n as nat)
    }
}

/// The decimal form of `n`.
pub fn decimal_u128(n: u128) -> (r: String)
    ensures
        r@ == decimal(n as nat),
    decreases n,
{
    if n < 10 {
        let mut out = String::new();
        out.push((0x30u8 + n as u8) as char);
        assert(out@ =~= decimal(n as nat));
        out
    } else {
        let mut out = decimal_u128(n / 10);
        out.push((0x30u8 + (n % 10) as u8) as char);
        out
    }
}

/// The decimal form of `n`.
pub fn decimal_u64(n: u64) -> (r: String)
    ensures
        r@ == decimal(n as nat),
{
    decimal_u128(n as u128)
}

/// The decimal form of `n`.
pub fn decimal_i64(n: i64) -> (r: String)
    ensures
        r@ == decimal_int(n as int),
{
    if n < 0 {
        let mut out = String::new();
        out.push('-');
        let magnitude: u64 = (-(n as i128)) as u64;
        let digits = decimal_u64(magnitude);
        out.append(digits.as_str());
        assert(out@ =~= decimal_int(n as int));
        out
    } else {
        decimal_u64(n as u64)
    }
}

/// `c` is a decimal digit.
pub open spec fn is_digit(c: char) -> bool {
    0x30 <= c as int <= 0x39
}

/// Every character of a decimal form is a digit, and there is at least one.
pub proof fn lemma_decimal_digits(n: nat)
    ensures
        decimal(n).len() > 0,
        forall|i: int| 0 <= i < decimal(n).len() ==> is_digit(#[trigger] decimal(n)[i]),
    decreases n,
{
    if n >= 10 {
        lemma_decimal_digits(n / 10);
    }
}

/// Two numbers with the same decimal form are equal.
pub proof fn lemma_decimal_injective(a: nat, b: nat)
    requires
        decimal(a) == decimal(b),
    ensures
        a == b,
    decreases a + b,
{
    let da = decimal(a);
    let db = decimal(b);
    lemma_decimal_digits(a / 10);
    lemma_decimal_digits(b / 10);
    assert(da.last() == db.last());
    assert(digit_char(a % 10) as int == 0x30 + a % 10);
    assert(digit_char(b % 10) as int == 0x30 + b % 10);
    if a < 10 {
        if b >= 10 {
            assert(db.len() == decimal(b / 10).len() + 1);
            assert(da.len() == 1);
        } else {
            assert(da[0] == db[0]);
            assert(digit_char(a) as int == 0x30 + a);
            assert(digit_char(b) as int == 0x30 + b);
        }
    } else if b < 10 {
        assert(da.len() == decimal(a / 10).len() + 1);
        assert(db.len() == 1);
    } else {
        assert(da.drop_last() =~= decimal(a / 10));
        assert(db.drop_last() =~= decimal(b / 10));
        lemma_decimal_injective(a / 10, b / 10);
        assert(da.last() == digit_char(a % 10));
        assert(db.last() == digit_char(b % 10));
    }
}

/// The number that a sequence of digits stands for.
pub open spec fn digits_value(s: Seq<char>) -> int
    decreases s.len(),
{
    if s.len() == 0 {
        0
    } else {
        digits_value(s.drop_last()) * 10 + (s.last() as int - 0x30)
    }
}

/// `s` holds nothing but digits, and at least one.
pub open spec fn all_digits(s: Seq<char>) -> bool {
    s.len() > 0 && forall|i: int| 0 <= i < s.len() ==> is_digit(#[trigger] s[i])
}

/// `s` without one leading plus sign.
pub open spec fn without_plus(s: Seq<char>) -> Seq<char> {
    if s.len() > 0 && s[0] == '+' {
        s.drop_first()
    } else {
        s
    }
}

/// The number that `s` stands for as an unsigned decimal up to `max`, with an optional plus sign.
pub open spec fn unsigned_value(s: Seq<char>, max: int) -> Option<int> {
    let t = without_plus(s);
    if all_digits(t) && digits_value(t) <= max {
        Some(digits_value(t))
    } else {
        None
    }
}

/// The number that `s` stands for as a decimal between `min` and `max`, with an optional sign.
pub open spec fn signed_value(s: Seq<char>, min: int, max: int) -> Option<int> {
    if s.len() > 0 && s[0] == '-' {
        let t = s.drop_first();
        if all_digits(t) && -digits_value(t) >= min {
            Some(-digits_value(t))
        } else {
            None
        }
    } else {
        unsigned_value(s, max)
    }
}

/// More digits do not make a smaller number.
pub proof fn lemma_digits_monotone(s: Seq<char>, n: int)
    requires
        all_digits(s),
        0 <= n <= s.len(),
    ensures
        0 <= digits_value(s.take(n)) <= digits_value(s),
    decreases s.len() - n,
{
    lemma_digits_nonnegative(s, n);
    if n < s.len() {
        lemma_digits_monotone(s, n + 1);
        assert(s.take(n + 1).drop_last() =~= s.take(n));
        assert(s.take(n + 1).last() == s[n]);
        lemma_digits_nonnegative(s, n);
    } else {
        assert(s.take(n) =~= s);
    }
}

/// Digits stand for a number that is not negative.
pub proof fn lemma_digits_nonnegative(s: Seq<char>, n: int)
    requires
        all_digits(s),
        0 <= n <= s.len(),
    ensures
        0 <= digits_value(s.take(n)),
    decreases n,
{
    if n > 0 {
        lemma_digits_nonnegative(s, n - 1);
        assert(s.take(n).drop_last() =~= s.take(n - 1));
        assert(is_digit(s[n - 1]));
    }
}

/// The decimal form of a number stands for it.
pub proof fn lemma_decimal_value(n: nat)
    ensures
        digits_value(decimal(n)) == n,
    decreases n,
{
    let d = decimal(n);
    if n < 10 {
        assert(d.drop_last() =~= Seq::<char>::empty());
        assert(digits_value(Seq::<char>::empty()) == 0);
        assert(digit_char(n) as int == 0x30 + n);
    } else {
        lemma_decimal_value(n / 10);
        assert(d.drop_last() =~= decimal(n / 10));
        assert(digit_char(n % 10) as int == 0x30 + n % 10);
    }
}

/// Leading zeros do not change the number that digits stand for.
pub proof fn lemma_zeros_value(k: nat, s: Seq<char>)
    ensures
        digits_value(Seq::new(k, |i: int| '0') + s) == digits_value(s),
    decreases k + s.len(),
{
    let zeros = Seq::new(k, |i: int| '0');
    let all = zeros + s;
    if s.len() > 0 {
        assert(all.drop_last() =~= zeros + s.drop_last());
        lemma_zeros_value(k, s.drop_last());
    } else if k > 0 {
        let fewer = Seq::new((k - 1) as nat, |i: int| '0');
        assert(all.drop_last() =~= fewer + s);
        lemma_zeros_value((k - 1) as nat, s);
    } else {
        assert(all =~= s);
    }
}

/// The number up to `max` that the digits of `cs` from `from` on stand for.
fn parse_digits(cs: &Vec<char>, from: usize, max: u64) -> (r: Option<u64>)
    requires
        from <= cs@.len(),
    ensures
        ({
            let t = cs@.skip(from as int);
            match r {
                Some(v) => all_digits(t) && digits_value(t) == v && v <= max,
                None => !(all_digits(t) && digits_value(t) <= max),
            }
        }),
{
    let ghost t = cs@.skip(from as int);
    if from == cs.len() {
        return None;
    }
    let mut i: usize = from;
    while i < cs.len()
        invariant
            from <= i <= cs@.len(),
            t == cs@.skip(from as int),
            forall|j: int| 0 <= j < i - from ==> is_digit(#[trigger] t[j]),
        decreases cs@.len() - i,
    {
        let n: u32 = code_point(cs[i]);
        if n < 0x30 || n > 0x39 {
            assert(!is_digit(t[i - from]));
            return None;
        }
        i = i + 1;
    }
    assert(all_digits(t));
    let mut value: u128 = 0;
    let mut k: usize = from;
    assert(t.take(0) =~= Seq::<char>::empty());
    while k < cs.len()
        invariant
            from <= k <= cs@.len(),
            t == cs@.skip(from as int),
            all_digits(t),
            value <= max,
            value == digits_value(t.take(k - from)),
        decreases cs@.len() - k,
    {
        let c: char = cs[k];
        proof {
            assert(is_digit(t[k - from]));
            assert(t.take(k - from + 1).drop_last() =~= t.take(k - from));
            assert(t.take(k - from + 1).last() == c);
        }
        value = value * 10 + (code_point(c) - 0x30) as u128;
        k = k + 1;
        if value > max as u128 {
            proof {
                lemma_digits_monotone(t, k - from);
            }
            return None;
        }
    }
    assert(t.take(k - from) =~= t);
    Some(value as u64)
}

/// The unsigned 32-bit number that `s` stands for.
pub fn parse_u32(s: &str) -> (r: Option<u32>)
    ensures
        match r {
            Some(v) => unsigned_value(s@, u32::MAX as int) == Some(v as int),
            None => unsigned_value(s@, u32::MAX as int) is None,
        },
{
    let cs = to_chars(s);
    let from: usize = if cs.len() > 0 && cs[0] == '+' {
        1
    } else {
        0
    };
    assert(cs@.skip(from as int) =~= without_plus(s@));
    match parse_digits(&cs, from, 0xffff_ffff) {
        Some(v) => Some(v as u32),
        None => None,
    }
}

/// The number of the size of a pointer that `s` stands for.
pub fn parse_usize(s: &str) -> (r: Option<usize>)
    ensures
        match r {
            Some(v) => unsigned_value(s@, usize::MAX as int) == Some(v as int),
            None => unsigned_value(s@, usize::MAX as int) is None,
        },
{
    let cs = to_chars(s);
    let from: usize = if cs.len() > 0 && cs[0] == '+' {
        1
    } else {
        0
    };
    assert(cs@.skip(from as int) =~= without_plus(s@));
    match parse_digits(&cs, from, usize::MAX as u64) {
        Some(v) => Some(v as usize),
        None => None,
    }
}

/// The signed 32-bit number that `s` stands for.
pub fn parse_i32(s: &str) -> (r: Option<i32>)
    ensures
        match r {
            Some(v) => signed_value(s@, i32::MIN as int, i32::MAX as int) == Some(v as int),
            None => signed_value(s@, i32::MIN as int, i32::MAX as int) is None,
        },
{
    let cs = to_chars(s);
    if cs.len() > 0 && cs[0] == '-' {
        assert(cs@.skip(1) =~= s@.drop_first());
        match parse_digits(&cs, 1, 0x8000_0000) {
            Some(v) => Some((-(v as i64)) as i32),
            None => None,
        }
    } else {
        let from: usize = if cs.len() > 0 && cs[0] == '+' {
            1
        } else {
            0
        };
        assert(cs@.skip(from as int) =~= without_plus(s@));
        match parse_digits(&cs, from, 0x7fff_ffff) {
            Some(v) => Some(v as i32),
            None => None,
        }
    }
}

// ---------------------------------------------------------------------------------------------
// Order
// ---------------------------------------------------------------------------------------------

/// Dictionary order by code point, which is also the order of the UTF-8 bytes.
pub open spec fn precedes(a: Seq<char>, b: Seq<char>) -> bool
    decreases a.len(),
{
    if b.len() == 0 {
        false
    } else if a.len() == 0 {
        true
    } else if a[0] == b[0] {
        precedes(a.drop_first(), b.drop_first())
    } else {
        (a[0] as int) < (b[0] as int)
    }
}

/// Where one text stands relative to another.
#[derive(Clone, Copy, Debug, PartialEq, Eq, Structural)]
pub enum Rank {
    Before,
    Same,
    After,
}

/// No text comes before itself.
pub proof fn lemma_precedes_irreflexive(a: Seq<char>)
    ensures
        !precedes(a, a),
    decreases a.len(),
{
    if a.len() > 0 {
        lemma_precedes_irreflexive(a.drop_first());
    }
}

/// The order is transitive.
pub proof fn lemma_precedes_transitive(a: Seq<char>, b: Seq<char>, c: Seq<char>)
    requires
        precedes(a, b),
        precedes(b, c),
    ensures
        precedes(a, c),
    decreases a.len(),
{
    if a.len() > 0 && a[0] == b[0] && b[0] == c[0] {
        lemma_precedes_transitive(a.drop_first(), b.drop_first(), c.drop_first());
    }
}

/// Of two different texts one comes before the other.
pub proof fn lemma_precedes_total(a: Seq<char>, b: Seq<char>)
    ensures
        precedes(a, b) || a == b || precedes(b, a),
    decreases a.len(),
{
    if a.len() > 0 && b.len() > 0 {
        if a[0] == b[0] {
            lemma_precedes_total(a.drop_first(), b.drop_first());
            if a.drop_first() == b.drop_first() {
                assert(a =~= seq![a[0]] + a.drop_first());
                assert(b =~= seq![b[0]] + b.drop_first());
            }
        }
    } else if a.len() == 0 && b.len() == 0 {
        assert(a =~= b);
    }
}

/// Two texts do not come before each other.
pub proof fn lemma_precedes_asymmetric(a: Seq<char>, b: Seq<char>)
    requires
        precedes(a, b),
    ensures
        !precedes(b, a),
        a != b,
{
    if precedes(b, a) {
        lemma_precedes_transitive(a, b, a);
    }
    lemma_precedes_irreflexive(a);
}

/// Where `a` stands relative to `b` in dictionary order.
pub fn rank(a: &str, b: &str) -> (r: Rank)
    ensures
        match r {
            Rank::Before => precedes(a@, b@) && a@ != b@ && !precedes(b@, a@),
            Rank::Same => a@ == b@,
            Rank::After => precedes(b@, a@) && a@ != b@ && !precedes(a@, b@),
        },
{
    let ac = to_chars(a);
    let bc = to_chars(b);
    let mut i: usize = 0;
    assert(ac@.skip(0) =~= a@);
    assert(bc@.skip(0) =~= b@);
    while i < ac.len() && i < bc.len() && ac[i] == bc[i]
        invariant
            ac@ == a@,
            bc@ == b@,
            i <= ac@.len(),
            i <= bc@.len(),
            forall|j: int| 0 <= j < i ==> a@[j] == b@[j],
            precedes(a@, b@) == precedes(a@.skip(i as int), b@.skip(i as int)),
            precedes(b@, a@) == precedes(b@.skip(i as int), a@.skip(i as int)),
        decreases ac@.len() - i,
    {
        assert(a@.skip(i as int).drop_first() =~= a@.skip(i + 1));
        assert(b@.skip(i as int).drop_first() =~= b@.skip(i + 1));
        i = i + 1;
    }
    if i == ac.len() && i == bc.len() {
        assert(a@ =~= b@);
        return Rank::Same;
    }
    let before: bool = if i == ac.len() {
        true
    } else if i == bc.len() {
        false
    } else {
        code_point(ac[i]) < code_point(bc[i])
    };
    if before {
        assert(precedes(a@, b@));
        proof {
            lemma_precedes_asymmetric(a@, b@);
        }
        Rank::Before
    } else {
        assert(precedes(b@, a@));
        proof {
            lemma_precedes_asymmetric(b@, a@);
        }
        Rank::After
    }
}

/// The texts strictly ascend in dictionary order.
pub open spec fn ascending(list: Seq<Seq<char>>) -> bool {
    forall|i: int, j: int| 0 <= i < j < list.len() ==> precedes(#[trigger] list[i], #[trigger] list[j])
}

} // verus!
