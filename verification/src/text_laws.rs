//! What holds of the work with texts as a whole: how trimming, splitting, searching, counting and
//! writing numbers relate to putting texts together.

use vstd::prelude::*;
use crate::text;
use crate::text::CharClass;

verus! {

// ---------------------------------------------------------------------------------------------
// Trimming
// ---------------------------------------------------------------------------------------------

/// Trimming takes off what stands around a text, and nothing of the text: whatever characters of the
/// class stand before and after it, the text is what is left.
pub proof fn law_trimming_keeps_the_middle(
    before: Seq<char>,
    s: Seq<char>,
    after: Seq<char>,
    class: CharClass,
)
    requires
        forall|i: int| 0 <= i < before.len() ==> class.has(#[trigger] before[i]),
        forall|i: int| 0 <= i < after.len() ==> class.has(#[trigger] after[i]),
        s.len() > 0 ==> !class.has(s[0]) && !class.has(s.last()),
    ensures
        text::trimmed(before + s + after, class) == s,
    decreases before.len() + after.len(),
{
    let all = before + s + after;
    if before.len() > 0 {
        assert(all[0] == before[0]);
        assert(all.drop_first() =~= before.drop_first() + s + after);
        assert forall|i: int| 0 <= i < before.drop_first().len() implies class.has(
            #[trigger] before.drop_first()[i],
        ) by {
            assert(class.has(before[i + 1]));
        }
        law_trimming_keeps_the_middle(before.drop_first(), s, after, class);
    } else if s.len() == 0 {
        lemma_all_trimmed(all, class);
        assert(s =~= Seq::empty());
    } else {
        assert(all =~= s + after);
        assert(all[0] == s[0]);
        lemma_end_trimmed(s, after, class);
    }
}

proof fn lemma_all_trimmed(s: Seq<char>, class: CharClass)
    requires
        forall|i: int| 0 <= i < s.len() ==> class.has(#[trigger] s[i]),
    ensures
        text::trimmed(s, class) == Seq::<char>::empty(),
    decreases s.len(),
{
    if s.len() > 0 {
        assert forall|i: int| 0 <= i < s.drop_first().len() implies class.has(
            #[trigger] s.drop_first()[i],
        ) by {
            assert(class.has(s[i + 1]));
        }
        lemma_all_trimmed(s.drop_first(), class);
    } else {
        assert(s =~= Seq::empty());
    }
}

proof fn lemma_end_trimmed(s: Seq<char>, after: Seq<char>, class: CharClass)
    requires
        forall|i: int| 0 <= i < after.len() ==> class.has(#[trigger] after[i]),
        s.len() > 0,
        !class.has(s.last()),
    ensures
        text::trim_end(s + after, class) == s,
    decreases after.len(),
{
    let all = s + after;
    if after.len() > 0 {
        assert(all.last() == after.last());
        assert(all.drop_last() =~= s + after.drop_last());
        lemma_end_trimmed(s, after.drop_last(), class);
    } else {
        assert(all =~= s);
    }
}

// ---------------------------------------------------------------------------------------------
// Splitting
// ---------------------------------------------------------------------------------------------

/// Words are split at white space and nowhere else: the words of two texts with a white-space
/// character between them are those of the first, then those of the second; a text without white
/// space is its own only word, and nothing has no words.
pub proof fn law_words_split_at_space(a: Seq<char>, c: char, b: Seq<char>)
    requires
        text::is_space(c),
    ensures
        text::words(a + seq![c] + b) == text::words(a) + text::words(b),
        text::words(Seq::empty()) == Seq::<Seq<char>>::empty(),
        text::is_word(a) ==> text::words(a) == seq![a],
    decreases a.len(),
{
    let all = a + seq![c] + b;
    let rest = seq![c] + b;
    assert(rest.drop_first() =~= b);
    assert(text::words(rest) == text::words(b));
    assert(all =~= a + rest);
    assert(text::words(Seq::<char>::empty()) =~= Seq::<Seq<char>>::empty());
    if a.len() == 0 {
        assert(a =~= Seq::empty());
        assert(all =~= rest);
        assert(text::words(a) + text::words(b) =~= text::words(b));
    } else if text::is_space(a[0]) {
        assert(all[0] == a[0]);
        assert(all.drop_first() =~= a.drop_first() + seq![c] + b);
        law_words_split_at_space(a.drop_first(), c, b);
        assert(text::words(all) == text::words(all.drop_first()));
        assert(text::words(a) == text::words(a.drop_first()));
    } else {
        let n = text::span_outside(a, CharClass::Space);
        text::lemma_span_bound(a, CharClass::Space);
        assert(n > 0);
        let word = a.take(n);
        let tail = a.skip(n);
        assert(a =~= word + tail);
        assert forall|i: int| 0 <= i < word.len() implies !text::is_space(#[trigger] word[i]) by {
            assert(!CharClass::Space.has(a[i]));
        }
        if tail.len() > 0 {
            assert(tail[0] == a[n]);
            law_words_split_at_space(tail, c, b);
            text::lemma_first_word(word, tail);
            let more = tail + seq![c] + b;
            assert(more[0] == tail[0]);
            text::lemma_first_word(word, more);
            assert(all =~= word + more);
            assert(text::words(all) =~= text::words(a) + text::words(b));
        } else {
            text::lemma_first_word(word, Seq::empty());
            assert(word + Seq::empty() =~= a);
            assert(word =~= a);
            text::lemma_first_word(a, rest);
            assert(text::words(a) =~= seq![a]);
            assert(text::words(all) =~= text::words(a) + text::words(b));
        }
    }
}

/// The pieces of a text hold no separator, and put together with separators they are the text again.
pub proof fn law_pieces_join_back(s: Seq<char>, sep: char)
    ensures
        text::pieces(s, sep).len() >= 1,
        text::joined(text::pieces(s, sep), seq![sep]) == s,
        forall|i: int|
            0 <= i < text::pieces(s, sep).len() ==> !(#[trigger] text::pieces(s, sep)[i]).contains(
                sep,
            ),
    decreases s.len(),
{
    let class = CharClass::Only(sep);
    let n = text::span_outside(s, class);
    text::lemma_span_bound(s, class);
    let all = text::pieces(s, sep);
    if n >= s.len() {
        assert(all =~= seq![s]);
        assert forall|i: int| 0 <= i < all.len() implies !(#[trigger] all[i]).contains(sep) by {
            assert forall|j: int| 0 <= j < s.len() implies s[j] != sep by {
                assert(!class.has(s[j]));
            }
        }
    } else {
        let first = s.take(n);
        let rest = s.skip(n + 1);
        let more = text::pieces(rest, sep);
        law_pieces_join_back(rest, sep);
        assert(all[0] == first);
        assert(all.drop_first() =~= more);
        text::lemma_joined_front(all, seq![sep]);
        assert(s =~= first + seq![sep] + rest);
        assert forall|i: int| 0 <= i < all.len() implies !(#[trigger] all[i]).contains(sep) by {
            if i == 0 {
                assert forall|j: int| 0 <= j < first.len() implies first[j] != sep by {
                    assert(!class.has(s[j]));
                }
            } else {
                assert(all[i] == more[i - 1]);
            }
        }
    }
}

/// A line ends at a line feed, with or without a carriage return right before it, and the next line
/// begins there; what stands after the last line feed is a line when it is not empty.
pub proof fn law_lines_end_at_line_feeds(a: Seq<char>, b: Seq<char>)
    requires
        !a.contains('\n'),
    ensures
        a.len() > 0 ==> text::lines_of(a) == seq![a],
        text::lines_of(Seq::empty()) == Seq::<Seq<char>>::empty(),
        a.len() == 0 || a.last() != '\r' ==> text::lines_of(a + seq!['\n'] + b) == seq![a]
            + text::lines_of(b),
        text::lines_of(a + seq!['\r', '\n'] + b) == seq![a] + text::lines_of(b),
{
    lemma_line(a);
    lemma_line_before(a, b);
    let c = a.push('\r');
    assert(!c.contains('\n')) by {
        assert forall|j: int| 0 <= j < c.len() implies c[j] != '\n' by {
            if j < a.len() {
                assert(a.contains(a[j]));
            }
        }
    }
    lemma_line_before(c, b);
    assert(c + seq!['\n'] + b =~= a + seq!['\r', '\n'] + b);
    assert(c.drop_last() =~= a);
}

proof fn lemma_line(a: Seq<char>)
    requires
        !a.contains('\n'),
    ensures
        text::span_outside(a, CharClass::Only('\n')) == a.len(),
{
    let class = CharClass::Only('\n');
    text::lemma_span_bound(a, class);
    let n = text::span_outside(a, class);
    if n < a.len() {
        assert(a.contains(a[n]));
    }
}

proof fn lemma_line_before(a: Seq<char>, b: Seq<char>)
    requires
        !a.contains('\n'),
    ensures
        text::lines_of(a + seq!['\n'] + b) == seq![text::without_cr(a)] + text::lines_of(b),
{
    let class = CharClass::Only('\n');
    let all = a + seq!['\n'] + b;
    text::lemma_span_bound(all, class);
    let n = text::span_outside(all, class);
    assert(all[a.len() as int] == '\n');
    if n > a.len() {
        assert(!class.has(all[a.len() as int]));
    }
    if n < a.len() {
        assert(all[n] == a[n]);
        assert(a.contains(a[n]));
    }
    assert(all.take(n) =~= a);
    assert(all.skip(n + 1) =~= b);
}

// ---------------------------------------------------------------------------------------------
// Searching
// ---------------------------------------------------------------------------------------------

/// A text is found wherever it stands in another, at the beginning, at the end or in between, and only
/// there: where it is found, the other text is made of what is before it, of it, and of what is after.
pub proof fn law_text_is_found_where_it_stands(a: Seq<char>, needle: Seq<char>, b: Seq<char>)
    ensures
        text::has_text(a + needle + b, needle),
        text::begins_with(needle + b, needle),
        text::finishes_with(a + needle, needle),
        text::has_text(a, needle) ==> exists|p: Seq<char>, q: Seq<char>|
            #![trigger p + needle + q]
            a == p + needle + q,
        text::begins_with(a, needle) ==> a == needle + a.skip(needle.len() as int),
        text::finishes_with(a, needle) ==> a == a.take(a.len() - needle.len()) + needle,
{
    let all = a + needle + b;
    assert(all.subrange(a.len() as int, a.len() as int + needle.len()) =~= needle);
    assert(text::occurs_at(all, needle, a.len() as int));
    assert((needle + b).subrange(0, needle.len() as int) =~= needle);
    assert((a + needle).subrange(a.len() as int, a.len() as int + needle.len()) =~= needle);
    if text::has_text(a, needle) {
        let i = choose|i: int| text::occurs_at(a, needle, i);
        let p = a.take(i);
        let q = a.skip(i + needle.len());
        assert(a =~= p + needle + q);
    }
    if text::begins_with(a, needle) {
        assert(a =~= a.subrange(0, needle.len() as int) + a.skip(needle.len() as int));
    }
    if text::finishes_with(a, needle) {
        let n = a.len() - needle.len();
        assert(a =~= a.take(n) + a.subrange(n, n + needle.len()));
    }
}

/// Occurrences are counted and replaced from the left, each once: one at the front is counted, and
/// replaced, before those in the rest; a text in which nothing is found counts none and is kept.
pub proof fn law_occurrences_counted_and_replaced(
    needle: Seq<char>,
    b: Seq<char>,
    to: Seq<char>,
)
    requires
        needle.len() > 0,
    ensures
        text::count_of(needle + b, needle) == 1 + text::count_of(b, needle),
        text::replaced(needle + b, needle, to) == to + text::replaced(b, needle, to),
        text::count_of(b, needle) == 0 <==> !text::has_text(b, needle),
        !text::has_text(b, needle) ==> text::replaced(b, needle, to) == b,
    decreases b.len(),
{
    let all = needle + b;
    assert(all.subrange(0, needle.len() as int) =~= needle);
    assert(all.skip(needle.len() as int) =~= b);
    if b.len() < needle.len() {
        assert(!text::has_text(b, needle));
    } else if text::begins_with(b, needle) {
        assert(text::occurs_at(b, needle, 0));
    } else {
        let rest = b.drop_first();
        law_occurrences_counted_and_replaced(needle, rest, to);
        if text::has_text(rest, needle) {
            let i = choose|i: int| text::occurs_at(rest, needle, i);
            assert(b.subrange(i + 1, i + 1 + needle.len()) =~= rest.subrange(i, i + needle.len()));
            assert(text::occurs_at(b, needle, i + 1));
        }
        if text::has_text(b, needle) {
            let i = choose|i: int| text::occurs_at(b, needle, i);
            assert(i > 0);
            assert(b.subrange(i, i + needle.len()) =~= rest.subrange(i - 1, i - 1 + needle.len()));
            assert(text::occurs_at(rest, needle, i - 1));
        }
        assert(seq![b[0]] + rest =~= b);
    }
}

// ---------------------------------------------------------------------------------------------
// Case, width and order
// ---------------------------------------------------------------------------------------------

/// Lower case changes the letters from `A` to `Z`, each to the letter 32 places on, and nothing else:
/// not the length, not the order, not a character that is no such letter. Twice is once.
pub proof fn law_lower_case_changes_letters_only(s: Seq<char>)
    ensures
        text::lowered(s).len() == s.len(),
        forall|i: int|
            0 <= i < s.len() && ('A' as int) <= (#[trigger] s[i]) as int && s[i] as int <= 'Z' as int
                ==> text::lowered(s)[i] as int == s[i] as int + 32,
        forall|i: int|
            0 <= i < s.len() && !(('A' as int) <= (#[trigger] s[i]) as int && s[i] as int
                <= 'Z' as int) ==> text::lowered(s)[i] == s[i],
        text::lowered(text::lowered(s)) == text::lowered(s),
{
    assert(text::lowered(text::lowered(s)) =~= text::lowered(s));
}

/// A padded text has at least the width that was asked for and no more than it needs; the text stands
/// in it whole, at the side away from the fill.
pub proof fn law_padding_fills_to_the_width(s: Seq<char>, width: int, fill: char)
    requires
        0 <= width,
    ensures
        s.len() >= width ==> text::padded_right(s, width, fill) == s && text::padded_left(
            s,
            width,
            fill,
        ) == s,
        s.len() < width ==> {
            let right = text::padded_right(s, width, fill);
            let left = text::padded_left(s, width, fill);
            &&& right.len() == width
            &&& right.take(s.len() as int) == s
            &&& forall|i: int| s.len() <= i < width ==> #[trigger] right[i] == fill
            &&& left.len() == width
            &&& left.skip(width - s.len()) == s
            &&& forall|i: int| 0 <= i < width - s.len() ==> #[trigger] left[i] == fill
        },
{
    let right = text::padded_right(s, width, fill);
    let left = text::padded_left(s, width, fill);
    if s.len() >= width {
        assert(right =~= s);
        assert(left =~= s);
    } else {
        assert(right.take(s.len() as int) =~= s);
        assert(left.skip(width - s.len()) =~= s);
    }
}

/// In dictionary order the first character that differs decides, by its code point; where none does,
/// the shorter text comes first.
pub proof fn law_first_difference_orders(common: Seq<char>, a: Seq<char>, b: Seq<char>)
    ensures
        a.len() > 0 && b.len() > 0 && (a[0] as int) < (b[0] as int) ==> text::precedes(
            common + a,
            common + b,
        ) && !text::precedes(common + b, common + a),
        b.len() > 0 ==> text::precedes(common, common + b) && !text::precedes(common + b, common),
        !text::precedes(common, common),
    decreases common.len(),
{
    if common.len() > 0 {
        law_first_difference_orders(common.drop_first(), a, b);
        assert((common + a).drop_first() =~= common.drop_first() + a);
        assert((common + b).drop_first() =~= common.drop_first() + b);
    } else {
        assert(common + a =~= a);
        assert(common + b =~= b);
    }
}

// ---------------------------------------------------------------------------------------------
// Numbers
// ---------------------------------------------------------------------------------------------

/// A number that is written is read back, with or without a plus sign, while it is within the
/// bounds; one beyond them is refused.
pub proof fn law_written_numbers_are_read_back(n: nat, max: int)
    ensures
        n <= max ==> text::unsigned_value(text::decimal(n), max) == Some(n as int),
        n > max ==> text::unsigned_value(text::decimal(n), max) is None,
        text::unsigned_value(seq!['+'] + text::decimal(n), max) == text::unsigned_value(
            text::decimal(n),
            max,
        ),
{
    let s = text::decimal(n);
    text::lemma_decimal_digits(n);
    text::lemma_decimal_value(n);
    assert(text::is_digit(s[0]));
    assert((seq!['+'] + s).drop_first() =~= s);
}

/// A signed number that is written is read back while it is within the bounds, and one beyond them
/// is refused.
pub proof fn law_written_signed_numbers_are_read_back(n: int, min: int, max: int)
    requires
        min <= 0 <= max,
    ensures
        min <= n <= max ==> text::signed_value(text::decimal_int(n), min, max) == Some(n),
        !(min <= n <= max) ==> text::signed_value(text::decimal_int(n), min, max) is None,
{
    if n < 0 {
        let s = text::decimal((-n) as nat);
        text::lemma_decimal_digits((-n) as nat);
        text::lemma_decimal_value((-n) as nat);
        assert((seq!['-'] + s).drop_first() =~= s);
    } else {
        let s = text::decimal(n as nat);
        text::lemma_decimal_digits(n as nat);
        assert(text::is_digit(s[0]));
        law_written_numbers_are_read_back(n as nat, max);
    }
}

/// Text in which a character is no digit is no number; nor is nothing.
pub proof fn law_other_texts_are_no_numbers(s: Seq<char>, i: int, max: int)
    requires
        s.len() > 0 ==> 0 <= i < s.len() && !(0x30 <= s[i] as int <= 0x39) && (i > 0 || s[0] != '+'),
    ensures
        text::unsigned_value(s, max) is None,
{
    if s.len() > 0 {
        let t = text::without_plus(s);
        if s[0] == '+' {
            assert(t[i - 1] == s[i]);
        } else {
            assert(t[i] == s[i]);
        }
    }
}

/// The lines of a text that ends in a line feed, or is empty, with more behind it are its own lines,
/// then those of what follows.
pub proof fn law_lines_of_whole_lines(a: Seq<char>, b: Seq<char>)
    requires
        a.len() > 0 ==> a.last() == '\n',
    ensures
        text::lines_of(a + b) == text::lines_of(a) + text::lines_of(b),
    decreases a.len(),
{
    if a.len() == 0 {
        assert(a + b =~= b);
        assert(text::lines_of(a) =~= Seq::empty());
        assert(text::lines_of(a) + text::lines_of(b) =~= text::lines_of(b));
    } else {
        let class = CharClass::Only('\n');
        text::lemma_span_bound(a, class);
        let n = text::span_outside(a, class);
        if n >= a.len() {
            assert(!class.has(a[a.len() - 1]));
        }
        let first = a.take(n);
        let rest = a.skip(n + 1);
        assert(!first.contains('\n')) by {
            assert forall|j: int| 0 <= j < first.len() implies first[j] != '\n' by {
                assert(!class.has(a[j]));
            }
        }
        assert(a =~= first + seq!['\n'] + rest);
        assert(a + b =~= first + seq!['\n'] + (rest + b));
        lemma_line_before(first, rest);
        lemma_line_before(first, rest + b);
        if rest.len() > 0 {
            assert(rest.last() == a.last());
        }
        law_lines_of_whole_lines(rest, b);
        assert(text::lines_of(a + b) =~= text::lines_of(a) + text::lines_of(b));
    }
}

} // verus!
