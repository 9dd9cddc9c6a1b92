use artesian::paths;
use artesian::scores::Score;
use artesian::text;
use artesian::text_map::{copy_texts, same_entries, TextMap, TextSet};
use std::path::{Path, PathBuf};

const SAMPLES: [&str; 14] = [
    "", " ", "a", " a b ", "a\tb\nc", "--x--", "\u{2003}wide\u{2003}", "a,b,,c", "x\r\ny\n", "\n",
    "aaa", "aXaXa", "\u{e9}t\u{e9}", "line\rstill",
];

#[test]
fn white_space_is_that_of_unicode() {
    for point in 0..=0x10ffffu32 {
        if let Some(c) = char::from_u32(point) {
            assert_eq!(text::is_whitespace(c), c.is_whitespace(), "{point:x}");
        }
    }
}

#[test]
fn ascii_classes_follow_std() {
    for c in (0..=0x17fu32).filter_map(char::from_u32) {
        assert_eq!(text::is_ascii_alphanumeric(c), c.is_ascii_alphanumeric());
        assert_eq!(text::to_lower_char(c), c.to_ascii_lowercase());
    }
}

#[test]
fn text_functions_follow_std() {
    for s in SAMPLES {
        assert_eq!(text::trim(s), s.trim());
        assert_eq!(text::trim_class(s, text::CharClass::Only('-')), s.trim_matches('-'));
        assert_eq!(text::split_whitespace(s), s.split_whitespace().collect::<Vec<_>>());
        assert_eq!(text::split_char(s, ','), s.split(',').collect::<Vec<_>>());
        assert_eq!(text::lines(s), s.lines().collect::<Vec<_>>(), "{s:?}");
        assert_eq!(text::to_ascii_lowercase(s), s.to_ascii_lowercase());
        for needle in ["a", "X", "aa", "\n", "\u{e9}"] {
            assert_eq!(text::contains(s, needle), s.contains(needle));
            assert_eq!(text::starts_with(s, needle), s.starts_with(needle));
            assert_eq!(text::strip_prefix(s, needle).as_deref(), s.strip_prefix(needle));
            assert_eq!(text::strip_suffix(s, needle).as_deref(), s.strip_suffix(needle));
            assert_eq!(text::replace(s, needle, "<>"), s.replace(needle, "<>"));
            assert_eq!(text::count_matches(s, needle), s.matches(needle).count());
        }
        for other in SAMPLES {
            let expected = match s.cmp(other) {
                std::cmp::Ordering::Less => text::Rank::Before,
                std::cmp::Ordering::Equal => text::Rank::Same,
                std::cmp::Ordering::Greater => text::Rank::After,
            };
            assert!(text::rank(s, other) == expected);
        }
        assert_eq!(text::pad_right(s, 6, '.'), format!("{s:.<6}"));
        assert_eq!(text::pad_left(s, 6, '.'), format!("{s:.>6}"));
        assert_eq!(text::take_chars(s, 2), s.chars().take(2).collect::<String>());
    }
    assert_eq!(text::find("abcabc", "ca"), Some(2));
    assert_eq!(text::find("abc", "x"), None);
}

#[test]
fn numbers_are_written_and_read_as_std_does() {
    for n in [0u64, 1, 9, 10, 123, u32::MAX as u64, u64::MAX] {
        assert_eq!(text::decimal_u64(n), n.to_string());
    }
    for n in [i64::MIN, -10, -1, 0, 7, i64::MAX] {
        assert_eq!(text::decimal_i64(n), n.to_string());
    }
    assert_eq!(text::decimal_u128(u128::MAX), u128::MAX.to_string());
    let samples = [
        "", "0", "007", "+5", "-5", "+", "-", "4294967295", "4294967296", "2147483648",
        "-2147483648", "-2147483649", "1x", " 1", "99999999999999999999999", "18446744073709551615",
    ];
    for s in samples {
        assert_eq!(text::parse_u32(s), s.parse::<u32>().ok(), "{s}");
        assert_eq!(text::parse_i32(s), s.parse::<i32>().ok(), "{s}");
        assert_eq!(text::parse_usize(s), s.parse::<usize>().ok(), "{s}");
    }
}

#[test]
fn paths_follow_std() {
    let samples = ["", "/", "a", "a/b", "/a//b/", "./a", "a/./b", "a/..", "../a", "/.", "a/", "//a"];
    for a in samples {
        assert_eq!(
            paths::file_name(a),
            Path::new(a).file_name().map(|name| name.to_string_lossy().into_owned()),
            "{a}"
        );
        assert_eq!(paths::part_count(a), Path::new(a).components().count(), "{a}");
        for b in samples {
            assert_eq!(paths::same_path(a, b), Path::new(a) == Path::new(b), "{a} {b}");
            assert_eq!(
                Path::new(&paths::join(a, b)),
                Path::new(a).join(b).as_path(),
                "{a} {b}"
            );
            let expected = match Path::new(a).cmp(Path::new(b)) {
                std::cmp::Ordering::Less => text::Rank::Before,
                std::cmp::Ordering::Equal => text::Rank::Same,
                std::cmp::Ordering::Greater => text::Rank::After,
            };
            assert!(paths::rank(a, b) == expected, "{a} {b}");
        }
    }
}

#[test]
fn path_lists_are_sorted_without_repetition() {
    let list: Vec<String> =
        ["b", "a/b", "a", "b/", "a//b"].iter().map(|path| path.to_string()).collect();
    let mut expected: Vec<PathBuf> = list.iter().map(PathBuf::from).collect();
    expected.sort();
    expected.dedup();
    let got: Vec<PathBuf> = paths::sort_distinct(&list).iter().map(PathBuf::from).collect();
    assert_eq!(got, expected);
}

#[test]
fn scores_compare_as_floats_do() {
    let samples = [
        0.0f32, -0.0, 1.0, -1.0, 0.5, f32::MIN_POSITIVE, f32::MAX, f32::MIN, f32::INFINITY,
        f32::NEG_INFINITY, f32::NAN, 1e-45, -1e-45,
    ];
    for a in samples {
        let x = Score::from_bits(a.to_bits());
        assert_eq!(x.is_nan(), a.is_nan());
        for b in samples {
            let y = Score::from_bits(b.to_bits());
            assert_eq!(x.less_than(y), a < b, "{a} {b}");
            assert_eq!(x.at_least(y), a >= b, "{a} {b}");
            if !a.is_nan() || !b.is_nan() {
                assert_eq!(f32::from_bits(x.min(y).bits), a.min(b), "{a} {b}");
                assert_eq!(f32::from_bits(x.max(y).bits), a.max(b), "{a} {b}");
            }
        }
    }
    assert_eq!(Score::zero().bits, 0.0f32.to_bits());
    assert_eq!(Score::half().bits, 0.5f32.to_bits());
    assert_eq!(Score::one().bits, 1.0f32.to_bits());
}

#[test]
fn maps_keep_their_keys_in_order() {
    let mut map: TextMap<u8> = TextMap::new();
    assert!(map.is_empty());
    for (key, value) in [("b", 1), ("a", 2), ("c", 3), ("b", 4)] {
        map.insert(key.to_string(), value);
    }
    assert_eq!(map.keys(), vec!["a", "b", "c"]);
    assert_eq!(map.get("b"), Some(&4));
    assert_eq!(map.remove("a"), Some(2));
    assert_eq!(map.remove("a"), None);
    assert_eq!(map.len(), 2);
    assert!(!map.contains("a"));

    let mut texts: TextMap<String> = TextMap::new();
    texts.insert("k".to_string(), "v".to_string());
    let copy = copy_texts(&texts);
    assert!(same_entries(&texts, &copy));
    texts.insert("k".to_string(), "w".to_string());
    assert!(!same_entries(&texts, &copy));
}

#[test]
fn sets_hold_each_member_once() {
    let mut set = TextSet::new();
    assert!(set.insert("b".to_string()));
    assert!(set.insert("a".to_string()));
    assert!(!set.insert("b".to_string()));
    assert_eq!(set.to_vec(), vec!["a", "b"]);
    assert!(set.contains("a"));
    assert!(set.remove("a"));
    assert!(!set.remove("a"));
    assert_eq!(set.len(), 1);
}
