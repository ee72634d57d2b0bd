use std::path::{Component, Path};

use html_build::annotate_attributes::{replace_full_stop, trim_end_ascii};
use html_build::io_utils::is_safe_path;
use html_build::names::{find_attr, Attribute, QualName};
use html_build::string_map::StringMap;
use html_build::string_set::{lex_less, StringSet};
use html_build::text::{
    chars_of, contains, contains_token, ends_with, find, is_ascii_whitespace, is_whitespace, join,
    matches_at, push_decimal, range_equals, slice, starts_with, str_eq, string_of, to_string,
    token_ranges, tokens, trim_end_index, trim_start_index, trimmed, trimmed_start,
};
use html_build::variables::rename_if_present;

fn chars(s: &str) -> Vec<char> {
    s.chars().collect()
}

#[test]
fn whitespace_is_what_std_says() {
    for c in (0..=0x10FFFFu32).filter_map(char::from_u32) {
        assert_eq!(is_whitespace(c), c.is_whitespace(), "{:?}", c);
        assert_eq!(is_ascii_whitespace(c), c.is_ascii_whitespace(), "{:?}", c);
    }
}

#[test]
fn trimming_is_what_std_says() {
    let samples = [
        "",
        " ",
        "a",
        "  a b  ",
        "\n\t x \r\n",
        "\u{a0}x\u{3000}",
        "\u{2003}\u{85}mid dle\u{1680}\u{2028}",
        "no-trim",
        " \u{feff}x ",
    ];
    for s in samples {
        assert_eq!(to_string(&trimmed(&chars(s))), s.trim());
        assert_eq!(to_string(&trimmed_start(&chars(s))), s.trim_start());
        let v = chars(s);
        let i = trim_start_index(&v);
        let j = trim_end_index(&v, i);
        assert_eq!(string_of(&v, i, j), s.trim());
    }
}

#[test]
fn tokens_are_what_std_says() {
    let samples = ["", "   ", "a", " a  b\tc\nd\x0ce\rf ", "x\u{a0}y z", "one", "  lead", "trail  "];
    for s in samples {
        let expected: Vec<String> = s.split_ascii_whitespace().map(|t| t.to_string()).collect();
        assert_eq!(tokens(&chars(s)), expected);
        let ranges = token_ranges(&chars(s));
        assert_eq!(ranges.len(), expected.len());
        for ((i, j), t) in ranges.iter().zip(expected.iter()) {
            assert_eq!(&string_of(&chars(s), *i, *j), t);
            assert!(contains_token(&chars(s), &chars(t)));
        }
        assert!(!contains_token(&chars(s), &chars("")));
        assert!(!contains_token(&chars(s), &chars("absent")));
    }
    assert!(!contains_token(&chars("ab cd"), &chars("b")));
    assert!(!contains_token(&chars("ab cd"), &chars("ab cd")));
}

#[test]
fn searching_is_what_std_says() {
    let texts = ["", "a", "abcabc", "aaa", "INSERT INTERFACES HERE", "x INSERT INTERFACES HERE y", "\u{e9}t\u{e9}"];
    let patterns = ["", "a", "bc", "abc", "aa", "INSERT INTERFACES HERE", "t\u{e9}", "zz"];
    for t in texts {
        for p in patterns {
            let (tc, pc) = (chars(t), chars(p));
            let expected = t.find(p).map(|byte| t[..byte].chars().count());
            assert_eq!(find(&tc, &pc), expected, "{:?} in {:?}", p, t);
            assert_eq!(contains(&tc, &pc), t.contains(p));
            assert_eq!(starts_with(&tc, &pc), t.starts_with(p));
            assert_eq!(ends_with(&tc, &pc), t.ends_with(p));
            assert_eq!(str_eq(t, p), t == p);
        }
    }
    assert!(matches_at(&chars("abc"), &chars("bc"), 1));
    assert!(!matches_at(&chars("abc"), &chars("bc"), 2));
    assert!(!matches_at(&chars("abc"), &chars("bc"), 7));
    assert!(matches_at(&chars("abc"), &chars(""), 3));
    assert!(range_equals(&chars("abc"), 1, 3, &chars("bc")));
    assert!(!range_equals(&chars("abc"), 1, 2, &chars("bc")));
    assert_eq!(slice(&chars("abcd"), 1, 3), chars("bc"));
    assert_eq!(chars_of("h\u{e9}"), vec!['h', '\u{e9}']);
}

#[test]
fn numerals_and_joins() {
    for n in [0u64, 1, 9, 10, 11, 99, 100, 101, 12345, 1u64 << 32, u64::MAX - 1, u64::MAX] {
        let mut s = String::from("n=");
        push_decimal(&mut s, n);
        assert_eq!(s, format!("n={}", n));
    }
    let none: Vec<String> = vec![];
    assert_eq!(join(&none, ", "), "");
    assert_eq!(join(&vec!["a".to_string()], ", "), "a");
    assert_eq!(join(&vec!["a".to_string(), "".to_string(), "c".to_string()], ", "), "a, , c");
    assert_eq!(join(&vec!["x".to_string(), "y".to_string()], ""), "xy");
}

#[test]
fn strings_are_ordered_as_std_orders_them() {
    let samples = ["", "a", "A", "aa", "ab", "b", "a-b", "Z", "\u{e9}", "z\u{ffff}", "z\u{10000}", "abc", "abd"];
    for a in samples {
        for b in samples {
            assert_eq!(lex_less(&chars(a), &chars(b)), a < b, "{:?} < {:?}", a, b);
        }
    }
}

#[test]
fn string_set_holds_each_string_once() {
    let mut set = StringSet::new();
    assert!(set.is_empty());
    for s in ["b", "a", "c", "a", "", "b"] {
        set.insert(s.to_string());
    }
    assert!(!set.is_empty());
    assert!(set.contains("a") && set.contains("") && !set.contains("d"));
    assert_eq!(set.sorted(), vec!["", "a", "b", "c"]);
    set.remove("a");
    set.remove("zz");
    assert!(!set.contains("a"));
    assert_eq!(set.sorted(), vec!["", "b", "c"]);
    set.remove("");
    set.remove("b");
    set.remove("c");
    assert!(set.is_empty());
}

#[test]
fn string_map_lists_keys_in_ascending_order() {
    let mut map: StringMap<u32> = StringMap::new();
    assert_eq!(map.len(), 0);
    assert_eq!(map.position("a"), None);
    for (k, v) in [("m", 1), ("a", 2), ("z", 3), ("m", 4), ("b", 5)] {
        let i = map.ensure(k.to_string(), v);
        assert_eq!(map.key(i), k);
    }
    assert_eq!(map.len(), 4);
    let keys: Vec<&str> = (0..map.len()).map(|i| map.key(i).as_str()).collect();
    assert_eq!(keys, vec!["a", "b", "m", "z"]);
    let values: Vec<u32> = (0..map.len()).map(|i| *map.value(i)).collect();
    assert_eq!(values, vec![2, 5, 1, 3]);
    let at = map.position("m").unwrap();
    *map.value_mut(at) += 10;
    assert_eq!(*map.value(at), 11);
}

#[test]
fn safe_paths_are_what_the_components_say() {
    let samples = [
        "", ".", "..", "a", "a/", "/", "/a", "a/b", "a//b", "a/./b", "./a", "a/..", "../a", "a/../b",
        "..a", "a..", "a/..b/c", "a/b../c", "...", "a/.../b", ".hidden", "a/.", "//", "a/../", "x/..\\y",
    ];
    for s in samples {
        let expected =
            Path::new(s).components().all(|c| matches!(c, Component::Normal(_) | Component::CurDir));
        assert_eq!(is_safe_path(s), expected, "{:?}", s);
    }
}

#[test]
fn attributes_are_found_and_renamed() {
    let attr = |n: &str, v: &str| Attribute { name: QualName::attribute(n), value: v.to_string() };
    let mut attrs = vec![attr("id", "x"), attr("algorithm", "a"), attr("class", "c"), attr("algorithm", "b")];
    assert_eq!(find_attr(&attrs, &QualName::attribute("class")), 2);
    assert_eq!(find_attr(&attrs, &QualName::attribute("algorithm")), 1);
    assert_eq!(find_attr(&attrs, &QualName::attribute("none")), 4);
    assert_eq!(find_attr(&attrs, &QualName::html("class")), 4);
    rename_if_present(&mut attrs, &QualName::attribute("algorithm"), &QualName::attribute("data-algorithm"));
    let names: Vec<(&str, &str)> = attrs.iter().map(|a| (a.name.local.as_str(), a.value.as_str())).collect();
    assert_eq!(names, vec![("id", "x"), ("class", "c"), ("algorithm", "b"), ("data-algorithm", "a")]);
    rename_if_present(&mut attrs, &QualName::attribute("absent"), &QualName::attribute("data-absent"));
    assert_eq!(attrs.len(), 4);
    let cloned = attrs[0].clone();
    assert!(cloned.name.same(&attrs[0].name) && cloned.value == attrs[0].value);
}

#[test]
fn trailing_whitespace_and_periods() {
    assert_eq!(to_string(&trim_end_ascii(&chars("Anchor name\n    "))), "Anchor name");
    assert_eq!(to_string(&trim_end_ascii(&chars("  x"))), "  x");
    assert_eq!(to_string(&trim_end_ascii(&chars(" \n "))), " \n ");
    assert_eq!(to_string(&trim_end_ascii(&chars(""))), "");
    assert_eq!(to_string(&trim_end_ascii(&chars("x\u{a0} "))), "x\u{a0}");
    assert_eq!(replace_full_stop(&chars(" on this element.\n")), " on this element: ");
    assert_eq!(replace_full_stop(&chars("a. . .")), "a: ");
    assert_eq!(replace_full_stop(&chars(". ")), ": ");
    assert_eq!(replace_full_stop(&chars("")), ": ");
    assert_eq!(replace_full_stop(&chars("x\u{a0}")), "x\u{a0}: ");
}
