//! Cases with an empty pattern or an empty text.

use fast_wild_compare::fast_wild_compare_ascii;
use fast_wild_compare::fast_wild_compare_utf8;

fn chars_of(s: &str) -> Box<[char]> {
    s.chars().collect::<Vec<char>>().into_boxed_slice()
}

fn check(tame: &str, wild: &str, expected: bool) {
    assert_eq!(
        fast_wild_compare_ascii(wild, tame),
        expected,
        "ascii: wild={:?} tame={:?}",
        wild,
        tame
    );
    assert_eq!(
        fast_wild_compare_utf8(chars_of(wild), chars_of(tame)),
        expected,
        "utf8: wild={:?} tame={:?}",
        wild,
        tame
    );
}

#[test]
fn empty_tame_string() {
    check("", "abd", false);
    check("", "abcccd", false);
    check("", "mississipissippi", false);
    check("", "xxxxzzzzzzzzyfffff", false);
    check("", "xxxxzzy.fffff", false);
    check("", "xyxyxyzyxyz", false);
    check("", "m ississippi", false);
    check("", "ababac*", false);
    check("", "ababac", false);
    check("", "aaazz", false);
    check("", "1212", false);
    check("", "a12b", false);
    check("", "n", false);
    check("", "aabab", false);
    check("", "ar", false);
    check("", "aaar", false);
    check("", "XYXYXYZYXYz", false);
    check("", "missisSIPpi", false);
    check("", "miSsisSippi", false);
    check("", "abAbac", false);
    check("", "aAazz", false);
    check("", "A12b123", false);
    check("", "a12B12", false);
    check("", "oWn", false);
    check("", "bLaH", false);
}

#[test]
fn empty_pattern_consisting_of_stars() {
    check("", "*", true);
    check("", "**", true);
    check("abc", "***", true);
}

#[test]
fn both_strings_empty() {
    check("", "", true);
}

#[test]
fn empty_wild_string() {
    check("abc", "", false);
    check("abcccd", "", false);
    check("mississipissippi", "", false);
    check("xxxxzzzzzzzzyf", "", false);
    check("xyxyxyzyxyz", "", false);
    check("m ississippi", "", false);
    check("ababac", "", false);
    check("dababac", "", false);
    check("aaazz", "", false);
    check("a12b12", "", false);
    check("n", "", false);
    check("aabab", "", false);
    check("ar", "", false);
    check("aar", "", false);
    check("XYXYXYZYXYz", "", false);
    check("missisSIPpi", "", false);
    check("mississipPI", "", false);
    check("miSsissippi", "", false);
    check("abAbac", "", false);
    check("aAazz", "", false);
    check("A12b12", "", false);
    check("a12B12", "", false);
    check("oWn", "", false);
    check("bLah", "", false);
}
