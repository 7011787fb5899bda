//! Cases without `*`: literal comparisons and `?` runs, over ASCII content,
//! run through both the byte-level and the scalar-level matcher.

use fast_wild_compare::fast_wild_compare_ascii;
use fast_wild_compare::fast_wild_compare_utf8;

fn chars_of(s: &str) -> Box<[char]> {
    s.chars().collect::<Vec<char>>().into_boxed_slice()
}

fn check(tame: &str, wild: &str, expected: bool) {
    assert_eq!(
        fast_wild_compare_ascii(wild, tame),
        expected,
        "ascii: wild={:?} tame={:?}",
        wild,
        tame
    );
    assert_eq!(
        fast_wild_compare_utf8(chars_of(wild), chars_of(tame)),
        expected,
        "utf8: wild={:?} tame={:?}",
        wild,
        tame
    );
}

#[test]
fn tame_last_character_mismatch() {
    check("abc", "abd", false);
}

#[test]
fn tame_repeating_character_sequences() {
    check("abcccd", "abcccd", true);
    check("mississipissippi", "mississipissippi", true);
    check("xxxxzzzzzzzzyf", "xxxxzzzzzzzzyfffff", false);
    check("xxxxzzzzzzzzyf", "xxxxzzzzzzzzyf", true);
    check("xxxxzzzzzzzzyf", "xxxxzzy.fffff", false);
    check("xyxyxyzyxyz", "xyxyxyzyxyz", true);
    check("mississippi", "mississippi", true);
    check("xyxyxyxyz", "xyxyxyxyz", true);
    check("m ississippi", "m ississippi", true);
    check("ababac", "ababac?", false);
    check("dababac", "ababac", false);
    check("aaazz", "aaazz", true);
    check("a12b12", "1212", false);
    check("a12b12", "a12b", false);
    check("a12b12", "a12b12", true);
}

#[test]
fn tame_mixed_cases() {
    check("n", "n", true);
    check("aabab", "aabab", true);
    check("ar", "ar", true);
    check("aar", "aaar", false);
    check("XYXYXYZYXYz", "XYXYXYZYXYz", true);
    check("missisSIPpi", "missisSIPpi", true);
    check("mississipPI", "mississipPI", true);
    check("miSsissippi", "miSsissippi", true);
    check("miSsissippi", "miSsisSippi", false);
    check("abAbac", "abAbac", true);
    check("aAazz", "aAazz", true);
    check("A12b12", "A12b123", false);
    check("a12B12", "a12B12", true);
    check("oWn", "oWn", true);
    check("bLah", "bLah", true);
    check("bLah", "bLaH", false);
}

#[test]
fn tame_single_qmark_cases() {
    check("a", "a", true);
    check("ab", "a?", true);
    check("abc", "ab?", true);
}

#[test]
fn tame_mixed_qmark_cases() {
    check("a", "??", false);
    check("ab", "??", true);
    check("abc", "???", true);
    check("abcd", "????", true);
    check("abc", "????", false);
    check("abcd", "?b??", true);
    check("abcd", "?a??", false);
    check("abcd", "??c?", true);
    check("abcd", "??d?", false);
    check("abcde", "?b?d*?", true);
}

#[test]
fn tame_longer_strings() {
    check(
        "aaaaaaaaaaaaaaaaaaaaaaaaaaaaaaaaaaaaaaaaaaaaaaaaaa\
         aaaaaaaaaaaaaaaaaaaaaaaaaaaaaaaaaaaaaaaab",
        "aaaaaaaaaaaaaaaaaaaaaaaaaaaaaaaaaaaaaaaaaaaaaaaaaa\
         aaaaaaaaaaaaaaaaaaaaaaaaaaaaaaaaaaaaaaaab",
        true,
    );
    check(
        "abababababababababababababababababababaacacacacacacacadaeafagahaiajakalaaaaaaaaaaaaaaaaaffafagaagggagaaaaaaaab",
        "abababababababababababababababababababaacacacacacacacadaeafagahaiajakalaaaaaaaaaaaaaaaaaffafagaagggagaaaaaaaab",
        true,
    );
    check(
        "abababababababababababababababababababaacacacacacacacadaeafagahaiajakalaaaaaaaaaaaaaaaaaffafagaagggagaaaaaaaab",
        "abababababababababababababababababababaacacacacacacacadaeafagahaiajaxalaaaaaaaaaaaaaaaaaffafagaagggagaaaaaaaab",
        false,
    );
    check(
        "abababababababababababababababababababaacacacacacacacadaeafagahaiajakalaaaaaaaaaaaaaaaaaffafagaagggagaaaaaaaab",
        "abababababababababababababababababababaacacacacacacacadaeafagahaiajakalaaaaaaaaaaaaaaaaaffafagaggggagaaaaaaaab",
        false,
    );
    check("aaabbaabbaab", "aaabbaabbaab", true);
    check("aaaaaaaaaaaaaaaaaaaaaaaaaaaaaaaaaa", "aaaaaaaaaaaaaaaaaaaaaaaaaaaaaaaaaa", true);
    check("aaaaaaaaaaaaaaaaa", "aaaaaaaaaaaaaaaaa", true);
    check("aaaaaaaaaaaaaaaa", "aaaaaaaaaaaaaaaaa", false);
    check(
        "abcabcdabcdeabcdefabcdefgabcdefghabcdefghiabcdefghijabcdefghijkabcdefghijklabcdefghijklmabcdefghijklmn",
        "abcabcabcabcabcabcabcabcabcabcabcabcabcabcabcabcabc",
        false,
    );
    check(
        "abcabcdabcdeabcdefabcdefgabcdefghabcdefghiabcdefghijabcdefghijkabcdefghijklabcdefghijklmabcdefghijklmn",
        "abcabcdabcdeabcdefabcdefgabcdefghabcdefghiabcdefghijabcdefghijkabcdefghijklabcdefghijklmabcdefghijklmn",
        true,
    );
    check("abcabcdabcdabcabcd", "abcabc?abcabcabc", false);
    check(
        "abcabcdabcdabcabcdabcdabcabcdabcabcabcd",
        "abcabc?abc?abcabc?abc?abc?bc?abc?bc?bcd",
        true,
    );
    check("?abc?", "?abc?", true);
}
