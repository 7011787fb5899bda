//! The executable matcher: one generic single-pass backtracking procedure
//! and its two instantiations, over bytes and over decoded Unicode scalars.
//!
//! The procedure walks pattern and text in lockstep and remembers exactly
//! one fallback alignment — the position just past the most recent `star`
//! run, and the text position where that run's tentative match began. On a
//! later mismatch it resumes from that anchor, one text position further:
//! earlier alignments have already been refuted, so they are never retried.

use vstd::prelude::*;
use vstd::string::StringSliceAdditionalSpecFns;

use crate::model::anchored_matches;
use crate::model::lemma_anchor_advance;
use crate::model::lemma_anchored_at_end;
use crate::model::lemma_anchored_intro;
use crate::model::lemma_anchored_split;
use crate::model::lemma_anchored_witness;
use crate::model::lemma_matches_from_zero;
use crate::model::lemma_pattern_end;
use crate::model::lemma_qmark_anchor_shift;
use crate::model::lemma_scan_step;
use crate::model::lemma_segment;
use crate::model::lemma_star_run;
use crate::model::lemma_starfree_unwind;
use crate::model::lemma_step;
use crate::model::lemma_text_end;
use crate::model::lemma_trailing_stars;
use crate::model::matches_from;
use crate::model::wild_matches;

verus! {

/// A comparison alphabet: a copyable symbol type whose executable equality
/// agrees with mathematical equality.
pub trait Symbol: Sized + Copy {
    /// Decides equality of two symbols.
    fn sym_eq(self, other: Self) -> (r: bool)
        ensures
            r == (self == other),
    ;
}

impl Symbol for u8 {
    fn sym_eq(self, other: Self) -> (r: bool)
        ensures
            r == (self == other),
    {
        self == other
    }
}

impl Symbol for char {
    fn sym_eq(self, other: Self) -> (r: bool)
        ensures
            r == (self == other),
    {
        self == other
    }
}

/// The steady state reached once a `star` has been processed: `(aw0, at0)`
/// is the live fallback anchor. Decides the anchor's claim: does the
/// pattern suffix from `aw0` match the text suffix from some position at or
/// beyond `at0`?
fn steady_state<S: Symbol>(wild: &[S], tame: &[S], star: S, qmark: S, aw0: usize, at0: usize) -> (matched: bool)
    requires
        aw0 <= wild@.len(),
        at0 <= tame@.len(),
    ensures
        matched == anchored_matches(wild@, tame@, aw0 as int, at0 as int, star, qmark),
{
    let np = wild.len();
    let nt = tame.len();
    let mut iw = aw0;
    let mut it = at0;
    let mut aw = aw0;
    let mut at = at0;

    loop
        invariant
            np == wild@.len(),
            nt == tame@.len(),
            aw <= iw <= np,
            at <= it <= nt,
            iw - aw == it - at,
            forall|d: int| aw <= d < iw ==> wild@[d] != star && (wild@[d] == qmark || wild@[d] == tame@[d - aw + at]),
            anchored_matches(wild@, tame@, aw as int, at as int, star, qmark) == anchored_matches(
                wild@,
                tame@,
                aw0 as int,
                at0 as int,
                star,
                qmark,
            ),
        decreases nt - at, np - iw,
    {
        if iw < np && wild[iw].sym_eq(star) {
            // Got wild again: collapse the whole run of consecutive stars.
            let mut k = iw + 1;
            while k < np && wild[k].sym_eq(star)
                invariant
                    np == wild@.len(),
                    iw < k <= np,
                    forall|d: int| iw <= d < k ==> wild@[d] == star,
                decreases np - k,
            {
                k = k + 1;
            }
            if k == np {
                // A trailing star run matches whatever text remains.
                proof {
                    lemma_trailing_stars(wild@, tame@, iw as int, it as int, star, qmark);
                    lemma_segment(wild@, tame@, aw as int, iw as int, at as int, it as int, star, qmark);
                    lemma_anchored_intro(wild@, tame@, aw as int, at as int, at as int, star, qmark);
                }
                return true;
            }
            if it == nt {
                // More pattern after the run, but the text is exhausted.
                proof {
                    lemma_anchor_advance(
                        wild@, tame@, aw as int, iw as int, at as int, it as int, k as int, star, qmark,
                    );
                    lemma_anchored_at_end(wild@, tame@, k as int, star, qmark);
                    lemma_text_end(wild@, tame@, k as int, star, qmark);
                }
                return false;
            }
            proof {
                lemma_anchor_advance(
                    wild@, tame@, aw as int, iw as int, at as int, it as int, k as int, star, qmark,
                );
            }
            iw = k;
            aw = k;
            at = it;
            if !wild[iw].sym_eq(qmark) {
                // Search the text for the next prospective match.
                while at < nt && !tame[at].sym_eq(wild[iw])
                    invariant
                        np == wild@.len(),
                        nt == tame@.len(),
                        iw < np,
                        wild@[iw as int] != star,
                        wild@[iw as int] != qmark,
                        it <= at <= nt,
                        anchored_matches(wild@, tame@, iw as int, at as int, star, qmark) == anchored_matches(
                            wild@,
                            tame@,
                            aw0 as int,
                            at0 as int,
                            star,
                            qmark,
                        ),
                    decreases nt - at,
                {
                    proof {
                        lemma_scan_step(wild@, tame@, iw as int, at as int, star, qmark);
                    }
                    at = at + 1;
                }
                if at == nt {
                    proof {
                        lemma_anchored_at_end(wild@, tame@, iw as int, star, qmark);
                        lemma_text_end(wild@, tame@, iw as int, star, qmark);
                    }
                    return false;
                }
            }
            // Keep the new fallback positions; matching resumes there.
            it = at;
        } else if it == nt {
            // Text exhausted with no star at the cursor: only an exhausted
            // pattern can still match.
            if iw == np {
                proof {
                    lemma_pattern_end(wild@, tame@, it as int, star, qmark);
                    lemma_segment(wild@, tame@, aw as int, iw as int, at as int, it as int, star, qmark);
                    lemma_anchored_intro(wild@, tame@, aw as int, at as int, at as int, star, qmark);
                }
                return true;
            }
            proof {
                if anchored_matches(wild@, tame@, aw as int, at as int, star, qmark) {
                    let j2 = lemma_anchored_witness(wild@, tame@, aw as int, at as int, star, qmark);
                    lemma_starfree_unwind(wild@, tame@, aw as int, iw as int, j2, star, qmark);
                    lemma_text_end(wild@, tame@, iw as int, star, qmark);
                    assert(false);
                }
            }
            return false;
        } else if iw < np && (wild[iw].sym_eq(qmark) || wild[iw].sym_eq(tame[it])) {
            // The symbols agree (directly or through a qmark): both cursors
            // advance, extending the matched segment.
            proof {
                assert forall|d: int| aw <= d < iw + 1 implies wild@[d] != star && (wild@[d] == qmark
                    || wild@[d] == tame@[d - aw + at]) by {
                    if d == iw {
                        assert(d - aw + at == it);
                    }
                }
            }
            iw = iw + 1;
            it = it + 1;
        } else {
            // Mismatch (or exhausted pattern with text left): the current
            // alignment of the anchor is refuted.
            proof {
                lemma_segment(wild@, tame@, aw as int, iw as int, at as int, it as int, star, qmark);
                if iw == np {
                    lemma_pattern_end(wild@, tame@, it as int, star, qmark);
                } else {
                    lemma_step(wild@, tame@, iw as int, it as int, star, qmark);
                }
            }
            let ghost at_entry = at;
            // A fine time for questions: qmarks right after the anchor are
            // unconditionally satisfiable, so commit them for good.
            while aw < np && wild[aw].sym_eq(qmark)
                invariant
                    np == wild@.len(),
                    nt == tame@.len(),
                    aw <= iw <= np,
                    at_entry <= at <= it < nt,
                    iw - aw == it - at,
                    iw < np ==> wild@[iw as int] != star && wild@[iw as int] != qmark,
                    forall|d: int| aw <= d < iw ==> wild@[d] != star && (wild@[d] == qmark || wild@[d] == tame@[d
                        - aw + at]),
                    !matches_from(wild@, tame@, aw as int, at as int, star, qmark),
                    anchored_matches(wild@, tame@, aw as int, at as int, star, qmark) == anchored_matches(
                        wild@,
                        tame@,
                        aw0 as int,
                        at0 as int,
                        star,
                        qmark,
                    ),
                decreases np - aw,
            {
                proof {
                    if aw == iw {
                        assert(false);
                    }
                    lemma_qmark_anchor_shift(wild@, tame@, aw as int, at as int, star, qmark);
                    lemma_step(wild@, tame@, aw as int, at as int, star, qmark);
                    assert forall|d: int| aw + 1 <= d < iw implies wild@[d] != star && (wild@[d] == qmark
                        || wild@[d] == tame@[d - (aw + 1) + (at + 1)]) by {
                        assert(d - (aw + 1) + (at + 1) == d - aw + at);
                    }
                }
                aw = aw + 1;
                at = at + 1;
            }
            proof {
                if aw < np && aw < iw {
                    assert(wild@[aw as int] != star);
                }
            }
            iw = aw;
            // Fall back, but never so far again: earlier alignments are
            // refuted, so the anchor's text position only moves forward.
            loop
                invariant_except_break
                    !matches_from(wild@, tame@, iw as int, at as int, star, qmark),
                invariant
                    np == wild@.len(),
                    nt == tame@.len(),
                    iw <= np,
                    at_entry <= at < nt,
                    iw < np ==> wild@[iw as int] != star && wild@[iw as int] != qmark,
                    anchored_matches(wild@, tame@, iw as int, at as int, star, qmark) == anchored_matches(
                        wild@,
                        tame@,
                        aw0 as int,
                        at0 as int,
                        star,
                        qmark,
                    ),
                ensures
                    at_entry < at < nt,
                    iw < np,
                    tame@[at as int] == wild@[iw as int],
                decreases nt - at,
            {
                proof {
                    lemma_anchored_split(wild@, tame@, iw as int, at as int, star, qmark);
                }
                at = at + 1;
                if at == nt {
                    proof {
                        lemma_anchored_at_end(wild@, tame@, iw as int, star, qmark);
                        if iw < np {
                            lemma_text_end(wild@, tame@, iw as int, star, qmark);
                        } else {
                            lemma_pattern_end(wild@, tame@, nt as int, star, qmark);
                        }
                    }
                    return iw == np;
                }
                if iw < np && wild[iw].sym_eq(tame[at]) {
                    break;
                }
                proof {
                    if iw == np {
                        lemma_pattern_end(wild@, tame@, at as int, star, qmark);
                    } else {
                        lemma_step(wild@, tame@, iw as int, at as int, star, qmark);
                    }
                }
            }
            aw = iw;
            it = at;
        }
    }
}

/// Glob-style wildcard matching over any [`Symbol`] alphabet: decides
/// whether `wild` matches `tame`, where `star` matches any (possibly empty)
/// run of text symbols and `qmark` matches exactly one.
///
/// A single forward pass with one fallback anchor; constant extra space.
pub fn fast_wild_compare<S: Symbol>(wild: &[S], tame: &[S], star: S, qmark: S) -> (matched: bool)
    ensures
        matched == wild_matches(wild@, tame@, star, qmark),
{
    let np = wild.len();
    let nt = tame.len();
    let mut i: usize = 0;

    // The prefix scan: walk both sequences in lockstep until the first
    // star, a definite answer, or the end.
    loop
        invariant
            np == wild@.len(),
            nt == tame@.len(),
            i <= np,
            i <= nt,
            forall|d: int| 0 <= d < i ==> wild@[d] != star && (wild@[d] == qmark || wild@[d] == tame@[d]),
        decreases np - i,
    {
        if i == nt {
            // Text exhausted: only trailing stars can remain in the pattern.
            proof {
                lemma_matches_from_zero(wild@, tame@, star, qmark);
                lemma_segment(wild@, tame@, 0, i as int, 0, i as int, star, qmark);
            }
            if i == np {
                proof {
                    lemma_pattern_end(wild@, tame@, nt as int, star, qmark);
                }
                return true;
            }
            let mut k = i;
            while k < np && wild[k].sym_eq(star)
                invariant
                    np == wild@.len(),
                    i <= k <= np,
                    forall|d: int| i <= d < k ==> wild@[d] == star,
                decreases np - k,
            {
                k = k + 1;
            }
            proof {
                if k == np {
                    lemma_trailing_stars(wild@, tame@, i as int, nt as int, star, qmark);
                } else if k == i {
                    lemma_text_end(wild@, tame@, i as int, star, qmark);
                } else {
                    lemma_star_run(wild@, tame@, i as int, k as int, nt as int, star, qmark);
                    lemma_anchored_at_end(wild@, tame@, k as int, star, qmark);
                    lemma_text_end(wild@, tame@, k as int, star, qmark);
                }
            }
            return k == np;
        } else if i == np {
            // Pattern exhausted while text remains.
            proof {
                lemma_matches_from_zero(wild@, tame@, star, qmark);
                lemma_segment(wild@, tame@, 0, i as int, 0, i as int, star, qmark);
                lemma_pattern_end(wild@, tame@, i as int, star, qmark);
            }
            return false;
        } else if wild[i].sym_eq(star) {
            // Got wild: collapse the star run and set up the first anchor.
            let mut k = i + 1;
            while k < np && wild[k].sym_eq(star)
                invariant
                    np == wild@.len(),
                    i < k <= np,
                    forall|d: int| i <= d < k ==> wild@[d] == star,
                decreases np - k,
            {
                k = k + 1;
            }
            proof {
                lemma_matches_from_zero(wild@, tame@, star, qmark);
                lemma_segment(wild@, tame@, 0, i as int, 0, i as int, star, qmark);
            }
            if k == np {
                proof {
                    lemma_trailing_stars(wild@, tame@, i as int, i as int, star, qmark);
                }
                return true;
            }
            let mut at = i;
            proof {
                lemma_star_run(wild@, tame@, i as int, k as int, i as int, star, qmark);
            }
            if !wild[k].sym_eq(qmark) {
                // Search for the beginning of a prospective match.
                while at < nt && !tame[at].sym_eq(wild[k])
                    invariant
                        np == wild@.len(),
                        nt == tame@.len(),
                        k < np,
                        wild@[k as int] != star,
                        wild@[k as int] != qmark,
                        at <= nt,
                        anchored_matches(wild@, tame@, k as int, at as int, star, qmark) == wild_matches(
                            wild@,
                            tame@,
                            star,
                            qmark,
                        ),
                    decreases nt - at,
                {
                    proof {
                        lemma_scan_step(wild@, tame@, k as int, at as int, star, qmark);
                    }
                    at = at + 1;
                }
                if at == nt {
                    proof {
                        lemma_anchored_at_end(wild@, tame@, k as int, star, qmark);
                        lemma_text_end(wild@, tame@, k as int, star, qmark);
                    }
                    return false;
                }
            }
            // Hand the anchor to the steady state.
            return steady_state(wild, tame, star, qmark, k, at);
        } else if !wild[i].sym_eq(qmark) && !wild[i].sym_eq(tame[i]) {
            // A literal mismatch before any star is final.
            proof {
                lemma_matches_from_zero(wild@, tame@, star, qmark);
                lemma_segment(wild@, tame@, 0, i as int, 0, i as int, star, qmark);
                lemma_step(wild@, tame@, i as int, i as int, star, qmark);
            }
            return false;
        } else {
            // Everything's a match, so far.
            i = i + 1;
        }
    }
}

/// Wildcard matching over the raw encoding units of two strings, one unit
/// at a time: `?` stands for a single unit and `*` for any run of units.
///
/// This byte-level variant is meant for ASCII (or other single-unit)
/// content, where every symbol is one encoding unit. On multi-unit UTF-8
/// content a single `?` still consumes exactly one unit — not one decoded
/// symbol; [`fast_wild_compare_utf8`] is the variant that matches whole
/// decoded symbols.
pub fn fast_wild_compare_ascii(wild_str: &str, tame_str: &str) -> (matched: bool)
    ensures
        matched == wild_matches(wild_str.spec_bytes(), tame_str.spec_bytes(), '*' as u8, '?' as u8),
{
    fast_wild_compare(wild_str.as_bytes(), tame_str.as_bytes(), '*' as u8, '?' as u8)
}

/// Wildcard matching over sequences of decoded Unicode scalar values: `?`
/// stands for exactly one scalar and `*` for any run of scalars.
///
/// Because the wildcards are recognized on whole decoded values, never on
/// raw encoding units, a text symbol is treated as a wildcard only when it
/// is itself `*` or `?` — a multi-unit symbol whose encoding happens to
/// contain a unit equal to a wildcard's is an ordinary literal here.
pub fn fast_wild_compare_utf8(wild_slice: Box<[char]>, tame_slice: Box<[char]>) -> (matched: bool)
    ensures
        matched == wild_matches(wild_slice@, tame_slice@, '*', '?'),
{
    fast_wild_compare(&wild_slice, &tame_slice, '*', '?')
}

} // verus!
