//! The mathematical meaning of wildcard matching.
//!
//! [`wild_matches`] is the recursive reference semantics: a pattern symbol
//! equal to `star` absorbs zero or more text symbols, one equal to `qmark`
//! consumes exactly one, and any other symbol must equal the text symbol at
//! the same alignment. The lemmas below restate that definition in the forms
//! the iterative matcher and its callers need.

use vstd::prelude::*;

verus! {

/// `true` iff `wild` matches `tame`, where `star` absorbs any number of
/// text symbols (including none) and `qmark` consumes exactly one.
///
/// Wildcard values inside `tame` are never special: they are matched like
/// any other literal.
pub open spec fn wild_matches<S>(wild: Seq<S>, tame: Seq<S>, star: S, qmark: S) -> bool
    decreases wild.len(), tame.len(),
{
    if wild.len() == 0 {
        tame.len() == 0
    } else if wild[0] == star {
        ||| wild_matches(wild.skip(1), tame, star, qmark)
        ||| (tame.len() > 0 && wild_matches(wild, tame.skip(1), star, qmark))
    } else if tame.len() == 0 {
        false
    } else if wild[0] == qmark || wild[0] == tame[0] {
        wild_matches(wild.skip(1), tame.skip(1), star, qmark)
    } else {
        false
    }
}

/// Matching restated over cursor positions: the pattern suffix from `i`
/// against the text suffix from `j`.
pub open spec fn matches_from<S>(wild: Seq<S>, tame: Seq<S>, i: int, j: int, star: S, qmark: S) -> bool
    recommends
        0 <= i <= wild.len(),
        0 <= j <= tame.len(),
{
    wild_matches(wild.skip(i), tame.skip(j), star, qmark)
}

/// The meaning of a live fallback anchor `(i, j)`: the pattern suffix from
/// `i` matches the text suffix from some position `j2` at or beyond `j`.
pub open spec fn anchored_matches<S>(wild: Seq<S>, tame: Seq<S>, i: int, j: int, star: S, qmark: S) -> bool {
    exists|j2: int| j <= j2 <= tame.len() && matches_from(wild, tame, i, j2, star, qmark)
}

proof fn lemma_skip_skip<S>(s: Seq<S>, i: int)
    requires
        0 <= i < s.len(),
    ensures
        s.skip(i).skip(1) =~= s.skip(i + 1),
{
}

/// A concrete starting position at or beyond `j` witnesses the anchor's claim.
pub proof fn lemma_anchored_intro<S>(wild: Seq<S>, tame: Seq<S>, i: int, j: int, j2: int, star: S, qmark: S)
    requires
        j <= j2 <= tame.len(),
        matches_from(wild, tame, i, j2, star, qmark),
    ensures
        anchored_matches(wild, tame, i, j, star, qmark),
{
    assert(j <= j2 <= tame.len() && matches_from(wild, tame, i, j2, star, qmark));
}

/// The anchor's claim yields a concrete starting position.
pub proof fn lemma_anchored_witness<S>(wild: Seq<S>, tame: Seq<S>, i: int, j: int, star: S, qmark: S) -> (j2: int)
    requires
        anchored_matches(wild, tame, i, j, star, qmark),
    ensures
        j <= j2 <= tame.len(),
        matches_from(wild, tame, i, j2, star, qmark),
{
    choose|j2: int| j <= j2 <= tame.len() && matches_from(wild, tame, i, j2, star, qmark)
}

/// Matching from the start positions is matching itself.
pub proof fn lemma_matches_from_zero<S>(wild: Seq<S>, tame: Seq<S>, star: S, qmark: S)
    ensures
        matches_from(wild, tame, 0, 0, star, qmark) == wild_matches(wild, tame, star, qmark),
{
    assert(wild.skip(0) =~= wild);
    assert(tame.skip(0) =~= tame);
}

/// An exhausted pattern suffix matches exactly the exhausted text suffix.
pub proof fn lemma_pattern_end<S>(wild: Seq<S>, tame: Seq<S>, j: int, star: S, qmark: S)
    requires
        0 <= j <= tame.len(),
    ensures
        matches_from(wild, tame, wild.len() as int, j, star, qmark) == (j == tame.len()),
{
}

/// A pattern suffix that begins with anything but `star` cannot match the
/// exhausted text suffix.
pub proof fn lemma_text_end<S>(wild: Seq<S>, tame: Seq<S>, i: int, star: S, qmark: S)
    requires
        0 <= i < wild.len(),
        wild[i] != star,
    ensures
        !matches_from(wild, tame, i, tame.len() as int, star, qmark),
{
}

/// One deterministic step: with no `star` at position `i`, matching demands
/// a compatible symbol pair and continues at the next positions.
pub proof fn lemma_step<S>(wild: Seq<S>, tame: Seq<S>, i: int, j: int, star: S, qmark: S)
    requires
        0 <= i < wild.len(),
        0 <= j < tame.len(),
        wild[i] != star,
    ensures
        matches_from(wild, tame, i, j, star, qmark) == ((wild[i] == qmark || wild[i] == tame[j])
            && matches_from(wild, tame, i + 1, j + 1, star, qmark)),
{
    lemma_skip_skip(wild, i);
    lemma_skip_skip(tame, j);
}

/// A `star` at position `i` absorbs any number of text symbols: matching
/// from `(i, j)` succeeds exactly when the rest of the pattern matches from
/// some text position at or beyond `j`.
pub proof fn lemma_star_extends<S>(wild: Seq<S>, tame: Seq<S>, i: int, j: int, star: S, qmark: S)
    requires
        0 <= i < wild.len(),
        wild[i] == star,
        0 <= j <= tame.len(),
    ensures
        matches_from(wild, tame, i, j, star, qmark) == anchored_matches(wild, tame, i + 1, j, star, qmark),
    decreases tame.len() - j,
{
    lemma_skip_skip(wild, i);
    if j < tame.len() {
        lemma_skip_skip(tame, j);
        lemma_star_extends(wild, tame, i, j + 1, star, qmark);
    }
    if matches_from(wild, tame, i, j, star, qmark) {
        if matches_from(wild, tame, i + 1, j, star, qmark) {
            lemma_anchored_intro(wild, tame, i + 1, j, j, star, qmark);
        } else {
            let j2 = lemma_anchored_witness(wild, tame, i + 1, j + 1, star, qmark);
            lemma_anchored_intro(wild, tame, i + 1, j, j2, star, qmark);
        }
    } else {
        if anchored_matches(wild, tame, i + 1, j, star, qmark) {
            let j2 = lemma_anchored_witness(wild, tame, i + 1, j, star, qmark);
            if j2 == j {
                assert(matches_from(wild, tame, i, j, star, qmark));
            } else {
                lemma_anchored_intro(wild, tame, i + 1, j + 1, j2, star, qmark);
                assert(matches_from(wild, tame, i, j, star, qmark));
            }
            assert(false);
        }
    }
}

/// A whole run of consecutive `star` symbols `[i, k)` behaves like one
/// `star`: matching from `(i, j)` succeeds exactly when the pattern from `k`
/// matches from some text position at or beyond `j`.
pub proof fn lemma_star_run<S>(wild: Seq<S>, tame: Seq<S>, i: int, k: int, j: int, star: S, qmark: S)
    requires
        0 <= i < k <= wild.len(),
        forall|d: int| i <= d < k ==> wild[d] == star,
        0 <= j <= tame.len(),
    ensures
        matches_from(wild, tame, i, j, star, qmark) == anchored_matches(wild, tame, k, j, star, qmark),
    decreases k - i,
{
    lemma_star_extends(wild, tame, i, j, star, qmark);
    if i + 1 < k {
        if matches_from(wild, tame, i, j, star, qmark) {
            let j2 = lemma_anchored_witness(wild, tame, i + 1, j, star, qmark);
            lemma_star_run(wild, tame, i + 1, k, j2, star, qmark);
            let j3 = lemma_anchored_witness(wild, tame, k, j2, star, qmark);
            lemma_anchored_intro(wild, tame, k, j, j3, star, qmark);
        }
        if anchored_matches(wild, tame, k, j, star, qmark) {
            let j3 = lemma_anchored_witness(wild, tame, k, j, star, qmark);
            lemma_anchored_intro(wild, tame, k, j3, j3, star, qmark);
            lemma_star_run(wild, tame, i + 1, k, j3, star, qmark);
            lemma_anchored_intro(wild, tame, i + 1, j, j3, star, qmark);
        }
    }
}

/// A pattern suffix made only of `star` symbols matches every text suffix;
/// the empty pattern suffix matches only the exhausted text.
pub proof fn lemma_trailing_stars<S>(wild: Seq<S>, tame: Seq<S>, i: int, j: int, star: S, qmark: S)
    requires
        0 <= i <= wild.len(),
        0 <= j <= tame.len(),
        forall|d: int| i <= d < wild.len() ==> wild[d] == star,
    ensures
        matches_from(wild, tame, i, j, star, qmark) == (i < wild.len() || j == tame.len()),
    decreases wild.len() - i, tame.len() - j,
{
    if i == wild.len() {
        lemma_pattern_end(wild, tame, j, star, qmark);
    } else {
        lemma_skip_skip(wild, i);
        if i + 1 < wild.len() {
            lemma_trailing_stars(wild, tame, i + 1, j, star, qmark);
        } else {
            lemma_pattern_end(wild, tame, j, star, qmark);
            if j < tame.len() {
                lemma_skip_skip(tame, j);
                lemma_trailing_stars(wild, tame, i, j + 1, star, qmark);
            }
        }
    }
}

/// Through a star-free pattern segment `[i, k)`, a match can only proceed in
/// lockstep: it consumes exactly `k - i` text symbols and continues from the
/// end of the segment.
pub proof fn lemma_starfree_unwind<S>(wild: Seq<S>, tame: Seq<S>, i: int, k: int, j: int, star: S, qmark: S)
    requires
        0 <= i <= k <= wild.len(),
        0 <= j <= tame.len(),
        forall|d: int| i <= d < k ==> wild[d] != star,
        matches_from(wild, tame, i, j, star, qmark),
    ensures
        j + (k - i) <= tame.len(),
        matches_from(wild, tame, k, j + (k - i), star, qmark),
    decreases k - i,
{
    if i < k {
        if j == tame.len() {
            lemma_text_end(wild, tame, i, star, qmark);
        }
        lemma_step(wild, tame, i, j, star, qmark);
        lemma_starfree_unwind(wild, tame, i + 1, k, j + 1, star, qmark);
    }
}

/// A star-free segment whose symbols all agree with the text (directly or
/// through `qmark`) can be crossed in either direction: matching from its
/// start and from its end are the same question.
pub proof fn lemma_segment<S>(wild: Seq<S>, tame: Seq<S>, aw: int, iw: int, at: int, it: int, star: S, qmark: S)
    requires
        0 <= aw <= iw <= wild.len(),
        0 <= at <= it <= tame.len(),
        iw - aw == it - at,
        forall|d: int| aw <= d < iw ==> wild[d] != star && (wild[d] == qmark || wild[d] == tame[at + (d - aw)]),
    ensures
        matches_from(wild, tame, aw, at, star, qmark) == matches_from(wild, tame, iw, it, star, qmark),
    decreases iw - aw,
{
    if aw < iw {
        lemma_step(wild, tame, aw, at, star, qmark);
        lemma_segment(wild, tame, aw + 1, iw, at + 1, it, star, qmark);
    }
}

/// Splitting a fallback anchor's claim: either the match starts exactly at
/// `j`, or it starts strictly beyond.
pub proof fn lemma_anchored_split<S>(wild: Seq<S>, tame: Seq<S>, i: int, j: int, star: S, qmark: S)
    requires
        0 <= j <= tame.len(),
    ensures
        anchored_matches(wild, tame, i, j, star, qmark) == (matches_from(wild, tame, i, j, star, qmark)
            || anchored_matches(wild, tame, i, j + 1, star, qmark)),
{
    if matches_from(wild, tame, i, j, star, qmark) {
        lemma_anchored_intro(wild, tame, i, j, j, star, qmark);
    }
    if anchored_matches(wild, tame, i, j + 1, star, qmark) {
        let j2 = lemma_anchored_witness(wild, tame, i, j + 1, star, qmark);
        lemma_anchored_intro(wild, tame, i, j, j2, star, qmark);
    }
    if anchored_matches(wild, tame, i, j, star, qmark) && !matches_from(wild, tame, i, j, star, qmark) {
        let j2 = lemma_anchored_witness(wild, tame, i, j, star, qmark);
        lemma_anchored_intro(wild, tame, i, j + 1, j2, star, qmark);
    }
}

/// An anchor whose text position has reached the end of the text claims
/// exactly a match at the end.
pub proof fn lemma_anchored_at_end<S>(wild: Seq<S>, tame: Seq<S>, i: int, star: S, qmark: S)
    ensures
        anchored_matches(wild, tame, i, tame.len() as int, star, qmark) == matches_from(
            wild,
            tame,
            i,
            tame.len() as int,
            star,
            qmark,
        ),
{
    let nt = tame.len() as int;
    if anchored_matches(wild, tame, i, nt, star, qmark) {
        let j2 = lemma_anchored_witness(wild, tame, i, nt, star, qmark);
        assert(j2 == nt);
    }
    if matches_from(wild, tame, i, nt, star, qmark) {
        lemma_anchored_intro(wild, tame, i, nt, nt, star, qmark);
    }
}

/// Committing one `qmark` at the anchor: because `qmark` consumes exactly
/// one arbitrary symbol, moving the anchor past it (and its text symbol)
/// preserves the anchor's claim.
pub proof fn lemma_qmark_anchor_shift<S>(wild: Seq<S>, tame: Seq<S>, i: int, j: int, star: S, qmark: S)
    requires
        0 <= i < wild.len(),
        wild[i] == qmark,
        wild[i] != star,
        0 <= j <= tame.len(),
    ensures
        anchored_matches(wild, tame, i, j, star, qmark) == anchored_matches(wild, tame, i + 1, j + 1, star, qmark),
{
    let nt = tame.len() as int;
    if anchored_matches(wild, tame, i, j, star, qmark) {
        let j2 = lemma_anchored_witness(wild, tame, i, j, star, qmark);
        if j2 == nt {
            lemma_text_end(wild, tame, i, star, qmark);
            assert(false);
        } else {
            lemma_step(wild, tame, i, j2, star, qmark);
            lemma_anchored_intro(wild, tame, i + 1, j + 1, j2 + 1, star, qmark);
        }
    }
    if anchored_matches(wild, tame, i + 1, j + 1, star, qmark) {
        let j3 = lemma_anchored_witness(wild, tame, i + 1, j + 1, star, qmark);
        lemma_step(wild, tame, i, j3 - 1, star, qmark);
        lemma_anchored_intro(wild, tame, i, j, j3 - 1, star, qmark);
    }
}

/// Advancing the anchor to just past a newly met `star` run: with the
/// segment `[aw, iw)` already matched against `[at, it)` and a `star` run
/// `[iw, k)`, the old anchor's claim and the new anchor's claim agree.
pub proof fn lemma_anchor_advance<S>(
    wild: Seq<S>,
    tame: Seq<S>,
    aw: int,
    iw: int,
    at: int,
    it: int,
    k: int,
    star: S,
    qmark: S,
)
    requires
        0 <= aw <= iw < wild.len(),
        0 <= at <= it <= tame.len(),
        iw - aw == it - at,
        forall|d: int| aw <= d < iw ==> wild[d] != star && (wild[d] == qmark || wild[d] == tame[at + (d - aw)]),
        iw < k <= wild.len(),
        forall|d: int| iw <= d < k ==> wild[d] == star,
    ensures
        anchored_matches(wild, tame, aw, at, star, qmark) == anchored_matches(wild, tame, k, it, star, qmark),
{
    if anchored_matches(wild, tame, aw, at, star, qmark) {
        let j2 = lemma_anchored_witness(wild, tame, aw, at, star, qmark);
        lemma_starfree_unwind(wild, tame, aw, iw, j2, star, qmark);
        lemma_star_run(wild, tame, iw, k, j2 + (iw - aw), star, qmark);
        let j3 = lemma_anchored_witness(wild, tame, k, j2 + (iw - aw), star, qmark);
        lemma_anchored_intro(wild, tame, k, it, j3, star, qmark);
    }
    if anchored_matches(wild, tame, k, it, star, qmark) {
        lemma_star_run(wild, tame, iw, k, it, star, qmark);
        lemma_segment(wild, tame, aw, iw, at, it, star, qmark);
        lemma_anchored_intro(wild, tame, aw, at, at, star, qmark);
    }
}

/// One step of the fallback scan: a text symbol that differs from the
/// literal pattern symbol at the anchor cannot begin the match, so the
/// anchor's text position may advance past it.
pub proof fn lemma_scan_step<S>(wild: Seq<S>, tame: Seq<S>, i: int, j: int, star: S, qmark: S)
    requires
        0 <= i < wild.len(),
        wild[i] != star,
        wild[i] != qmark,
        0 <= j < tame.len(),
        tame[j] != wild[i],
    ensures
        anchored_matches(wild, tame, i, j, star, qmark) == anchored_matches(wild, tame, i, j + 1, star, qmark),
{
    lemma_step(wild, tame, i, j, star, qmark);
    lemma_anchored_split(wild, tame, i, j, star, qmark);
}

} // verus!
