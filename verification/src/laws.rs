//! Laws of the matching relation: what holds of every pattern and text.

use vstd::prelude::*;
use vstd::utf8::encode_utf8;
use vstd::utf8::is_ascii_chars;
use vstd::utf8::is_ascii_chars_encode_utf8;

use crate::model::wild_matches;

verus! {

/// The empty pattern matches exactly the empty text; in particular it never
/// matches a non-empty text.
pub proof fn lemma_empty_pattern<S>(tame: Seq<S>, star: S, qmark: S)
    ensures
        wild_matches(Seq::<S>::empty(), tame, star, qmark) == (tame.len() == 0),
{
}

/// The empty text is matched exactly by the patterns that consist only of
/// `star` symbols — the empty pattern among them.
pub proof fn lemma_empty_text<S>(wild: Seq<S>, star: S, qmark: S)
    ensures
        wild_matches(wild, Seq::<S>::empty(), star, qmark) == (forall|i: int|
            0 <= i < wild.len() ==> wild[i] == star),
    decreases wild.len(),
{
    if wild.len() == 0 {
    } else if wild[0] == star {
        lemma_empty_text(wild.skip(1), star, qmark);
        if forall|i: int| 0 <= i < wild.skip(1).len() ==> wild.skip(1)[i] == star {
            assert forall|i: int| 0 <= i < wild.len() implies wild[i] == star by {
                if i > 0 {
                    assert(wild.skip(1)[i - 1] == star);
                }
            }
        }
        if forall|i: int| 0 <= i < wild.len() ==> wild[i] == star {
            assert forall|i: int| 0 <= i < wild.skip(1).len() implies wild.skip(1)[i] == star by {
                assert(wild[i + 1] == star);
            }
        }
    } else {
        assert(wild[0] != star);
    }
}

/// A pattern without wildcards matches exactly one text: itself,
/// element for element, with equal length.
pub proof fn lemma_no_wildcards<S>(wild: Seq<S>, tame: Seq<S>, star: S, qmark: S)
    requires
        forall|i: int| 0 <= i < wild.len() ==> wild[i] != star && wild[i] != qmark,
    ensures
        wild_matches(wild, tame, star, qmark) == (wild == tame),
    decreases wild.len(),
{
    if wild.len() == 0 {
        if tame.len() == 0 {
            assert(wild =~= tame);
        }
    } else if tame.len() == 0 {
        assert(wild.len() != tame.len());
    } else {
        assert forall|i: int| 0 <= i < wild.skip(1).len() implies wild.skip(1)[i] != star && wild.skip(1)[i]
            != qmark by {
            assert(wild[i + 1] != star && wild[i + 1] != qmark);
        }
        lemma_no_wildcards(wild.skip(1), tame.skip(1), star, qmark);
        if wild[0] == tame[0] && wild.skip(1) == tame.skip(1) {
            assert forall|i: int| 0 <= i < wild.len() implies wild[i] == tame[i] by {
                if i > 0 {
                    assert(wild.skip(1)[i - 1] == tame.skip(1)[i - 1]);
                }
            }
            assert(wild =~= tame);
        }
        if wild == tame {
            assert(wild[0] == tame[0]);
            assert(wild.skip(1) =~= tame.skip(1));
        }
    }
}

/// Duplicating a `star` changes nothing: inserting a second `star` beside
/// an existing one yields a pattern matching exactly the same texts. Read
/// backwards and applied repeatedly: collapsing any run of consecutive
/// `star` symbols to a single `star` never changes the result.
pub proof fn lemma_star_collapse<S>(wild: Seq<S>, tame: Seq<S>, i: int, star: S, qmark: S)
    requires
        0 <= i < wild.len(),
        wild[i] == star,
    ensures
        wild_matches(wild.insert(i, star), tame, star, qmark) == wild_matches(wild, tame, star, qmark),
    decreases i, tame.len(),
{
    let dup = wild.insert(i, star);
    wild.insert_ensures(i, star);
    if i == 0 {
        assert(dup.skip(1) =~= wild);
        if tame.len() > 0 {
            lemma_star_collapse(wild, tame.skip(1), i, star, qmark);
        }
    } else {
        wild.skip(1).insert_ensures(i - 1, star);
        assert(dup.skip(1) =~= wild.skip(1).insert(i - 1, star));
        if wild[0] == star {
            if tame.len() > 0 {
                lemma_star_collapse(wild, tame.skip(1), i, star, qmark);
            }
            lemma_star_collapse(wild.skip(1), tame, i - 1, star, qmark);
        } else if tame.len() == 0 {
        } else if wild[0] == qmark || wild[0] == tame[0] {
            lemma_star_collapse(wild.skip(1), tame.skip(1), i - 1, star, qmark);
        }
    }
}

/// Collapsing a whole run of consecutive `star` symbols `[i, k)` to the
/// single `star` at `i` never changes the result, for any text.
pub proof fn lemma_star_run_collapse<S>(wild: Seq<S>, tame: Seq<S>, i: int, k: int, star: S, qmark: S)
    requires
        0 <= i < k <= wild.len(),
        forall|d: int| i <= d < k ==> wild[d] == star,
    ensures
        wild_matches(wild.subrange(0, i + 1) + wild.skip(k), tame, star, qmark) == wild_matches(
            wild,
            tame,
            star,
            qmark,
        ),
    decreases k - i,
{
    if k == i + 1 {
        assert(wild.subrange(0, i + 1) + wild.skip(k) =~= wild);
    } else {
        let shorter = wild.remove(i);
        wild.remove_ensures(i);
        assert(shorter[i] == star);
        assert(shorter.insert(i, star) =~= wild) by {
            shorter.insert_ensures(i, star);
        }
        lemma_star_collapse(shorter, tame, i, star, qmark);
        assert forall|d: int| i <= d < k - 1 implies shorter[d] == star by {
            if d == i {
            } else {
                assert(shorter[d] == wild[d + 1]);
            }
        }
        lemma_star_run_collapse(shorter, tame, i, k - 1, star, qmark);
        assert(shorter.subrange(0, i + 1) + shorter.skip(k - 1) =~= wild.subrange(0, i + 1) + wild.skip(k));
    }
}

/// `qmark` consumes exactly one arbitrary text symbol: a pattern headed by
/// `qmark` matches exactly when the text is non-empty and the rest of the
/// pattern matches the rest of the text.
pub proof fn lemma_qmark_one<S>(wild: Seq<S>, tame: Seq<S>, star: S, qmark: S)
    requires
        wild.len() > 0,
        wild[0] == qmark,
        qmark != star,
    ensures
        wild_matches(wild, tame, star, qmark) == (tame.len() > 0 && wild_matches(
            wild.skip(1),
            tame.skip(1),
            star,
            qmark,
        )),
{
}

/// A pattern of `n` consecutive `qmark` symbols matches exactly the texts
/// of length `n`.
pub proof fn lemma_qmark_run<S>(tame: Seq<S>, n: nat, star: S, qmark: S)
    requires
        qmark != star,
    ensures
        wild_matches(Seq::new(n, |i: int| qmark), tame, star, qmark) == (tame.len() == n),
    decreases n,
{
    let wild = Seq::new(n, |i: int| qmark);
    if n > 0 && tame.len() > 0 {
        assert(wild.skip(1) =~= Seq::new((n - 1) as nat, |i: int| qmark));
        lemma_qmark_run(tame.skip(1), (n - 1) as nat, star, qmark);
    }
}

/// Matching is invariant under renaming the alphabet along any injection
/// that carries the wildcard symbols over.
pub proof fn lemma_wild_matches_map<S, U>(wild: Seq<S>, tame: Seq<S>, star: S, qmark: S, f: spec_fn(S) -> U)
    requires
        forall|x: S, y: S| #![trigger f(x), f(y)] f(x) == f(y) ==> x == y,
    ensures
        wild_matches(wild.map_values(f), tame.map_values(f), f(star), f(qmark)) == wild_matches(
            wild,
            tame,
            star,
            qmark,
        ),
    decreases wild.len(), tame.len(),
{
    let wm = wild.map_values(f);
    let tm = tame.map_values(f);
    if wild.len() == 0 {
    } else {
        assert(wm[0] == f(wild[0]));
        assert(wild.skip(1).map_values(f) =~= wm.skip(1));
        if tame.len() > 0 {
            assert(tame.skip(1).map_values(f) =~= tm.skip(1));
            assert(tm[0] == f(tame[0]));
        }
        if wild[0] == star {
            lemma_wild_matches_map(wild.skip(1), tame, star, qmark, f);
            if tame.len() > 0 {
                lemma_wild_matches_map(wild, tame.skip(1), star, qmark, f);
            }
        } else if tame.len() == 0 {
        } else if wild[0] == qmark || wild[0] == tame[0] {
            lemma_wild_matches_map(wild.skip(1), tame.skip(1), star, qmark, f);
        }
    }
}

/// On ASCII content the byte-level view and the decoded-scalar view of the
/// same strings agree: matching the UTF-8 encodings unit by unit returns
/// the same answer as matching the decoded scalar sequences.
pub proof fn lemma_cross_variant_agreement(wild: Seq<char>, tame: Seq<char>)
    requires
        is_ascii_chars(wild),
        is_ascii_chars(tame),
    ensures
        wild_matches(encode_utf8(wild), encode_utf8(tame), '*' as u8, '?' as u8) == wild_matches(
            wild,
            tame,
            '*',
            '?',
        ),
{
    let wb = encode_utf8(wild);
    let tb = encode_utf8(tame);
    let f = |b: u8| b as char;
    is_ascii_chars_encode_utf8(wild);
    is_ascii_chars_encode_utf8(tame);
    assert forall|x: u8, y: u8| #![trigger f(x), f(y)] f(x) == f(y) implies x == y by {}
    assert(wb.map_values(f) =~= wild) by {
        assert forall|i: int| 0 <= i < wb.len() implies wb.map_values(f)[i] == wild[i] by {
            assert(wb[i] == wild[i] as u8);
            assert('\0' <= wild[i] <= '\u{7f}');
        }
    }
    assert(tb.map_values(f) =~= tame) by {
        assert forall|i: int| 0 <= i < tb.len() implies tb.map_values(f)[i] == tame[i] by {
            assert(tb[i] == tame[i] as u8);
            assert('\0' <= tame[i] <= '\u{7f}');
        }
    }
    lemma_wild_matches_map(wb, tb, '*' as u8, '?' as u8, f);
    assert(f('*' as u8) == '*');
    assert(f('?' as u8) == '?');
}

} // verus!
