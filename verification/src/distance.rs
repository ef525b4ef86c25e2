//! Approximate string distance: the Damerau-Levenshtein metric (optimal
//! string alignment), used to rank links by closeness of their source key
//! to the query text.

use vstd::prelude::*;
use vstd::string::StrSliceExecFns;

verus! {

/// The least of three numbers.
pub open spec fn min3(a: int, b: int, c: int) -> int {
    if a <= b && a <= c {
        a
    } else if b <= c {
        b
    } else {
        c
    }
}

/// The Damerau-Levenshtein distance between `a` and `b`: the least number
/// of single-character insertions, deletions, substitutions and adjacent
/// transpositions turning one into the other (each position edited once).
pub open spec fn spec_damlev(a: Seq<char>, b: Seq<char>) -> int
    decreases a.len() + b.len(),
{
    if a.len() == 0 {
        b.len() as int
    } else if b.len() == 0 {
        a.len() as int
    } else {
        let cost: int = if a[0] == b[0] {
            0
        } else {
            1
        };
        let base = min3(
            spec_damlev(a.drop_first(), b) + 1,
            spec_damlev(a, b.drop_first()) + 1,
            spec_damlev(a.drop_first(), b.drop_first()) + cost,
        );
        if a.len() >= 2 && b.len() >= 2 && a[0] == b[1] && a[1] == b[0] {
            let tr = spec_damlev(a.skip(2), b.skip(2)) + 1;
            if tr < base {
                tr
            } else {
                base
            }
        } else {
            base
        }
    }
}

/// The distance is nonnegative and at most the longer length.
pub proof fn lemma_damlev_bounds(a: Seq<char>, b: Seq<char>)
    ensures
        spec_damlev(a, b) >= 0,
        spec_damlev(a, b) <= if a.len() >= b.len() {
            a.len() as int
        } else {
            b.len() as int
        },
    decreases a.len() + b.len(),
{
    if a.len() == 0 || b.len() == 0 {
    } else {
        lemma_damlev_bounds(a.drop_first(), b);
        lemma_damlev_bounds(a, b.drop_first());
        lemma_damlev_bounds(a.drop_first(), b.drop_first());
        if a.len() >= 2 && b.len() >= 2 && a[0] == b[1] && a[1] == b[0] {
            lemma_damlev_bounds(a.skip(2), b.skip(2));
        }
    }
}

/// The distance of the suffixes of `a` and `b` starting at `i` and `j`.
fn damlev_rec(a: &str, b: &str, i: usize, j: usize, la: usize, lb: usize) -> (d: u128)
    requires
        la == a@.len(),
        lb == b@.len(),
        i <= la,
        j <= lb,
    ensures
        d == spec_damlev(a@.skip(i as int), b@.skip(j as int)),
    decreases (la - i) + (lb - j),
{
    let ghost sa = a@.skip(i as int);
    let ghost sb = b@.skip(j as int);
    if i == la {
        return (lb - j) as u128;
    }
    if j == lb {
        return (la - i) as u128;
    }
    let ca = a.get_char(i);
    let cb = b.get_char(j);
    proof {
        assert(sa[0] == ca && sb[0] == cb);
        assert(sa.drop_first() =~= a@.skip(i + 1));
        assert(sb.drop_first() =~= b@.skip(j + 1));
        lemma_damlev_bounds(a@.skip(i + 1), sb);
        lemma_damlev_bounds(sa, b@.skip(j + 1));
        lemma_damlev_bounds(a@.skip(i + 1), b@.skip(j + 1));
    }
    let cost: u128 = if ca == cb {
        0
    } else {
        1
    };
    let del = damlev_rec(a, b, i + 1, j, la, lb) + 1;
    let ins = damlev_rec(a, b, i, j + 1, la, lb) + 1;
    let sub = damlev_rec(a, b, i + 1, j + 1, la, lb) + cost;
    let mut best = del;
    if ins < best {
        best = ins;
    }
    if sub < best {
        best = sub;
    }
    proof {
        assert(best == min3(
            spec_damlev(sa.drop_first(), sb) + 1,
            spec_damlev(sa, sb.drop_first()) + 1,
            spec_damlev(sa.drop_first(), sb.drop_first()) + (if sa[0] == sb[0] {
                0int
            } else {
                1int
            }),
        ));
    }
    if i + 1 < la && j + 1 < lb {
        let ca2 = a.get_char(i + 1);
        let cb2 = b.get_char(j + 1);
        if ca == cb2 && ca2 == cb {
            proof {
                assert(sa[1] == ca2 && sb[1] == cb2);
                assert(sa.skip(2) =~= a@.skip(i + 2));
                assert(sb.skip(2) =~= b@.skip(j + 2));
                lemma_damlev_bounds(a@.skip(i + 2), b@.skip(j + 2));
            }
            let tr = damlev_rec(a, b, i + 2, j + 2, la, lb) + 1;
            if tr < best {
                best = tr;
            }
            return best;
        }
        proof {
            assert(!(sa.len() >= 2 && sb.len() >= 2 && sa[0] == sb[1] && sa[1] == sb[0]));
        }
        return best;
    }
    proof {
        assert(!(sa.len() >= 2 && sb.len() >= 2));
    }
    best
}

/// The Damerau-Levenshtein distance between two strings.
pub fn damlev(a: &str, b: &str) -> (d: usize)
    ensures
        d == spec_damlev(a@, b@),
{
    let la = a.unicode_len();
    let lb = b.unicode_len();
    let d = damlev_rec(a, b, 0, 0, la, lb);
    proof {
        assert(a@.skip(0) =~= a@);
        assert(b@.skip(0) =~= b@);
        lemma_damlev_bounds(a@, b@);
    }
    d as usize
}

} // verus!
