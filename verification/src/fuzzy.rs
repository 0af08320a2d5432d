//! Edit distance between names, the basis of fuzzy search.

use crate::text::{chars_of, str_eq};
use vstd::prelude::*;

verus! {

pub open spec fn min3(a: nat, b: nat, c: nat) -> nat {
    if a <= b && a <= c {
        a
    } else if b <= c {
        b
    } else {
        c
    }
}

/// The Levenshtein distance: the least number of single-character
/// insertions, deletions and substitutions that turn `a` into `b`.
pub open spec fn levenshtein(a: Seq<char>, b: Seq<char>) -> nat
    decreases a.len() + b.len(),
{
    if a.len() == 0 {
        b.len()
    } else if b.len() == 0 {
        a.len()
    } else {
        min3(
            levenshtein(a.drop_last(), b) + 1,
            levenshtein(a, b.drop_last()) + 1,
            levenshtein(a.drop_last(), b.drop_last()) + if a.last() == b.last() {
                0nat
            } else {
                1nat
            },
        )
    }
}

/// The distance is symmetric.
pub proof fn lemma_levenshtein_symmetric(a: Seq<char>, b: Seq<char>)
    ensures
        levenshtein(a, b) == levenshtein(b, a),
    decreases a.len() + b.len(),
{
    if a.len() > 0 && b.len() > 0 {
        lemma_levenshtein_symmetric(a.drop_last(), b);
        lemma_levenshtein_symmetric(a, b.drop_last());
        lemma_levenshtein_symmetric(a.drop_last(), b.drop_last());
    }
}

/// A name is at distance zero from itself.
pub proof fn lemma_levenshtein_self(a: Seq<char>)
    ensures
        levenshtein(a, a) == 0,
    decreases a.len(),
{
    if a.len() > 0 {
        lemma_levenshtein_self(a.drop_last());
    }
}

/// The distance never exceeds the length of the longer name.
pub proof fn lemma_levenshtein_bound(a: Seq<char>, b: Seq<char>)
    ensures
        levenshtein(a, b) <= if a.len() >= b.len() {
            a.len()
        } else {
            b.len()
        },
    decreases a.len() + b.len(),
{
    if a.len() > 0 && b.len() > 0 {
        lemma_levenshtein_bound(a.drop_last(), b.drop_last());
    }
}

/// The distance is zero exactly when the names are equal.
pub proof fn lemma_levenshtein_zero(a: Seq<char>, b: Seq<char>)
    ensures
        levenshtein(a, b) == 0 <==> a == b,
    decreases a.len() + b.len(),
{
    if a == b {
        lemma_levenshtein_self(a);
    } else if a.len() > 0 && b.len() > 0 {
        lemma_levenshtein_zero(a.drop_last(), b);
        lemma_levenshtein_zero(a, b.drop_last());
        lemma_levenshtein_zero(a.drop_last(), b.drop_last());
        assert(a =~= a.drop_last().push(a.last()));
        assert(b =~= b.drop_last().push(b.last()));
        if levenshtein(a, b) == 0 {
            assert(levenshtein(a.drop_last(), b.drop_last()) == 0);
            assert(a.last() == b.last());
            assert(a.drop_last() == b.drop_last());
            assert(false);
        }
    } else if a.len() == 0 {
        assert(b.len() > 0) by {
            if b.len() == 0 {
                assert(a =~= b);
            }
        }
    }
}

/// One column of the distance table: `prev[i]` holds the distance between
/// the first `i` characters of `long` and the first `j` of `short`.
pub open spec fn column(prev: Seq<usize>, long: Seq<char>, short: Seq<char>, j: int) -> bool {
    &&& prev.len() == long.len() + 1
    &&& forall|i: int|
        0 <= i <= long.len() ==> #[trigger] prev[i] == levenshtein(
            long.subrange(0, i),
            short.subrange(0, j),
        )
}

/// The Levenshtein distance between two strings, counted in characters.
pub fn distance(s1_in: &str, s2_in: &str) -> (d: usize)
    requires
        s1_in@.len() < usize::MAX,
        s2_in@.len() < usize::MAX,
    ensures
        d == levenshtein(s1_in@, s2_in@),
{
    if str_eq(s1_in, s2_in) {
        proof {
            lemma_levenshtein_self(s1_in@);
        }
        return 0;
    }
    let a = chars_of(s1_in);
    let b = chars_of(s2_in);
    // Let `long` be the longer of the two (the first when they tie).

    let swapped = b.len() > a.len();
    let (long, short) = if swapped {
        (b, a)
    } else {
        (a, b)
    };
    let n1 = long.len();
    let n2 = short.len();
    proof {
        if swapped {
            lemma_levenshtein_symmetric(s1_in@, s2_in@);
        }
    }
    let mut prev: Vec<usize> = Vec::new();
    let mut i: usize = 0;
    while i <= n1
        invariant
            n1 == long@.len(),
            n1 < usize::MAX,
            i <= n1 + 1,
            prev@.len() == i,
            forall|k: int|
                0 <= k < i ==> #[trigger] prev@[k] == levenshtein(
                    long@.subrange(0, k),
                    short@.subrange(0, 0),
                ),
        decreases n1 + 1 - i,
    {
        proof {
            assert(short@.subrange(0, 0) =~= Seq::<char>::empty());
            assert(long@.subrange(0, i as int).len() == i);
        }
        prev.push(i);
        i = i + 1;
    }
    let mut j: usize = 0;
    while j < n2
        invariant
            n1 == long@.len(),
            n2 == short@.len(),
            n2 <= n1 < usize::MAX,
            j <= n2,
            column(prev@, long@, short@, j as int),
        decreases n2 - j,
    {
        let jc = short[j];
        let mut cur: Vec<usize> = Vec::new();
        proof {
            assert(long@.subrange(0, 0) =~= Seq::<char>::empty());
            assert(short@.subrange(0, j as int + 1).len() == j + 1);
        }
        cur.push(j + 1);
        let mut i: usize = 0;
        while i < n1
            invariant
                n1 == long@.len(),
                n2 == short@.len(),
                n2 <= n1 < usize::MAX,
                j < n2,
                jc == short@[j as int],
                i <= n1,
                column(prev@, long@, short@, j as int),
                cur@.len() == i + 1,
                forall|k: int|
                    0 <= k <= i ==> #[trigger] cur@[k] == levenshtein(
                        long@.subrange(0, k),
                        short@.subrange(0, j + 1),
                    ),
            decreases n1 - i,
        {
            let ic = long[i];
            let sub_cost: usize = if ic == jc {
                0
            } else {
                1
            };
            proof {
                let la = long@.subrange(0, i + 1);
                let sb = short@.subrange(0, j + 1);
                assert(la.drop_last() =~= long@.subrange(0, i as int));
                assert(sb.drop_last() =~= short@.subrange(0, j as int));
                assert(la.last() == ic);
                assert(sb.last() == jc);
                assert(prev@[i as int] == levenshtein(la.drop_last(), sb.drop_last()));
                assert(prev@[i + 1] == levenshtein(la, sb.drop_last()));
                assert(cur@[i as int] == levenshtein(la.drop_last(), sb));
                lemma_levenshtein_bound(la, sb.drop_last());
                lemma_levenshtein_bound(la.drop_last(), sb);
                lemma_levenshtein_bound(la.drop_last(), sb.drop_last());
            }
            let x = prev[i + 1] + 1;
            let y = cur[i] + 1;
            let z = prev[i] + sub_cost;
            let best = if x <= y && x <= z {
                x
            } else if y <= z {
                y
            } else {
                z
            };
            cur.push(best);
            i = i + 1;
        }
        prev = cur;
        j = j + 1;
    }
    proof {
        assert(long@.subrange(0, n1 as int) =~= long@);
        assert(short@.subrange(0, n2 as int) =~= short@);
        assert(prev@[n1 as int] == levenshtein(long@, short@));
    }
    prev[n1]
}

/// Something that can be found by name: an area or a stop.
pub trait Identifiable {
    fn id(&self) -> &str;

    fn name(&self) -> &str;

    /// The lowercased name that searches compare with.
    fn normalized_name(&self) -> &str;
}

} // verus!
