use vstd::prelude::*;
use crate::lang::text::to_chars;

verus! {

pub open spec fn min2(a: nat, b: nat) -> nat {
    if a <= b {
        a
    } else {
        b
    }
}

/// The edit distance between two words: the least number of insertions,
/// deletions and substitutions of one character that turn `a` into `b`.
pub open spec fn edit_distance(a: Seq<char>, b: Seq<char>) -> nat
    decreases a.len() + b.len(),
{
    if a.len() == 0 {
        b.len()
    } else if b.len() == 0 {
        a.len()
    } else {
        let subst: nat = if a.last() == b.last() {
            0
        } else {
            1
        };
        min2(
            min2(edit_distance(a.drop_last(), b) + 1, edit_distance(a, b.drop_last()) + 1),
            edit_distance(a.drop_last(), b.drop_last()) + subst,
        )
    }
}

pub open spec fn max2(a: nat, b: nat) -> nat {
    if a >= b {
        a
    } else {
        b
    }
}

/// The distance is at most the length of the longer word.
pub proof fn lemma_distance_bound(a: Seq<char>, b: Seq<char>)
    ensures
        edit_distance(a, b) <= max2(a.len(), b.len()),
    decreases a.len() + b.len(),
{
    if a.len() > 0 && b.len() > 0 {
        lemma_distance_bound(a.drop_last(), b.drop_last());
    }
}

pub fn min_u128(a: u128, b: u128) -> (r: u128)
    ensures
        r == min2(a as nat, b as nat),
{
    if a <= b {
        a
    } else {
        b
    }
}

/// The edit distance of two character vectors, by rows of the distance table.
/// A row holds the distances to the prefixes of `b` of length 1 and more.
pub fn distance_chars(a: &Vec<char>, b: &Vec<char>) -> (d: usize)
    ensures
        d == edit_distance(a@, b@),
{
    let n = a.len();
    let m = b.len();
    let mut prev: Vec<usize> = Vec::new();
    let mut j: usize = 0;
    assert(a@.take(0) =~= Seq::<char>::empty());
    while j < m
        invariant
            j <= m,
            m == b.len(),
            prev.len() == j,
            forall|k: int| 0 <= k < j ==> prev@[k] == k + 1,
        decreases m - j,
    {
        prev.push(j + 1);
        j += 1;
    }
    assert forall|k: int| 0 <= k < m implies prev@[k] == edit_distance(
        a@.take(0),
        b@.take(k + 1),
    ) by {
        assert(a@.take(0).len() == 0);
    }
    let mut i: usize = 0;
    while i < n
        invariant
            i <= n,
            n == a.len(),
            m == b.len(),
            prev.len() == m,
            forall|k: int|
                0 <= k < m ==> prev@[k] == edit_distance(a@.take(i as int), b@.take(k + 1)),
        decreases n - i,
    {
        let ghost ai = a@.take(i as int);
        let ghost an = a@.take(i + 1);
        let mut cur: Vec<usize> = Vec::new();
        let mut j: usize = 0;
        while j < m
            invariant
                j <= m,
                i < n,
                n == a.len(),
                m == b.len(),
                prev.len() == m,
                cur.len() == j,
                ai == a@.take(i as int),
                an == a@.take(i + 1),
                forall|k: int| 0 <= k < m ==> prev@[k] == edit_distance(ai, b@.take(k + 1)),
                forall|k: int| 0 <= k < j ==> cur@[k] == edit_distance(an, b@.take(k + 1)),
            decreases m - j,
        {
            let ghost bj = b@.take(j + 1);
            let ghost bp = b@.take(j as int);
            proof {
                assert(an.drop_last() =~= ai);
                assert(bj.drop_last() =~= bp);
                assert(an.last() == a@[i as int]);
                assert(bj.last() == b@[j as int]);
                lemma_distance_bound(an, bj);
                if j == 0 {
                    assert(bp.len() == 0);
                }
            }
            let subst: u128 = if a[i] == b[j] {
                0
            } else {
                1
            };
            let left: usize = if j == 0 {
                i + 1
            } else {
                cur[j - 1]
            };
            let diag: usize = if j == 0 {
                i
            } else {
                prev[j - 1]
            };
            let del: u128 = prev[j] as u128 + 1;
            let ins: u128 = left as u128 + 1;
            let rep: u128 = diag as u128 + subst;
            let best = min_u128(min_u128(del, ins), rep);
            assert(prev@[j as int] == edit_distance(ai, b@.take(j + 1)));
            assert(left == edit_distance(an, bp)) by {
                if j > 0 {
                    assert(cur@[j - 1] == edit_distance(an, b@.take((j - 1) + 1)));
                }
            }
            assert(diag == edit_distance(ai, bp)) by {
                if j > 0 {
                    assert(prev@[j - 1] == edit_distance(ai, b@.take((j - 1) + 1)));
                }
            }
            assert(best == edit_distance(an, bj));
            cur.push(best as usize);
            j += 1;
        }
        prev = cur;
        i += 1;
    }
    assert(a@.take(n as int) =~= a@);
    if m == 0 {
        n
    } else {
        assert(b@.take(m as int) =~= b@);
        prev[m - 1]
    }
}

/// The characters that occur in both words.
pub open spec fn common_chars(a: Seq<char>, b: Seq<char>) -> Set<char> {
    a.to_set().intersect(b.to_set())
}

pub fn contains_char(v: &Vec<char>, c: char) -> (r: bool)
    ensures
        r == v@.contains(c),
{
    let mut i: usize = 0;
    while i < v.len()
        invariant
            i <= v.len(),
            forall|k: int| 0 <= k < i ==> v@[k] != c,
        decreases v.len() - i,
    {
        if v[i] == c {
            return true;
        }
        i += 1;
    }
    false
}

/// Count the distinct characters that two strings share.
pub fn common_unique_chars(a: &str, b: &str) -> (n: usize)
    ensures
        n == common_chars(a@, b@).len(),
{
    let av = to_chars(a);
    let bv = to_chars(b);
    let mut seen: Vec<char> = Vec::new();
    let mut i: usize = 0;
    assert(av@.take(0).to_set().intersect(bv@.to_set()) =~= Set::<char>::empty());
    assert(seen@.to_set() =~= Set::<char>::empty());
    while i < av.len()
        invariant
            i <= av.len(),
            seen@.no_duplicates(),
            seen@.to_set() == common_chars(av@.take(i as int), bv@),
        decreases av.len() - i,
    {
        let c = av[i];
        proof {
            assert(av@.take(i + 1) =~= av@.take(i as int).push(c));
            av@.take(i as int).lemma_push_to_set_commute(c);
        }
        if contains_char(&bv, c) && !contains_char(&seen, c) {
            let ghost before = seen@;
            seen.push(c);
            proof {
                before.lemma_push_to_set_commute(c);
                assert(seen@.to_set() =~= common_chars(av@.take(i + 1), bv@));
            }
        } else {
            assert(seen@.to_set() =~= common_chars(av@.take(i + 1), bv@));
        }
        i += 1;
    }
    assert(av@.take(av.len() as int) =~= av@);
    proof {
        seen@.unique_seq_to_set();
    }
    seen.len()
}

/// Compute the Levenshtein edit distance of two strings, counted in characters.
pub fn levenshtein_distance(a: &str, b: &str) -> (d: usize)
    ensures
        d == edit_distance(a@, b@),
{
    let av = to_chars(a);
    let bv = to_chars(b);
    distance_chars(&av, &bv)
}

} // verus!
