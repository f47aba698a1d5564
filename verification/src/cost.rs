//! How plausible a correction is, as a small cost used to rank suggestions.
//!
//! The search itself stays at exact edit distance; this only orders its hits.
//! One-key Macedonian slips (к/ќ, е/ѐ) cost 1, other substitutions 2; a single
//! adjacent transposition costs 1 and a single inserted or deleted letter 2.

use vstd::prelude::*;

verus! {

broadcast use vstd::seq_lib::group_seq_properties;

/// Letters a Macedonian typist confuses with one slip: `(a, b)` in one
/// direction of the pair list.
pub open spec fn confusable_pair(a: char, b: char) -> bool {
    ||| (a == 'к' && b == 'ќ')
    ||| (a == 'г' && b == 'ѓ')
    ||| (a == 'с' && b == 'ѕ')
    ||| (a == 'з' && b == 'ѕ')
    ||| (a == 'џ' && b == 'ч')
    ||| (a == 'е' && b == 'ѐ')
    ||| (a == 'и' && b == 'ѝ')
    ||| (a == 'о' && b == 'у')
}

/// Cost of substituting `a` for `b`: nothing when equal, 1 for a confusable
/// pair (either way round), 2 otherwise.
pub open spec fn substitution_cost(a: char, b: char) -> nat {
    if a == b {
        0
    } else if confusable_pair(a, b) || confusable_pair(b, a) {
        1
    } else {
        2
    }
}

/// `query` and `candidate` differ only by two adjacent letters swapped.
pub open spec fn is_transposition(query: Seq<char>, candidate: Seq<char>) -> bool {
    &&& query.len() == candidate.len()
    &&& exists|i: int|
        #![trigger query[i], candidate[i]]
        0 <= i && i + 1 < query.len() && query[i] != candidate[i] && query[i + 1] != candidate[i
            + 1] && query[i] == candidate[i + 1] && query[i + 1] == candidate[i] && forall|j: int|
            0 <= j < query.len() && j != i && j != i + 1 ==> #[trigger] query[j] == candidate[j]
}

/// The longer of two words with one letter removed is the shorter.
pub open spec fn is_single_indel(query: Seq<char>, candidate: Seq<char>) -> bool {
    ||| (query.len() == candidate.len() + 1 && exists|p: int|
        0 <= p < query.len() && #[trigger] query.remove(p) == candidate)
    ||| (candidate.len() == query.len() + 1 && exists|p: int|
        0 <= p < candidate.len() && #[trigger] candidate.remove(p) == query)
}

/// Sum of the substitution costs of the first `n` aligned letters.
pub open spec fn aligned_cost(query: Seq<char>, candidate: Seq<char>, n: int) -> nat
    decreases n,
{
    if n <= 0 {
        0
    } else {
        aligned_cost(query, candidate, n - 1) + substitution_cost(query[n - 1], candidate[n - 1])
    }
}

/// Positional comparison: aligned substitution costs over the shared length,
/// plus 2 per letter of length difference.
pub open spec fn positional_cost(query: Seq<char>, candidate: Seq<char>) -> nat {
    let shared = if query.len() <= candidate.len() {
        query.len()
    } else {
        candidate.len()
    };
    let gap: nat = if query.len() <= candidate.len() {
        (candidate.len() - query.len()) as nat
    } else {
        (query.len() - candidate.len()) as nat
    };
    aligned_cost(query, candidate, shared as int) + 2 * gap
}

/// The ranking cost of `candidate` as a correction of `query`.
pub open spec fn correction_cost(query: Seq<char>, candidate: Seq<char>) -> nat {
    if is_transposition(query, candidate) {
        1
    } else if is_single_indel(query, candidate) {
        2
    } else {
        positional_cost(query, candidate)
    }
}

/// Cost of substituting `a` for `b` when reranking suggestions.
///
/// One-key Macedonian slips (к/ќ, е/ѐ) cost 1, everything else 2.
pub fn confusion_cost(a: char, b: char) -> (r: u32)
    ensures
        r == substitution_cost(a, b),
{
    if a == b {
        return 0;
    }
    let pairs: [(char, char); 8] = [
        ('к', 'ќ'),
        ('г', 'ѓ'),
        ('с', 'ѕ'),
        ('з', 'ѕ'),
        ('џ', 'ч'),
        ('е', 'ѐ'),
        ('и', 'ѝ'),
        ('о', 'у'),
    ];
    let mut i: usize = 0;
    while i < 8
        invariant
            0 <= i <= 8,
            pairs@ == seq![
                ('к', 'ќ'),
                ('г', 'ѓ'),
                ('с', 'ѕ'),
                ('з', 'ѕ'),
                ('џ', 'ч'),
                ('е', 'ѐ'),
                ('и', 'ѝ'),
                ('о', 'у'),
            ],
            forall|k: int|
                0 <= k < i ==> !(pairs@[k] == (a, b) || pairs@[k] == (b, a)),
        decreases 8 - i,
    {
        let (x, y) = pairs[i];
        if (x == a && y == b) || (x == b && y == a) {
            return 1;
        }
        i = i + 1;
    }
    proof {
        assert(!(pairs@[0] == (a, b) || pairs@[0] == (b, a)));
        assert(!(pairs@[1] == (a, b) || pairs@[1] == (b, a)));
        assert(!(pairs@[2] == (a, b) || pairs@[2] == (b, a)));
        assert(!(pairs@[3] == (a, b) || pairs@[3] == (b, a)));
        assert(!(pairs@[4] == (a, b) || pairs@[4] == (b, a)));
        assert(!(pairs@[5] == (a, b) || pairs@[5] == (b, a)));
        assert(!(pairs@[6] == (a, b) || pairs@[6] == (b, a)));
        assert(!(pairs@[7] == (a, b) || pairs@[7] == (b, a)));
    }
    2
}

/// Whether the two words differ exactly by one swap of adjacent letters.
fn transposed(query: &[char], candidate: &[char]) -> (r: bool)
    ensures
        r == is_transposition(query@, candidate@),
{
    if query.len() != candidate.len() {
        return false;
    }
    let n = query.len();
    let mut count: usize = 0;
    let mut first: usize = 0;
    let mut second: usize = 0;
    let mut i: usize = 0;
    while i < n
        invariant
            0 <= i <= n,
            n == query@.len(),
            n == candidate@.len(),
            count <= i,
            count <= 2 || count == 3,
            count >= 1 ==> first < i && query@[first as int] != candidate@[first as int],
            count >= 2 ==> first < second < i && query@[second as int] != candidate@[second as int],
            count == 0 ==> forall|j: int| 0 <= j < i ==> query@[j] == candidate@[j],
            count == 1 ==> forall|j: int| 0 <= j < i && j != first ==> query@[j] == candidate@[j],
            count == 2 ==> forall|j: int|
                0 <= j < i && j != first && j != second ==> query@[j] == candidate@[j],
            count == 3 ==> exists|j: int|
                0 <= j < i && j != first && j != second && query@[j] != candidate@[j],
        decreases n - i,
    {
        if query[i] != candidate[i] {
            if count == 0 {
                first = i;
                count = 1;
            } else if count == 1 {
                second = i;
                count = 2;
            } else {
                proof {
                    if count == 2 {
                        assert(i != first && i != second);
                    }
                }
                count = 3;
            }
        }
        i = i + 1;
    }
    let r = count == 2 && second == first + 1 && query[first] == candidate[second]
        && query[second] == candidate[first];
    proof {
        let q = query@;
        let c = candidate@;
        if r {
            assert(0 <= first && first + 1 < q.len() && q[first as int] != c[first as int] && q[first
                + 1] != c[first + 1] && q[first as int] == c[first + 1] && q[first + 1] == c[first as int]);
        }
        if is_transposition(q, c) {
            let k = choose|k: int|
                #![trigger q[k], c[k]]
                0 <= k && k + 1 < q.len() && q[k] != c[k] && q[k + 1] != c[k + 1] && q[k] == c[k
                    + 1] && q[k + 1] == c[k] && forall|j: int|
                    0 <= j < q.len() && j != k && j != k + 1 ==> #[trigger] q[j] == c[j];
            if count == 3 {
                let j = choose|j: int|
                    0 <= j < n && j != first && j != second && q[j] != c[j];
                assert(j == k || j == k + 1);
                assert(first == k || first == k + 1);
                assert(second == k || second == k + 1);
            }
            assert(count >= 1) by {
                assert(q[k] != c[k]);
            }
            if count == 1 {
                assert(first == k || first == k + 1);
                assert(q[k] != c[k] && q[k + 1] != c[k + 1]);
            }
            assert(count == 2);
            assert(first == k || first == k + 1);
            assert(second == k || second == k + 1);
        }
    }
    r
}

/// Whether removing one letter of the longer word gives the shorter.
///
/// Walks both words, allowing exactly one skip in the longer one.
fn one_letter_apart(query: &[char], candidate: &[char]) -> (r: bool)
    ensures
        r == is_single_indel(query@, candidate@),
{
    let query_longer = query.len() > candidate.len() && query.len() - candidate.len() == 1;
    let candidate_longer = candidate.len() > query.len() && candidate.len() - query.len() == 1;
    if !query_longer && !candidate_longer {
        return false;
    }
    let (longer, shorter) = if query_longer {
        (query, candidate)
    } else {
        (candidate, query)
    };
    let ghost l = longer@;
    let ghost s = shorter@;
    assert(is_single_indel(query@, candidate@) <==> exists|p: int|
        0 <= p < l.len() && #[trigger] l.remove(p) == s);
    let mut li: usize = 0;
    let mut skipped = false;
    let mut skip_at: usize = 0;
    let mut j: usize = 0;
    while j < shorter.len()
        invariant
            l.len() == s.len() + 1,
            is_single_indel(query@, candidate@) <==> exists|p: int|
                0 <= p < l.len() && #[trigger] l.remove(p) == s,
            l == longer@,
            s == shorter@,
            0 <= j <= s.len(),
            !skipped ==> li == j && forall|k: int| 0 <= k < j ==> s[k] == l[k],
            skipped ==> li == j + 1 && skip_at < j && s[skip_at as int] != l[skip_at as int]
                && (forall|k: int| 0 <= k < skip_at ==> s[k] == l[k]) && (forall|k: int|
                skip_at <= k < j ==> s[k] == l[k + 1]),
        decreases s.len() - j,
    {
        let sc = shorter[j];
        if li < longer.len() && longer[li] == sc {
            li = li + 1;
        } else if !skipped && li + 1 < longer.len() && longer[li + 1] == sc {
            skipped = true;
            skip_at = j;
            li = li + 2;
        } else {
            proof {
                assert forall|p: int| 0 <= p < l.len() implies #[trigger] l.remove(p) != s by {
                    if l.remove(p) == s {
                        if !skipped {
                            if p > j {
                                assert(s[j as int] == l.remove(p)[j as int]);
                            } else {
                                assert(s[j as int] == l.remove(p)[j as int]);
                            }
                        } else {
                            if p <= j {
                                assert(s[j as int] == l.remove(p)[j as int]);
                            } else {
                                assert(s[skip_at as int] == l.remove(p)[skip_at as int]);
                            }
                        }
                    }
                }
            }
            return false;
        }
        j = j + 1;
    }
    proof {
        let p: int = if skipped {
            skip_at as int
        } else {
            l.len() - 1
        };
        assert(l.remove(p) =~= s);
        assert(0 <= p < l.len() && l.remove(p) == s);
    }
    true
}

/// Aligned confusion cost between `query` and `candidate`, plus 2 per
/// length difference. Cheap proxy, not a full alignment.
///
/// A single adjacent transposition (typing two letters in the wrong order)
/// costs 1 — it is one slip of the fingers, not two substitutions.
/// A single inserted or deleted letter likewise costs 2, like a single
/// substitution.
pub fn weighted_cost(query: &[char], candidate: &[char]) -> (r: u32)
    requires
        query@.len() <= 0x7fff_ffff,
        candidate@.len() <= 0x7fff_ffff,
    ensures
        r == correction_cost(query@, candidate@),
{
    if transposed(query, candidate) {
        return 1;
    }
    if one_letter_apart(query, candidate) {
        return 2;
    }
    let shared = if query.len() <= candidate.len() {
        query.len()
    } else {
        candidate.len()
    };
    let gap = if query.len() <= candidate.len() {
        candidate.len() - query.len()
    } else {
        query.len() - candidate.len()
    };
    let mut cost: u32 = 0;
    let mut i: usize = 0;
    while i < shared
        invariant
            0 <= i <= shared,
            shared <= query@.len(),
            shared <= candidate@.len(),
            shared <= 0x7fff_ffff,
            cost == aligned_cost(query@, candidate@, i as int),
            cost <= 2 * i,
        decreases shared - i,
    {
        cost = cost + confusion_cost(query[i], candidate[i]);
        i = i + 1;
    }
    proof {
        assert(shared + gap <= 0x7fff_ffff);
    }
    cost + 2 * (gap as u32)
}

/// The aligned costs do not depend on which word is the query.
proof fn lemma_aligned_cost_symmetric(a: Seq<char>, b: Seq<char>, n: int)
    ensures
        aligned_cost(a, b, n) == aligned_cost(b, a, n),
    decreases n,
{
    if n > 0 {
        lemma_aligned_cost_symmetric(a, b, n - 1);
    }
}

/// Aligned costs of zero mean the first `n` letters agree.
proof fn lemma_aligned_cost_zero(a: Seq<char>, b: Seq<char>, n: int)
    requires
        0 <= n <= a.len(),
        n <= b.len(),
    ensures
        aligned_cost(a, b, n) == 0 <==> forall|k: int| 0 <= k < n ==> #[trigger] a[k] == b[k],
    decreases n,
{
    if n > 0 {
        lemma_aligned_cost_zero(a, b, n - 1);
    }
}

/// Law: the correction cost is symmetric, is zero exactly for equal words,
/// and is 2 for a word with one letter inserted (or deleted).
pub proof fn lemma_correction_cost_laws(q: Seq<char>, c: Seq<char>, p: int, x: char)
    ensures
        correction_cost(q, c) == correction_cost(c, q),
        correction_cost(q, c) == 0 <==> q == c,
        0 <= p <= q.len() ==> correction_cost(q, q.insert(p, x)) == 2 && correction_cost(q.insert(p, x), q) == 2,
{
    lemma_aligned_cost_symmetric(q, c, if q.len() <= c.len() { q.len() as int } else { c.len() as int });
    assert(is_transposition(q, c) == is_transposition(c, q)) by {
        if is_transposition(q, c) {
            let i = choose|i: int|
                #![trigger q[i], c[i]]
                0 <= i && i + 1 < q.len() && q[i] != c[i] && q[i + 1] != c[i + 1] && q[i] == c[i + 1] && q[i + 1]
                    == c[i] && forall|j: int| 0 <= j < q.len() && j != i && j != i + 1 ==> #[trigger] q[j] == c[j];
            assert(c[i] != q[i]);
        }
        if is_transposition(c, q) {
            let i = choose|i: int|
                #![trigger c[i], q[i]]
                0 <= i && i + 1 < c.len() && c[i] != q[i] && c[i + 1] != q[i + 1] && c[i] == q[i + 1] && c[i + 1]
                    == q[i] && forall|j: int| 0 <= j < c.len() && j != i && j != i + 1 ==> #[trigger] c[j] == q[j];
            assert(q[i] != c[i]);
        }
    }
    if q.len() == c.len() {
        lemma_aligned_cost_zero(q, c, q.len() as int);
        if correction_cost(q, c) == 0 {
            assert(q =~= c);
        }
        if q == c {
            if is_transposition(q, c) {
                let i = choose|i: int|
                    #![trigger q[i], c[i]]
                    0 <= i && i + 1 < q.len() && q[i] != c[i] && q[i + 1] != c[i + 1] && q[i] == c[i + 1]
                        && q[i + 1] == c[i] && forall|j: int| 0 <= j < q.len() && j != i && j != i + 1 ==> #[trigger] q[j]
                        == c[j];
            }
        }
    }
    if 0 <= p <= q.len() {
        let r = q.insert(p, x);
        assert(r.remove(p) =~= q);
        assert(is_single_indel(q, r));
        assert(is_single_indel(r, q));
    }
}

} // verus!
