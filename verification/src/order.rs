//! Orders, sorted listings and the sorts that produce them.
//!
//! Byte strings are ordered as `[u8]` orders them (`lex_lt`). Ranked
//! candidates are ordered by a [`RankKey`]: up to three numbers compared
//! first, then the candidate's bytes. A result is stated as the `listing` of
//! a finite set under a strict total order: the unique strictly increasing
//! sequence holding exactly that set.

use vstd::prelude::*;

verus! {

broadcast use vstd::seq_lib::group_seq_properties;

/// Byte strings in the order of `<` on `[u8]`: lexicographic, a proper
/// prefix before its extensions.
pub open spec fn lex_lt(a: Seq<u8>, b: Seq<u8>) -> bool
    decreases a.len(),
{
    if a.len() == 0 {
        b.len() > 0
    } else if b.len() == 0 {
        false
    } else if a[0] != b[0] {
        a[0] < b[0]
    } else {
        lex_lt(a.drop_first(), b.drop_first())
    }
}

/// `lex_lt` is irreflexive.
pub proof fn lemma_lex_irreflexive(a: Seq<u8>)
    ensures
        !lex_lt(a, a),
    decreases a.len(),
{
    if a.len() > 0 {
        lemma_lex_irreflexive(a.drop_first());
    }
}

/// `lex_lt` is transitive.
pub proof fn lemma_lex_transitive(a: Seq<u8>, b: Seq<u8>, c: Seq<u8>)
    requires
        lex_lt(a, b),
        lex_lt(b, c),
    ensures
        lex_lt(a, c),
    decreases a.len(),
{
    if a.len() > 0 && b.len() > 0 && c.len() > 0 && a[0] == b[0] && b[0] == c[0] {
        lemma_lex_transitive(a.drop_first(), b.drop_first(), c.drop_first());
    }
}

/// Two different byte strings are ordered one way or the other.
pub proof fn lemma_lex_total(a: Seq<u8>, b: Seq<u8>)
    ensures
        a != b ==> lex_lt(a, b) || lex_lt(b, a),
    decreases a.len(),
{
    if a.len() > 0 && b.len() > 0 && a[0] == b[0] {
        lemma_lex_total(a.drop_first(), b.drop_first());
        if a.drop_first() == b.drop_first() {
            assert(a =~= seq![a[0]] + a.drop_first());
            assert(b =~= seq![b[0]] + b.drop_first());
        }
    } else if a.len() == 0 && b.len() == 0 {
        assert(a =~= b);
    }
}

/// `lex_lt` never holds both ways.
pub proof fn lemma_lex_asymmetric(a: Seq<u8>, b: Seq<u8>)
    ensures
        !(lex_lt(a, b) && lex_lt(b, a)),
{
    if lex_lt(a, b) && lex_lt(b, a) {
        lemma_lex_transitive(a, b, a);
        lemma_lex_irreflexive(a);
    }
}

/// Strictly increasing under `lt`.
pub open spec fn strictly_sorted<T>(s: Seq<T>, lt: spec_fn(T, T) -> bool) -> bool {
    forall|i: int, j: int| 0 <= i < j < s.len() ==> #[trigger] lt(s[i], s[j])
}

/// `lt` orders the elements of `s` strictly and totally.
pub open spec fn strict_total_on<T>(s: Set<T>, lt: spec_fn(T, T) -> bool) -> bool {
    &&& forall|a: T| #[trigger] s.contains(a) ==> !lt(a, a)
    &&& forall|a: T, b: T, c: T|
        s.contains(a) && s.contains(b) && s.contains(c) && #[trigger] lt(a, b) && #[trigger] lt(
            b,
            c,
        ) ==> lt(a, c)
    &&& forall|a: T, b: T| s.contains(a) && s.contains(b) && a != b ==> #[trigger] lt(a, b) || lt(b, a)
}

/// The elements of a finite set listed in increasing order of `lt`.
pub open spec fn listing<T>(s: Set<T>, lt: spec_fn(T, T) -> bool) -> Seq<T> {
    choose|l: Seq<T>| strictly_sorted(l, lt) && l.to_set() == s
}

/// The byte strings of `s` in ascending order.
pub open spec fn ascending(s: Set<Seq<u8>>) -> Seq<Seq<u8>> {
    listing(s, |a: Seq<u8>, b: Seq<u8>| lex_lt(a, b))
}

/// `lex_lt` orders every set of byte strings strictly and totally.
pub proof fn lemma_lex_strict_total(s: Set<Seq<u8>>)
    ensures
        strict_total_on(s, |a: Seq<u8>, b: Seq<u8>| lex_lt(a, b)),
{
    let lt = |a: Seq<u8>, b: Seq<u8>| lex_lt(a, b);
    assert forall|a: Seq<u8>| #[trigger] s.contains(a) implies !lt(a, a) by {
        lemma_lex_irreflexive(a);
    }
    assert forall|a: Seq<u8>, b: Seq<u8>, c: Seq<u8>|
        s.contains(a) && s.contains(b) && s.contains(c) && #[trigger] lt(a, b) && #[trigger] lt(
            b,
            c,
        ) implies lt(a, c) by {
        lemma_lex_transitive(a, b, c);
    }
    assert forall|a: Seq<u8>, b: Seq<u8>| s.contains(a) && s.contains(b) && a != b implies #[trigger] lt(
        a,
        b,
    ) || lt(b, a) by {
        lemma_lex_total(a, b);
    }
}

/// Two strictly sorted sequences holding the same elements are equal.
pub proof fn lemma_sorted_unique<T>(a: Seq<T>, b: Seq<T>, lt: spec_fn(T, T) -> bool)
    requires
        strict_total_on(a.to_set(), lt),
        strictly_sorted(a, lt),
        strictly_sorted(b, lt),
        a.to_set() == b.to_set(),
    ensures
        a == b,
    decreases a.len(),
{
    if a.len() == 0 {
        if b.len() > 0 {
            assert(b.to_set().contains(b[0]));
        }
        assert(a =~= b);
    } else {
        assert(a.to_set().contains(a[0]));
        assert(b.len() > 0);
        assert(b.to_set().contains(b[0]));
        let i = choose|i: int| 0 <= i < a.len() && a[i] == b[0];
        let j = choose|j: int| 0 <= j < b.len() && b[j] == a[0];
        if a[0] != b[0] {
            assert(i > 0 && j > 0);
            assert(lt(a[0], a[i]));
            assert(lt(b[0], b[j]));
            assert(false);
        }
        let a1 = a.drop_first();
        let b1 = b.drop_first();
        assert forall|x: T| a1.to_set().contains(x) <==> b1.to_set().contains(x) by {
            if a1.to_set().contains(x) {
                let k = choose|k: int| 0 <= k < a1.len() && a1[k] == x;
                assert(lt(a[0], a[k + 1]));
                assert(b.to_set().contains(x));
                let m = choose|m: int| 0 <= m < b.len() && b[m] == x;
                if m == 0 {
                    assert(!lt(x, x));
                }
                assert(b1[m - 1] == x);
            }
            if b1.to_set().contains(x) {
                let k = choose|k: int| 0 <= k < b1.len() && b1[k] == x;
                assert(lt(b[0], b[k + 1]));
                assert(a.to_set().contains(x));
                let m = choose|m: int| 0 <= m < a.len() && a[m] == x;
                if m == 0 {
                    assert(!lt(x, x));
                }
                assert(a1[m - 1] == x);
            }
        }
        assert(a1.to_set() =~= b1.to_set());
        assert forall|x: T| a1.to_set().contains(x) implies a.to_set().contains(x) by {
            let k = choose|k: int| 0 <= k < a1.len() && a1[k] == x;
            assert(a[k + 1] == x);
        }
        lemma_sorted_unique(a1, b1, lt);
        assert(a =~= seq![a[0]] + a1);
        assert(b =~= seq![b[0]] + b1);
    }
}

/// A strictly sorted sequence is the listing of its elements.
pub proof fn lemma_listing_of<T>(l: Seq<T>, lt: spec_fn(T, T) -> bool)
    requires
        strict_total_on(l.to_set(), lt),
        strictly_sorted(l, lt),
    ensures
        listing(l.to_set(), lt) == l,
{
    let w = listing(l.to_set(), lt);
    assert(strictly_sorted(w, lt) && w.to_set() == l.to_set());
    lemma_sorted_unique(l, w, lt);
}

/// Where `x` goes in a strictly sorted `l` that does not hold it.
proof fn lemma_insertion_point<T>(s: Set<T>, l: Seq<T>, x: T, lt: spec_fn(T, T) -> bool) -> (p: int)
    requires
        strict_total_on(s, lt),
        strictly_sorted(l, lt),
        forall|k: int| 0 <= k < l.len() ==> s.contains(#[trigger] l[k]) && l[k] != x,
        s.contains(x),
    ensures
        0 <= p <= l.len(),
        forall|k: int| 0 <= k < p ==> #[trigger] lt(l[k], x),
        forall|k: int| p <= k < l.len() ==> #[trigger] lt(x, l[k]),
    decreases l.len(),
{
    if l.len() == 0 {
        0
    } else if lt(l.last(), x) {
        assert forall|k: int| 0 <= k < l.len() implies #[trigger] lt(l[k], x) by {
            if k < l.len() - 1 {
                assert(lt(l[k], l[l.len() - 1]));
            }
        }
        l.len() as int
    } else {
        assert(lt(x, l.last()));
        let p = lemma_insertion_point(s, l.drop_last(), x, lt);
        assert forall|k: int| p <= k < l.len() implies #[trigger] lt(x, l[k]) by {
            if k < l.len() - 1 {
                assert(l.drop_last()[k] == l[k]);
            }
        }
        assert forall|k: int| 0 <= k < p implies #[trigger] lt(l[k], x) by {
            assert(l.drop_last()[k] == l[k]);
        }
        p
    }
}

/// A finite set that `lt` orders strictly and totally has a listing: its
/// elements in increasing order.
pub proof fn lemma_listing_exists<T>(s: Set<T>, lt: spec_fn(T, T) -> bool)
    requires
        s.finite(),
        strict_total_on(s, lt),
    ensures
        strictly_sorted(listing(s, lt), lt),
        listing(s, lt).to_set() == s,
    decreases s.len(),
{
    if s.len() == 0 {
        let l = Seq::<T>::empty();
        assert(l.to_set() =~= s);
        assert(strictly_sorted(l, lt));
    } else {
        let x = s.choose();
        let r = s.remove(x);
        assert(strict_total_on(r, lt));
        lemma_listing_exists(r, lt);
        let l = listing(r, lt);
        assert forall|k: int| 0 <= k < l.len() implies s.contains(#[trigger] l[k]) && l[k] != x by {
            assert(l.to_set().contains(l[k]));
        }
        let p = lemma_insertion_point(s, l, x, lt);
        let nl = l.insert(p, x);
        assert forall|a: int, b: int| 0 <= a < b < nl.len() implies #[trigger] lt(nl[a], nl[b]) by {
            if b < p {
                assert(nl[a] == l[a] && nl[b] == l[b]);
            } else if b == p {
                assert(nl[a] == l[a]);
            } else if a == p {
                assert(nl[b] == l[b - 1]);
            } else if a < p {
                assert(nl[a] == l[a] && nl[b] == l[b - 1]);
            } else {
                assert(nl[a] == l[a - 1] && nl[b] == l[b - 1]);
            }
        }
        assert forall|v: T| nl.to_set().contains(v) <==> s.contains(v) by {
            if nl.to_set().contains(v) {
                let k = choose|k: int| 0 <= k < nl.len() && nl[k] == v;
                if k < p {
                    assert(l[k] == v);
                    assert(l.to_set().contains(v));
                } else if k > p {
                    assert(l[k - 1] == v);
                    assert(l.to_set().contains(v));
                }
            }
            if s.contains(v) && v != x {
                assert(r.contains(v));
                assert(l.to_set().contains(v));
                let k = choose|k: int| 0 <= k < l.len() && l[k] == v;
                if k < p {
                    assert(nl[k] == v);
                } else {
                    assert(nl[k + 1] == v);
                }
            }
            if v == x {
                assert(nl[p] == v);
            }
        }
        assert(nl.to_set() =~= s);
        assert(strictly_sorted(nl, lt) && nl.to_set() == s);
    }
}

/// The views of a vector of byte vectors.
pub open spec fn views(v: Seq<Vec<u8>>) -> Seq<Seq<u8>> {
    v.map_values(|k: Vec<u8>| k@)
}

/// Whether `a` sorts before `b` as byte strings.
pub fn bytes_lt(a: &[u8], b: &[u8]) -> (r: bool)
    ensures
        r == lex_lt(a@, b@),
{
    let mut i: usize = 0;
    while i < a.len() && i < b.len()
        invariant
            0 <= i <= a@.len(),
            i <= b@.len(),
            a@.take(i as int) == b@.take(i as int),
            lex_lt(a@, b@) == lex_lt(a@.skip(i as int), b@.skip(i as int)),
        decreases a.len() - i,
    {
        if a[i] != b[i] {
            proof {
                let sa = a@.skip(i as int);
                let sb = b@.skip(i as int);
                assert(sa[0] == a@[i as int]);
                assert(sb[0] == b@[i as int]);
            }
            return a[i] < b[i];
        }
        proof {
            let sa = a@.skip(i as int);
            let sb = b@.skip(i as int);
            assert(sa.drop_first() =~= a@.skip(i + 1));
            assert(sb.drop_first() =~= b@.skip(i + 1));
            assert(a@.take(i + 1) =~= a@.take(i as int).push(a@[i as int]));
            assert(b@.take(i + 1) =~= b@.take(i as int).push(b@[i as int]));
        }
        i = i + 1;
    }
    i < b.len()
}

/// Merge two strictly ascending lists of keys into one, dropping repeats.
fn merge_keys(a: Vec<Vec<u8>>, b: Vec<Vec<u8>>) -> (r: Vec<Vec<u8>>)
    requires
        strictly_sorted(views(a@), |x: Seq<u8>, y: Seq<u8>| lex_lt(x, y)),
        strictly_sorted(views(b@), |x: Seq<u8>, y: Seq<u8>| lex_lt(x, y)),
    ensures
        strictly_sorted(views(r@), |x: Seq<u8>, y: Seq<u8>| lex_lt(x, y)),
        views(r@).to_set() == views(a@).to_set() + views(b@).to_set(),
{
    let ghost lt = |x: Seq<u8>, y: Seq<u8>| lex_lt(x, y);
    let ghost va = views(a@);
    let ghost vb = views(b@);
    let mut out: Vec<Vec<u8>> = Vec::new();
    let mut i: usize = 0;
    let mut j: usize = 0;
    while i < a.len() || j < b.len()
        invariant
            0 <= i <= a@.len(),
            0 <= j <= b@.len(),
            va == views(a@),
            vb == views(b@),
            lt == (|x: Seq<u8>, y: Seq<u8>| lex_lt(x, y)),
            strictly_sorted(va, lt),
            strictly_sorted(vb, lt),
            strictly_sorted(views(out@), lt),
            views(out@).to_set() == va.take(i as int).to_set() + vb.take(j as int).to_set(),
            out@.len() > 0 && i < a@.len() ==> lex_lt(views(out@).last(), va[i as int]),
            out@.len() > 0 && j < b@.len() ==> lex_lt(views(out@).last(), vb[j as int]),
        decreases a@.len() + b@.len() - i - j,
    {
        let ghost old_out = views(out@);
        let take_a: bool;
        let take_b: bool;
        if i < a.len() && j < b.len() {
            if bytes_lt(a[i].as_slice(), b[j].as_slice()) {
                take_a = true;
                take_b = false;
            } else if bytes_lt(b[j].as_slice(), a[i].as_slice()) {
                take_a = false;
                take_b = true;
            } else {
                proof {
                    lemma_lex_total(va[i as int], vb[j as int]);
                }
                take_a = true;
                take_b = true;
            }
        } else if i < a.len() {
            take_a = true;
            take_b = false;
        } else {
            take_a = false;
            take_b = true;
        }
        let ghost x: Seq<u8> = if take_a {
            va[i as int]
        } else {
            vb[j as int]
        };
        let item = if take_a {
            a[i].clone()
        } else {
            b[j].clone()
        };
        proof {
            if take_a {
                assert(item@ =~= a@[i as int]@);
            } else {
                assert(item@ =~= b@[j as int]@);
            }
            assert(item@ == x);
        }
        out.push(item);
        proof {
            assert(views(out@) =~= old_out.push(x));
            assert forall|p: int, q: int| 0 <= p < q < views(out@).len() implies #[trigger] lt(
                views(out@)[p],
                views(out@)[q],
            ) by {
                if q == views(out@).len() - 1 && p < q {
                    if p < old_out.len() - 1 {
                        assert(lt(old_out[p], old_out[old_out.len() - 1]));
                        lemma_lex_transitive(old_out[p], old_out.last(), x);
                    }
                } else {
                    assert(views(out@)[p] == old_out[p]);
                    assert(views(out@)[q] == old_out[q]);
                }
            }
            old_out.lemma_push_to_set_commute(x);
            if take_a {
                assert(va.take(i + 1) =~= va.take(i as int).push(va[i as int]));
                va.take(i as int).lemma_push_to_set_commute(va[i as int]);
            }
            if take_b {
                assert(vb.take(j + 1) =~= vb.take(j as int).push(vb[j as int]));
                vb.take(j as int).lemma_push_to_set_commute(vb[j as int]);
            }
            if take_a && take_b {
                assert(va[i as int] == vb[j as int]);
            }
            if take_a && i + 1 < a@.len() {
                assert(lt(va[i as int], va[i + 1]));
            }
            if take_b && j + 1 < b@.len() {
                assert(lt(vb[j as int], vb[j + 1]));
            }
        }
        if take_a {
            i = i + 1;
        }
        if take_b {
            j = j + 1;
        }
        proof {
            assert(views(out@).to_set() =~= va.take(i as int).to_set() + vb.take(j as int).to_set());
        }
    }
    proof {
        assert(va.take(i as int) =~= va);
        assert(vb.take(j as int) =~= vb);
    }
    out
}

/// Sort byte strings into ascending order and drop repeats.
pub fn sort_dedup_keys(v: Vec<Vec<u8>>) -> (r: Vec<Vec<u8>>)
    ensures
        strictly_sorted(views(r@), |x: Seq<u8>, y: Seq<u8>| lex_lt(x, y)),
        views(r@).to_set() == views(v@).to_set(),
    decreases v@.len(),
{
    let n = v.len();
    if n <= 1 {
        return v;
    }
    let mid = n / 2;
    let mut left: Vec<Vec<u8>> = Vec::new();
    let mut right: Vec<Vec<u8>> = Vec::new();
    let mut k: usize = 0;
    while k < n
        invariant
            0 <= k <= n,
            n == v@.len(),
            mid == n / 2,
            left@.len() == if k < mid { k } else { mid },
            right@.len() == if k < mid { 0 } else { k - mid },
            forall|p: int| 0 <= p < left@.len() ==> left@[p]@ == v@[p]@,
            forall|p: int| 0 <= p < right@.len() ==> right@[p]@ == v@[mid + p]@,
        decreases n - k,
    {
        let item = v[k].clone();
        proof {
            assert(item@ =~= v@[k as int]@);
        }
        if k < mid {
            left.push(item);
        } else {
            right.push(item);
        }
        k = k + 1;
    }
    proof {
        assert(views(left@) =~= views(v@).take(mid as int));
        assert(views(right@) =~= views(v@).skip(mid as int));
        assert(views(v@) =~= views(v@).take(mid as int) + views(v@).skip(mid as int));
        vstd::seq_lib::seq_to_set_distributes_over_add::<Seq<u8>>(views(left@), views(right@));
    }
    let sl = sort_dedup_keys(left);
    let sr = sort_dedup_keys(right);
    merge_keys(sl, sr)
}

/// A ranking key: three numbers compared in turn, then the bytes of the
/// ranked text.
pub struct RankKey {
    pub first: u64,
    pub second: u64,
    pub third: u64,
    pub text: Vec<u8>,
}

/// The mathematical content of a ranking key.
pub type KeyView = (int, int, int, Seq<u8>);

impl View for RankKey {
    type V = KeyView;

    open spec fn view(&self) -> KeyView {
        (self.first as int, self.second as int, self.third as int, self.text@)
    }
}

/// Ranking keys compared field by field, the text last.
pub open spec fn key_lt(a: KeyView, b: KeyView) -> bool {
    ||| a.0 < b.0
    ||| (a.0 == b.0 && a.1 < b.1)
    ||| (a.0 == b.0 && a.1 == b.1 && a.2 < b.2)
    ||| (a.0 == b.0 && a.1 == b.1 && a.2 == b.2 && lex_lt(a.3, b.3))
}

/// `key_lt` as a relation.
pub open spec fn key_order() -> spec_fn(KeyView, KeyView) -> bool {
    |a: KeyView, b: KeyView| key_lt(a, b)
}

/// The views of a vector of keys.
pub open spec fn key_views(v: Seq<RankKey>) -> Seq<KeyView> {
    v.map_values(|k: RankKey| k@)
}

/// Whether key `a` ranks before key `b`.
pub fn key_less(a: &RankKey, b: &RankKey) -> (r: bool)
    ensures
        r == key_lt(a@, b@),
{
    if a.first != b.first {
        return a.first < b.first;
    }
    if a.second != b.second {
        return a.second < b.second;
    }
    if a.third != b.third {
        return a.third < b.third;
    }
    bytes_lt(a.text.as_slice(), b.text.as_slice())
}

/// A copy of a key.
pub fn copy_key(k: &RankKey) -> (r: RankKey)
    ensures
        r@ == k@,
{
    let text = k.text.clone();
    proof {
        assert(text@ =~= k.text@);
    }
    RankKey { first: k.first, second: k.second, third: k.third, text }
}

/// `key_lt` is irreflexive.
pub proof fn lemma_key_irreflexive(a: KeyView)
    ensures
        !key_lt(a, a),
{
    lemma_lex_irreflexive(a.3);
}

/// `key_lt` is transitive.
pub proof fn lemma_key_transitive(a: KeyView, b: KeyView, c: KeyView)
    requires
        key_lt(a, b),
        key_lt(b, c),
    ensures
        key_lt(a, c),
{
    if a.0 == b.0 && b.0 == c.0 && a.1 == b.1 && b.1 == c.1 && a.2 == b.2 && b.2 == c.2 {
        lemma_lex_transitive(a.3, b.3, c.3);
    }
}

/// Two different keys are ordered one way or the other.
pub proof fn lemma_key_total(a: KeyView, b: KeyView)
    ensures
        a != b ==> key_lt(a, b) || key_lt(b, a),
{
    lemma_lex_total(a.3, b.3);
}

/// Inserting `x` where it belongs keeps a strictly sorted sequence sorted.
proof fn lemma_insert_sorted(old: Seq<KeyView>, p: int, x: KeyView)
    requires
        strictly_sorted(old, key_order()),
        0 <= p <= old.len(),
        p < old.len() ==> key_lt(x, old[p]),
        p > 0 ==> key_lt(old[p - 1], x),
    ensures
        strictly_sorted(old.insert(p, x), key_order()),
        old.insert(p, x).to_set() == old.to_set().insert(x),
{
    let lt = key_order();
    let nv = old.insert(p, x);
    assert forall|a: int, b: int| 0 <= a < b < nv.len() implies #[trigger] lt(nv[a], nv[b]) by {
        if a < p && b == p {
            if a < p - 1 {
                assert(lt(old[a], old[p - 1]));
                lemma_key_transitive(old[a], old[p - 1], x);
            }
        } else if a == p && b > p {
            if b > p + 1 {
                assert(lt(old[p], old[b - 1]));
                lemma_key_transitive(x, old[p], old[b - 1]);
            }
        } else if a < p && b > p {
            assert(lt(old[a], old[b - 1]));
        } else if a > p {
            assert(lt(old[a - 1], old[b - 1]));
        } else {
            assert(lt(old[a], old[b]));
        }
    }
    assert forall|v: KeyView| nv.to_set().contains(v) <==> old.to_set().insert(x).contains(v) by {
        if nv.to_set().contains(v) {
            let k = choose|k: int| 0 <= k < nv.len() && nv[k] == v;
            if k < p {
                assert(old[k] == v);
            } else if k > p {
                assert(old[k - 1] == v);
            }
        }
        if old.to_set().contains(v) {
            let k = choose|k: int| 0 <= k < old.len() && old[k] == v;
            if k < p {
                assert(nv[k] == v);
            } else {
                assert(nv[k + 1] == v);
            }
        }
        if v == x {
            assert(nv[p] == v);
        }
    }
    assert(nv.to_set() =~= old.to_set().insert(x));
}

/// Sort keys into increasing order, dropping repeats.
pub fn sort_keys(keys: &Vec<RankKey>) -> (r: Vec<RankKey>)
    ensures
        strictly_sorted(key_views(r@), key_order()),
        key_views(r@).to_set() == key_views(keys@).to_set(),
{
    let mut out: Vec<RankKey> = Vec::new();
    let mut i: usize = 0;
    while i < keys.len()
        invariant
            0 <= i <= keys@.len(),
            strictly_sorted(key_views(out@), key_order()),
            key_views(out@).to_set() == key_views(keys@).take(i as int).to_set(),
        decreases keys.len() - i,
    {
        let x = copy_key(&keys[i]);
        let ghost old_views = key_views(out@);
        let mut p: usize = 0;
        while p < out.len() && !key_less(&x, &out[p])
            invariant
                0 <= p <= out@.len(),
                old_views == key_views(out@),
                forall|k: int| 0 <= k < p ==> !key_lt(x@, #[trigger] old_views[k]),
            decreases out.len() - p,
        {
            p = p + 1;
        }
        proof {
            assert(key_views(keys@).take(i + 1) =~= key_views(keys@).take(i as int).push(x@));
            key_views(keys@).take(i as int).lemma_push_to_set_commute(x@);
        }
        let duplicate = p > 0 && !key_less(&out[p - 1], &x);
        if !duplicate {
            proof {
                if p > 0 {
                    assert(!key_lt(x@, old_views[p - 1]));
                    lemma_key_total(x@, old_views[p - 1]);
                    if x@ == old_views[p - 1] {
                        lemma_key_irreflexive(x@);
                    }
                }
                lemma_insert_sorted(old_views, p as int, x@);
            }
            out.insert(p, x);
            proof {
                assert(key_views(out@) =~= old_views.insert(p as int, x@));
            }
        } else {
            proof {
                assert(!key_lt(x@, old_views[p - 1]));
                lemma_key_total(x@, old_views[p - 1]);
                assert(old_views.to_set().contains(old_views[p - 1]));
                assert(old_views.to_set().insert(x@) =~= old_views.to_set());
            }
        }
        i = i + 1;
    }
    proof {
        assert(key_views(keys@).take(i as int) =~= key_views(keys@));
    }
    out
}

} // verus!
