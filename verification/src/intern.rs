//! Interning: each distinct value once, in order of first appearance, and
//! its position in that list as its id.

use vstd::prelude::*;
use vstd::hash_map::StringHashMap;

verus! {

broadcast use vstd::seq_lib::group_seq_properties;

/// The distinct values of `xs`, in order of first appearance.
pub open spec fn first_seen<T>(xs: Seq<T>) -> Seq<T>
    decreases xs.len(),
{
    if xs.len() == 0 {
        Seq::empty()
    } else {
        let f = first_seen(xs.drop_last());
        if f.contains(xs.last()) {
            f
        } else {
            f.push(xs.last())
        }
    }
}

/// The position of `x` in `xs` (meaningful when `x` occurs once).
pub open spec fn position<T>(xs: Seq<T>, x: T) -> int {
    choose|i: int| 0 <= i < xs.len() && xs[i] == x
}

/// `first_seen` holds each value of `xs` exactly once.
pub proof fn lemma_first_seen<T>(xs: Seq<T>)
    ensures
        first_seen(xs).no_duplicates(),
        forall|x: T| #[trigger] first_seen(xs).contains(x) <==> xs.contains(x),
    decreases xs.len(),
{
    if xs.len() > 0 {
        lemma_first_seen(xs.drop_last());
        let f = first_seen(xs.drop_last());
        assert forall|x: T| #[trigger] first_seen(xs).contains(x) <==> xs.contains(x) by {
            if xs.contains(x) && x != xs.last() {
                let i = choose|i: int| 0 <= i < xs.len() && xs[i] == x;
                assert(xs.drop_last()[i] == x);
            }
            if f.contains(x) {
                let i = choose|i: int| 0 <= i < xs.drop_last().len() && xs.drop_last()[i] == x;
                assert(xs[i] == x);
            }
        }
    }
}

/// The position of a value that occurs once.
pub proof fn lemma_position<T>(xs: Seq<T>, x: T, i: int)
    requires
        xs.no_duplicates(),
        0 <= i < xs.len(),
        xs[i] == x,
    ensures
        position(xs, x) == i,
{
    let p = position(xs, x);
    assert(0 <= p < xs.len() && xs[p] == x);
}

/// Interning a new value: known values keep their positions, the new one
/// goes last.
pub proof fn lemma_position_push<T>(f: Seq<T>, x: T)
    requires
        f.no_duplicates(),
        !f.contains(x),
    ensures
        forall|y: T| #[trigger] f.contains(y) ==> position(f.push(x), y) == position(f, y),
        f.push(x).no_duplicates(),
        position(f.push(x), x) == f.len(),
{
    assert(f.push(x).no_duplicates());
    assert forall|y: T| #[trigger] f.contains(y) implies position(f.push(x), y) == position(f, y) by {
        let i = choose|i: int| 0 <= i < f.len() && f[i] == y;
        lemma_position(f, y, i);
        lemma_position(f.push(x), y, i);
    }
    lemma_position(f.push(x), x, f.len() as int);
}

/// The interned list of `items` and each value's position in it.
pub fn intern_strings(items: &Vec<&String>) -> (r: (Vec<String>, StringHashMap<usize>))
    ensures
        r.0@.map_values(|s: String| s@) == first_seen(items@.map_values(|s: &String| s@)),
        forall|x: Seq<char>| #[trigger] r.1@.contains_key(x) <==> first_seen(
            items@.map_values(|s: &String| s@),
        ).contains(x),
        forall|x: Seq<char>|
            r.1@.contains_key(x) ==> #[trigger] r.1@[x] == position(
                first_seen(items@.map_values(|s: &String| s@)),
                x,
            ),
{
    let ghost xs = items@.map_values(|s: &String| s@);
    let mut list: Vec<String> = Vec::new();
    let mut ids: StringHashMap<usize> = StringHashMap::new();
    let mut i: usize = 0;
    while i < items.len()
        invariant
            0 <= i <= items@.len(),
            xs == items@.map_values(|s: &String| s@),
            list@.map_values(|s: String| s@) == first_seen(xs.take(i as int)),
            list@.len() <= i,
            forall|x: Seq<char>| #[trigger] ids@.contains_key(x) <==> first_seen(
                xs.take(i as int),
            ).contains(x),
            forall|x: Seq<char>|
                ids@.contains_key(x) ==> #[trigger] ids@[x] == position(first_seen(xs.take(i as int)), x),
        decreases items.len() - i,
    {
        let item = items[i];
        let ghost f = first_seen(xs.take(i as int));
        proof {
            lemma_first_seen(xs.take(i as int));
            if !f.contains(item@) {
                lemma_position_push(f, item@);
            }
            assert(xs.take(i + 1).drop_last() =~= xs.take(i as int));
            assert(xs.take(i + 1).last() == item@);
        }
        if !ids.contains_key(item.as_str()) {
            let n = list.len();
            ids.insert(String::from_str(item.as_str()), n);
            let ghost before = list@.map_values(|s: String| s@);
            list.push(String::from_str(item.as_str()));
            proof {
                assert(list@.map_values(|s: String| s@) =~= before.push(item@));
            }
        }
        i = i + 1;
    }
    proof {
        assert(xs.take(i as int) =~= xs);
    }
    (list, ids)
}

} // verus!
