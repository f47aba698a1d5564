//! Latin → Cyrillic transliteration for Macedonian typed on a Latin keyboard.
//!
//! The mapping is ambiguous in both directions:
//!
//! * `nj` is `њ` in `konj` → `коњ`, but `н` + `ј` in `injekcija` → `инјекција`.
//! * `dz` is `ѕ` in `dzvezda` → `ѕвезда`, but `д` + `з` elsewhere.
//! * `c` is usually `ц`, but `к` in unadapted loanwords.
//!
//! Rather than guess, [`candidates`] enumerates the readings and lets the
//! lexicon adjudicate; [`transliterate`] gives the single longest-match reading
//! for callers without a lexicon.

use vstd::prelude::*;
use crate::text::{
    chars_of, char_to_uppercase, is_uppercase, push_char, to_lowercase, unicode_char_upper,
    unicode_lower, unicode_uppercase,
};

verus! {

broadcast use vstd::seq_lib::group_seq_properties;

/// Maximum number of readings to enumerate for one word. A long word with
/// several ambiguous digraphs could otherwise branch exponentially.
pub const MAX_CANDIDATES: usize = 64;

/// Single Latin characters (plain or with a diacritic) and their main reading.
pub open spec fn table1(a: char) -> Option<Seq<char>> {
    match a {
        'ž' => Some(seq!['ж']),
        'č' => Some(seq!['ч']),
        'š' => Some(seq!['ш']),
        'đ' => Some(seq!['ѓ']),
        'ǵ' => Some(seq!['ѓ']),
        'ć' => Some(seq!['ќ']),
        'ḱ' => Some(seq!['ќ']),
        'a' => Some(seq!['а']),
        'b' => Some(seq!['б']),
        'v' => Some(seq!['в']),
        'g' => Some(seq!['г']),
        'd' => Some(seq!['д']),
        'e' => Some(seq!['е']),
        'z' => Some(seq!['з']),
        'i' => Some(seq!['и']),
        'j' => Some(seq!['ј']),
        'k' => Some(seq!['к']),
        'l' => Some(seq!['л']),
        'm' => Some(seq!['м']),
        'n' => Some(seq!['н']),
        'o' => Some(seq!['о']),
        'p' => Some(seq!['п']),
        'r' => Some(seq!['р']),
        's' => Some(seq!['с']),
        't' => Some(seq!['т']),
        'u' => Some(seq!['у']),
        'f' => Some(seq!['ф']),
        'h' => Some(seq!['х']),
        'c' => Some(seq!['ц']),
        'w' => Some(seq!['в']),
        'q' => Some(seq!['к']),
        'x' => Some(seq!['к', 'с']),
        'y' => Some(seq!['ј']),
        _ => None,
    }
}

/// Latin digraphs and their reading.
pub open spec fn table2(a: char, b: char) -> Option<Seq<char>> {
    match (a, b) {
        ('d', 'ž') => Some(seq!['џ']),
        ('z', 'h') => Some(seq!['ж']),
        ('c', 'h') => Some(seq!['ч']),
        ('s', 'h') => Some(seq!['ш']),
        ('g', 'j') => Some(seq!['ѓ']),
        ('g', 'y') => Some(seq!['ѓ']),
        ('d', 'j') => Some(seq!['ѓ']),
        ('k', 'j') => Some(seq!['ќ']),
        ('k', 'y') => Some(seq!['ќ']),
        ('d', 'z') => Some(seq!['ѕ']),
        ('l', 'j') => Some(seq!['љ']),
        ('n', 'j') => Some(seq!['њ']),
        ('t', 's') => Some(seq!['ц']),
        _ => None,
    }
}

/// The one trigraph, `dzh` → `џ`.
pub open spec fn table3(a: char, b: char, c: char) -> Option<Seq<char>> {
    if a == 'd' && b == 'z' && c == 'h' {
        Some(seq!['џ'])
    } else {
        None
    }
}

/// The main reading of a Latin sequence, when the table has one.
pub open spec fn table(k: Seq<char>) -> Option<Seq<char>> {
    if k.len() == 1 {
        table1(k[0])
    } else if k.len() == 2 {
        table2(k[0], k[1])
    } else if k.len() == 3 {
        table3(k[0], k[1], k[2])
    } else {
        None
    }
}

/// Alternative readings for genuinely ambiguous input.
pub open spec fn alternate(k: Seq<char>) -> Option<Seq<char>> {
    if k.len() == 1 {
        match k[0] {
            'c' => Some(seq!['к']),
            'j' => Some(seq!['џ']),
            'y' => Some(seq!['и']),
            'x' => Some(seq!['х']),
            _ => None,
        }
    } else {
        None
    }
}

/// The `len` characters of `s` starting at `i`, when they exist.
pub open spec fn window(s: Seq<char>, i: int, len: int) -> Seq<char> {
    s.subrange(i, i + len)
}

/// Whether the window of length `len` at `i` exists and the table reads it.
pub open spec fn reads(s: Seq<char>, i: int, len: int) -> bool {
    0 <= i && i + len <= s.len() && table(window(s, i, len)) is Some
}

/// Longest-match transliteration of `s` from position `i`.
pub open spec fn translit_from(s: Seq<char>, i: int) -> Seq<char>
    decreases s.len() - i,
{
    if i < 0 || i >= s.len() {
        Seq::empty()
    } else if reads(s, i, 3) {
        table(window(s, i, 3)).unwrap() + translit_from(s, i + 3)
    } else if reads(s, i, 2) {
        table(window(s, i, 2)).unwrap() + translit_from(s, i + 2)
    } else if reads(s, i, 1) {
        table(window(s, i, 1)).unwrap() + translit_from(s, i + 1)
    } else {
        seq![s[i]] + translit_from(s, i + 1)
    }
}

/// `converted`, capitalised to match `original`: if `original` starts with an
/// uppercase letter, the first character of `converted` is uppercased.
pub open spec fn restored_case(original: Seq<char>, converted: Seq<char>) -> Seq<char> {
    if original.len() > 0 && unicode_uppercase(original[0]) && converted.len() > 0 {
        unicode_char_upper(converted[0]) + converted.drop_first()
    } else {
        converted
    }
}

/// The single most likely transliteration of `input`.
pub open spec fn transliteration(input: Seq<char>) -> Seq<char> {
    restored_case(input, translit_from(unicode_lower(input), 0))
}

/// The readings of the window of length `len` at `i`: the main one, then the
/// alternate one.
pub open spec fn window_readings(s: Seq<char>, i: int, len: int) -> Seq<Seq<char>> {
    if 0 <= i && i + len <= s.len() {
        let k = window(s, i, len);
        (if table(k) is Some {
            seq![table(k).unwrap()]
        } else {
            Seq::empty()
        }) + (if alternate(k) is Some {
            seq![alternate(k).unwrap()]
        } else {
            Seq::empty()
        })
    } else {
        Seq::empty()
    }
}

/// Prefix every sequence of `rest` with `p`.
pub open spec fn prefixed(p: Seq<char>, rest: Seq<Seq<char>>) -> Seq<Seq<char>> {
    rest.map_values(|x: Seq<char>| p + x)
}

/// Every reading of `s` from position `i`, in the order a depth-first search
/// that tries longer windows first, and the main reading before the alternate,
/// meets them.
pub open spec fn readings_from(s: Seq<char>, i: int) -> Seq<Seq<char>>
    decreases s.len() - i, 4int,
{
    if i < 0 || i >= s.len() {
        seq![Seq::empty()]
    } else if window_readings(s, i, 3).len() + window_readings(s, i, 2).len() + window_readings(
        s,
        i,
        1,
    ).len() > 0 {
        branch(s, i, 3, 0) + branch(s, i, 2, 0) + branch(s, i, 1, 0)
    } else {
        prefixed(seq![s[i]], readings_from(s, i + 1))
    }
}

/// The readings that start with the `r`-th reading of the window of length
/// `len` at `i`, and with the later readings of that window.
pub open spec fn branch(s: Seq<char>, i: int, len: int, r: int) -> Seq<Seq<char>>
    decreases s.len() - i, len, 2 - r,
{
    if 0 <= i < s.len() && 1 <= len <= 3 && 0 <= r < window_readings(s, i, len).len() && r < 2 {
        prefixed(window_readings(s, i, len)[r], readings_from(s, i + len)) + branch(
            s,
            i,
            len,
            r + 1,
        )
    } else {
        Seq::empty()
    }
}

/// `s` with later repeats removed.
pub open spec fn dedup_first(s: Seq<Seq<char>>) -> Seq<Seq<char>>
    decreases s.len(),
{
    if s.len() == 0 {
        Seq::empty()
    } else {
        let d = dedup_first(s.drop_last());
        if d.contains(s.last()) {
            d
        } else {
            d.push(s.last())
        }
    }
}

/// The first `n` elements of `s`, or all of them when there are fewer.
pub open spec fn take_at_most<A>(s: Seq<A>, n: int) -> Seq<A> {
    if s.len() <= n {
        s
    } else {
        s.take(n)
    }
}

/// `out` extended by the leading elements of `items`, stopping once `out`
/// holds `cap` elements.
pub open spec fn capped_extend<A>(out: Seq<A>, items: Seq<A>, cap: int) -> Seq<A> {
    if out.len() >= cap {
        out
    } else {
        out + take_at_most(items, cap - out.len())
    }
}

/// The characters of each string.
pub open spec fn views(v: Seq<String>) -> Seq<Seq<char>> {
    v.map_values(|s: String| s@)
}

/// The readings `candidates` returns for `input`: the first
/// [`MAX_CANDIDATES`] readings of its lowercase, each recapitalised to match
/// `input`, without repeats.
pub open spec fn candidate_readings(input: Seq<char>) -> Seq<Seq<char>> {
    dedup_first(
        take_at_most(readings_from(unicode_lower(input), 0), MAX_CANDIDATES as int).map_values(
            |r: Seq<char>| restored_case(input, r),
        ),
    )
}

proof fn lemma_capped_extend_twice<A>(o: Seq<A>, a: Seq<A>, b: Seq<A>, cap: int)
    ensures
        capped_extend(capped_extend(o, a, cap), b, cap) == capped_extend(o, a + b, cap),
{
    if o.len() >= cap {
    } else if o.len() + a.len() >= cap {
        let n = cap - o.len();
        assert(take_at_most(a + b, n) =~= take_at_most(a, n));
    } else {
        let o2 = o + a;
        assert(take_at_most(a + b, cap - o.len()) =~= a + take_at_most(b, cap - o2.len()));
        assert(o2 + take_at_most(b, cap - o2.len()) =~= o + (a + take_at_most(b, cap - o2.len())));
    }
}

proof fn lemma_prefixed_concat(p: Seq<char>, a: Seq<Seq<char>>, b: Seq<Seq<char>>)
    ensures
        prefixed(p, a + b) == prefixed(p, a) + prefixed(p, b),
{
    assert(prefixed(p, a + b) =~= prefixed(p, a) + prefixed(p, b));
}

proof fn lemma_prefixed_prefixed(p: Seq<char>, q: Seq<char>, x: Seq<Seq<char>>)
    ensures
        prefixed(p + q, x) == prefixed(p, prefixed(q, x)),
{
    assert forall|k: int| 0 <= k < x.len() implies (p + q) + x[k] =~= p + (q + x[k]) by {}
    assert(prefixed(p + q, x) =~= prefixed(p, prefixed(q, x)));
}

/// The characters of `v`, as a `String`.
fn string_of(v: &Vec<char>) -> (r: String)
    ensures
        r@ == v@,
{
    let mut out = String::new();
    let mut k: usize = 0;
    while k < v.len()
        invariant
            0 <= k <= v@.len(),
            out@ == v@.take(k as int),
        decreases v.len() - k,
    {
        push_char(&mut out, v[k]);
        proof {
            assert(v@.take(k + 1) =~= v@.take(k as int).push(v@[k as int]));
        }
        k = k + 1;
    }
    proof {
        assert(v@.take(v@.len() as int) =~= v@);
    }
    out
}

/// Appends the first `n` of `a, b` to `acc`.
fn push_chars(acc: &mut Vec<char>, n: usize, a: char, b: char)
    requires
        n <= 2,
    ensures
        final(acc)@ == old(acc)@ + seq![a, b].take(n as int),
{
    if n >= 1 {
        acc.push(a);
    }
    if n >= 2 {
        acc.push(b);
    }
    proof {
        if n == 0 {
            assert(seq![a, b].take(0) =~= Seq::<char>::empty());
        } else if n == 1 {
            assert(seq![a, b].take(1) =~= seq![a]);
        } else {
            assert(seq![a, b].take(2) =~= seq![a, b]);
        }
        assert(final(acc)@ =~= old(acc)@ + seq![a, b].take(n as int));
    }
}

/// Enumerate the readings of `chars` from `i`, each prefixed with `acc`, into
/// `out`, stopping at [`MAX_CANDIDATES`].
fn expand(chars: &Vec<char>, i: usize, acc: &mut Vec<char>, out: &mut Vec<String>)
    requires
        i <= chars@.len(),
    ensures
        final(acc)@ == old(acc)@,
        views(final(out)@) == capped_extend(
            views(old(out)@),
            prefixed(old(acc)@, readings_from(chars@, i as int)),
            MAX_CANDIDATES as int,
        ),
    decreases chars@.len() - i, 1int,
{
    let ghost s = chars@;
    if out.len() >= MAX_CANDIDATES {
        proof {
            assert(views(out@).len() == out@.len());
        }
        return;
    }
    if i >= chars.len() {
        let leaf = string_of(acc);
        let ghost before = out@;
        out.push(leaf);
        proof {
            assert(readings_from(s, i as int) == seq![Seq::<char>::empty()]);
            assert(prefixed(acc@, seq![Seq::<char>::empty()]) =~= seq![acc@]);
            assert(views(out@) =~= views(before) + seq![acc@]);
            assert(take_at_most(seq![acc@], MAX_CANDIDATES as int - before.len()) =~= seq![acc@]);
        }
        return;
    }
    let ghost out0 = views(out@);
    let ghost acc0 = acc@;
    let m3 = expand_window(chars, i, 3, acc, out);
    let m2 = expand_window(chars, i, 2, acc, out);
    let m1 = expand_window(chars, i, 1, acc, out);
    proof {
        let b3 = branch(s, i as int, 3, 0);
        let b2 = branch(s, i as int, 2, 0);
        let b1 = branch(s, i as int, 1, 0);
        lemma_capped_extend_twice(out0, prefixed(acc0, b3), prefixed(acc0, b2), MAX_CANDIDATES as int);
        lemma_prefixed_concat(acc0, b3, b2);
        lemma_capped_extend_twice(out0, prefixed(acc0, b3 + b2), prefixed(acc0, b1), MAX_CANDIDATES as int);
        lemma_prefixed_concat(acc0, b3 + b2, b1);
    }
    if !(m3 || m2 || m1) {
        let ghost out1 = views(out@);
        proof {
            assert(out1 == out0) by {
                assert(branch(s, i as int, 3, 0) =~= Seq::<Seq<char>>::empty());
                assert(branch(s, i as int, 2, 0) =~= Seq::<Seq<char>>::empty());
                assert(branch(s, i as int, 1, 0) =~= Seq::<Seq<char>>::empty());
                assert(prefixed(acc0, Seq::<Seq<char>>::empty()) =~= Seq::<Seq<char>>::empty());
                assert(take_at_most(Seq::<Seq<char>>::empty(), MAX_CANDIDATES as int - out0.len()) =~= Seq::<Seq<char>>::empty());
                assert(out0 + Seq::<Seq<char>>::empty() =~= out0);
            }
        }
        acc.push(chars[i]);
        expand(chars, i + 1, acc, out);
        acc.pop();
        proof {
            lemma_prefixed_prefixed(acc0, seq![s[i as int]], readings_from(s, i + 1));
            assert(acc0.push(s[i as int]) =~= acc0 + seq![s[i as int]]);
        }
    }
}

/// The readings of the window of length `len` at `i`, each followed by every
/// reading of the rest, prefixed with `acc`, into `out`. Returns whether the
/// window had a reading.
fn expand_window(
    chars: &Vec<char>,
    i: usize,
    len: usize,
    acc: &mut Vec<char>,
    out: &mut Vec<String>,
) -> (r: bool)
    requires
        i < chars@.len(),
        1 <= len <= 3,
    ensures
        r == (window_readings(chars@, i as int, len as int).len() > 0),
        final(acc)@ == old(acc)@,
        views(final(out)@) == capped_extend(
            views(old(out)@),
            prefixed(old(acc)@, branch(chars@, i as int, len as int, 0)),
            MAX_CANDIDATES as int,
        ),
    decreases chars@.len() - i, 0int,
{
    let ghost s = chars@;
    let ghost acc0 = acc@;
    let ghost out0 = views(out@);
    let ghost wr = window_readings(s, i as int, len as int);
    let t = table_at(chars, i, len);
    let alt = alternate_at(chars, i, len);
    let ghost rest = readings_from(s, i + len);
    proof {
        reveal_with_fuel(branch, 3);
        let k = window(s, i as int, len as int);
        if t.0 < 3 {
            assert(wr[0] == table(k).unwrap());
        }
        if alt is Some {
            if t.0 < 3 {
                assert(wr[1] == alternate(k).unwrap());
            } else {
                assert(wr[0] == alternate(k).unwrap());
            }
        }
    }
    if t.0 < 3 {
        let mark = acc.len();
        push_chars(acc, t.0, t.1, t.2);
        let n = chars.len();
        proof {
            assert(reads(s, i as int, len as int));
            assert(i + len <= n);
        }
        expand(chars, i + len, acc, out);
        acc.truncate(mark);
        proof {
            assert(acc@ =~= acc0);
            lemma_prefixed_prefixed(acc0, wr[0], rest);
        }
    }
    let ghost out1 = views(out@);
    if let Some(c) = alt {
        acc.push(c);
        expand(chars, i + len, acc, out);
        acc.pop();
        proof {
            assert(acc0.push(c) =~= acc0 + seq![c]);
            let w = if t.0 < 3 { wr[1] } else { wr[0] };
            assert(w == seq![c]);
            lemma_prefixed_prefixed(acc0, seq![c], rest);
        }
    }
    proof {
        let emp = Seq::<Seq<char>>::empty();
        assert(prefixed(acc0, emp) =~= emp);
        assert forall|o: Seq<Seq<char>>| #[trigger] capped_extend(o, emp, MAX_CANDIDATES as int) == o by {
            if o.len() < MAX_CANDIDATES as int {
                assert(take_at_most(emp, MAX_CANDIDATES as int - o.len()) =~= emp);
                assert(o + emp =~= o);
            }
        }
        if t.0 < 3 && alt is Some {
            assert(branch(s, i as int, len as int, 2) =~= emp);
            assert(branch(s, i as int, len as int, 1) == prefixed(wr[1], rest) + emp);
            assert(prefixed(wr[1], rest) + emp =~= prefixed(wr[1], rest));
            assert(branch(s, i as int, len as int, 0) == prefixed(wr[0], rest) + prefixed(wr[1], rest));
            lemma_prefixed_concat(acc0, prefixed(wr[0], rest), prefixed(wr[1], rest));
            lemma_capped_extend_twice(out0, prefixed(acc0, prefixed(wr[0], rest)), prefixed(acc0, prefixed(wr[1], rest)), MAX_CANDIDATES as int);
        } else if t.0 < 3 || alt is Some {
            assert(branch(s, i as int, len as int, 1) =~= emp);
            assert(branch(s, i as int, len as int, 0) =~= prefixed(wr[0], rest));
        } else {
            assert(branch(s, i as int, len as int, 0) =~= emp);
        }
    }
    t.0 < 3 || alt.is_some()
}

/// Every plausible reading of `input`, for a caller that can check them against
/// a lexicon. The longest-match reading is always the first.
pub fn candidates(input: &str) -> (r: Vec<String>)
    ensures
        views(r@) == candidate_readings(input@),
{
    let lower = to_lowercase(input);
    let chars = chars_of(lower.as_str());
    let mut acc: Vec<char> = Vec::new();
    let mut out: Vec<String> = Vec::new();
    expand(&chars, 0, &mut acc, &mut out);
    let ghost all = readings_from(chars@, 0);
    proof {
        assert(views(Seq::<String>::empty()) =~= Seq::<Seq<char>>::empty());
        assert(prefixed(Seq::<char>::empty(), all) =~= all);
        assert(Seq::<Seq<char>>::empty() + take_at_most(all, MAX_CANDIDATES as int) =~= take_at_most(all, MAX_CANDIDATES as int));
    }
    let ghost cased = take_at_most(all, MAX_CANDIDATES as int).map_values(
        |r: Seq<char>| restored_case(input@, r),
    );
    let mut seen: Vec<String> = Vec::new();
    let mut k: usize = 0;
    while k < out.len()
        invariant
            0 <= k <= out@.len(),
            views(out@) == take_at_most(all, MAX_CANDIDATES as int),
            cased == take_at_most(all, MAX_CANDIDATES as int).map_values(
                |r: Seq<char>| restored_case(input@, r),
            ),
            views(seen@) == dedup_first(cased.take(k as int)),
        decreases out.len() - k,
    {
        let c = restore_case(input, out[k].as_str());
        proof {
            assert(c@ == cased[k as int]);
            assert(cased.take(k + 1).drop_last() =~= cased.take(k as int));
        }
        let mut found = false;
        let mut m: usize = 0;
        while m < seen.len()
            invariant
                0 <= m <= seen@.len(),
                found == exists|j: int| 0 <= j < m && seen@[j]@ == c@,
            decreases seen.len() - m,
        {
            if seen[m] == c {
                found = true;
            }
            m = m + 1;
        }
        proof {
            let d = dedup_first(cased.take(k as int));
            if found {
                let j = choose|j: int| 0 <= j < m && seen@[j]@ == c@;
                assert(views(seen@)[j] == c@);
                assert(d.contains(c@));
            } else {
                assert(!d.contains(c@)) by {
                    if d.contains(c@) {
                        let j = choose|j: int| 0 <= j < d.len() && d[j] == c@;
                        assert(seen@[j]@ == c@);
                    }
                }
            }
        }
        if !found {
            let ghost before = seen@;
            seen.push(c);
            proof {
                assert(views(seen@) =~= views(before).push(c@));
            }
        }
        k = k + 1;
    }
    proof {
        assert(cased.take(out@.len() as int) =~= cased);
    }
    seen
}

/// Main reading of the window of length `len` at `i`, as (count, first, second).
fn table_at(s: &Vec<char>, i: usize, len: usize) -> (r: (usize, char, char))
    requires
        1 <= len <= 3,
    ensures
        r.0 <= 3,
        (r.0 < 3) == reads(s@, i as int, len as int),
        r.0 < 3 ==> table(window(s@, i as int, len as int)).unwrap() == seq![r.1, r.2].take(
            r.0 as int,
        ),
{
    if i >= s.len() || len > s.len() - i {
        return (3, ' ', ' ');
    }
    let ghost k = window(s@, i as int, len as int);
    let a = s[i];
    if len == 1 {
        let r: (usize, char, char) = match a {
            'ž' => (1, 'ж', ' '),
            'č' => (1, 'ч', ' '),
            'š' => (1, 'ш', ' '),
            'đ' => (1, 'ѓ', ' '),
            'ǵ' => (1, 'ѓ', ' '),
            'ć' => (1, 'ќ', ' '),
            'ḱ' => (1, 'ќ', ' '),
            'a' => (1, 'а', ' '),
            'b' => (1, 'б', ' '),
            'v' => (1, 'в', ' '),
            'g' => (1, 'г', ' '),
            'd' => (1, 'д', ' '),
            'e' => (1, 'е', ' '),
            'z' => (1, 'з', ' '),
            'i' => (1, 'и', ' '),
            'j' => (1, 'ј', ' '),
            'k' => (1, 'к', ' '),
            'l' => (1, 'л', ' '),
            'm' => (1, 'м', ' '),
            'n' => (1, 'н', ' '),
            'o' => (1, 'о', ' '),
            'p' => (1, 'п', ' '),
            'r' => (1, 'р', ' '),
            's' => (1, 'с', ' '),
            't' => (1, 'т', ' '),
            'u' => (1, 'у', ' '),
            'f' => (1, 'ф', ' '),
            'h' => (1, 'х', ' '),
            'c' => (1, 'ц', ' '),
            'w' => (1, 'в', ' '),
            'q' => (1, 'к', ' '),
            'x' => (2, 'к', 'с'),
            'y' => (1, 'ј', ' '),
            _ => (3, ' ', ' '),
        };
        proof {
            assert(k[0] == a);
            if r.0 < 3 {
                assert(table(k).unwrap() =~= seq![r.1, r.2].take(r.0 as int));
            }
        }
        return r;
    }
    let b = s[i + 1];
    if len == 2 {
        let r: (usize, char, char) = match (a, b) {
            ('d', 'ž') => (1, 'џ', ' '),
            ('z', 'h') => (1, 'ж', ' '),
            ('c', 'h') => (1, 'ч', ' '),
            ('s', 'h') => (1, 'ш', ' '),
            ('g', 'j') => (1, 'ѓ', ' '),
            ('g', 'y') => (1, 'ѓ', ' '),
            ('d', 'j') => (1, 'ѓ', ' '),
            ('k', 'j') => (1, 'ќ', ' '),
            ('k', 'y') => (1, 'ќ', ' '),
            ('d', 'z') => (1, 'ѕ', ' '),
            ('l', 'j') => (1, 'љ', ' '),
            ('n', 'j') => (1, 'њ', ' '),
            ('t', 's') => (1, 'ц', ' '),
            _ => (3, ' ', ' '),
        };
        proof {
            assert(k[0] == a && k[1] == b);
            if r.0 < 3 {
                assert(table(k).unwrap() =~= seq![r.1, r.2].take(r.0 as int));
            }
        }
        return r;
    }
    let c = s[i + 2];
    proof {
        assert(k[0] == a && k[1] == b && k[2] == c);
    }
    if a == 'd' && b == 'z' && c == 'h' {
        proof {
            assert(table(k).unwrap() =~= seq!['џ', ' '].take(1));
        }
        (1, 'џ', ' ')
    } else {
        (3, ' ', ' ')
    }
}

/// Alternate reading of the single character at `i`, as (count, char).
fn alternate_at(s: &Vec<char>, i: usize, len: usize) -> (r: Option<char>)
    ensures
        (r is Some) == (0 <= i && i + len <= s@.len() && alternate(window(s@, i as int, len as int)) is Some),
        r is Some ==> alternate(window(s@, i as int, len as int)).unwrap() == seq![r.unwrap()],
{
    if len != 1 || i >= s.len() {
        return None;
    }
    let ghost k = window(s@, i as int, 1);
    proof {
        assert(k[0] == s@[i as int]);
    }
    match s[i] {
        'c' => Some('к'),
        'j' => Some('џ'),
        'y' => Some('и'),
        'x' => Some('х'),
        _ => None,
    }
}

/// Appends the first `n` of `a, b` to `out`.
fn push_reading(out: &mut String, n: usize, a: char, b: char)
    requires
        n <= 2,
    ensures
        final(out)@ == old(out)@ + seq![a, b].take(n as int),
{
    if n >= 1 {
        push_char(out, a);
    }
    if n >= 2 {
        push_char(out, b);
    }
    proof {
        if n == 0 {
            assert(seq![a, b].take(0) =~= Seq::<char>::empty());
        } else if n == 1 {
            assert(seq![a, b].take(1) =~= seq![a]);
        } else {
            assert(seq![a, b].take(2) =~= seq![a, b]);
        }
        assert(final(out)@ =~= old(out)@ + seq![a, b].take(n as int));
    }
}

/// The single most likely transliteration, using longest-match-first.
///
/// Use this when there is no lexicon to consult. When there is one, prefer
/// [`candidates`], which surfaces the readings this function has to discard.
pub fn transliterate(input: &str) -> (r: String)
    ensures
        r@ == transliteration(input@),
{
    let lower = to_lowercase(input);
    let chars = chars_of(lower.as_str());
    let ghost s = chars@;
    let mut out = String::new();
    let mut i: usize = 0;
    while i < chars.len()
        invariant
            0 <= i <= chars@.len(),
            s == chars@,
            out@ + translit_from(s, i as int) == translit_from(s, 0),
        decreases chars.len() - i,
    {
        let t3 = table_at(&chars, i, 3);
        let ghost before = out@;
        if t3.0 < 3 {
            push_reading(&mut out, t3.0, t3.1, t3.2);
            proof {
                assert(out@ + translit_from(s, i + 3) =~= before + translit_from(s, i as int));
            }
            i = i + 3;
            continue;
        }
        let t2 = table_at(&chars, i, 2);
        if t2.0 < 3 {
            push_reading(&mut out, t2.0, t2.1, t2.2);
            proof {
                assert(out@ + translit_from(s, i + 2) =~= before + translit_from(s, i as int));
            }
            i = i + 2;
            continue;
        }
        let t1 = table_at(&chars, i, 1);
        if t1.0 < 3 {
            push_reading(&mut out, t1.0, t1.1, t1.2);
            proof {
                assert(out@ + translit_from(s, i + 1) =~= before + translit_from(s, i as int));
            }
            i = i + 1;
            continue;
        }
        push_char(&mut out, chars[i]);
        proof {
            assert(out@ + translit_from(s, i + 1) =~= before + translit_from(s, i as int));
        }
        i = i + 1;
    }
    proof {
        assert(out@ + translit_from(s, i as int) =~= out@);
    }
    restore_case(input, out.as_str())
}

/// If `original` started with a capital, capitalise `converted` to match.
fn restore_case(original: &str, converted: &str) -> (r: String)
    ensures
        r@ == restored_case(original@, converted@),
{
    let starts_upper = original.unicode_len() > 0 && is_uppercase(original.get_char(0));
    if !starts_upper {
        return String::from_str(converted);
    }
    let chars = chars_of(converted);
    if chars.len() == 0 {
        return String::from_str(converted);
    }
    let mut out = char_to_uppercase(chars[0]);
    let mut k: usize = 1;
    while k < chars.len()
        invariant
            1 <= k <= chars@.len(),
            chars@ == converted@,
            out@ == unicode_char_upper(chars@[0]) + chars@.subrange(1, k as int),
        decreases chars.len() - k,
    {
        push_char(&mut out, chars[k]);
        proof {
            assert(chars@.subrange(1, k + 1) =~= chars@.subrange(1, k as int).push(chars@[k as int]));
        }
        k = k + 1;
    }
    proof {
        assert(chars@.subrange(1, chars@.len() as int) =~= chars@.drop_first());
    }
    out
}

/// Every window with an alternate reading also has a main one.
proof fn lemma_alternate_has_main(k: Seq<char>)
    requires
        alternate(k) is Some,
    ensures
        table(k) is Some,
{
}

/// The window readings are non-empty exactly when the table reads the
/// window, and then the main reading comes first.
proof fn lemma_window_readings(s: Seq<char>, i: int, len: int)
    requires
        0 <= i < s.len(),
        1 <= len <= 3,
    ensures
        window_readings(s, i, len).len() > 0 <==> reads(s, i, len),
        reads(s, i, len) ==> window_readings(s, i, len)[0] == table(window(s, i, len)).unwrap(),
{
    if i + len <= s.len() {
        let k = window(s, i, len);
        if alternate(k) is Some {
            lemma_alternate_has_main(k);
        }
    }
}

/// The first reading of a branch taken from its first window reading.
proof fn lemma_branch_first(s: Seq<char>, i: int, len: int)
    requires
        0 <= i < s.len(),
        1 <= len <= 3,
        window_readings(s, i, len).len() > 0,
        readings_from(s, i + len).len() >= 1,
    ensures
        branch(s, i, len, 0).len() >= 1,
        branch(s, i, len, 0)[0] == window_readings(s, i, len)[0] + readings_from(s, i + len)[0],
{
    let head = prefixed(window_readings(s, i, len)[0], readings_from(s, i + len));
    assert(branch(s, i, len, 0) == head + branch(s, i, len, 1));
    assert(head[0] == window_readings(s, i, len)[0] + readings_from(s, i + len)[0]);
}

/// A branch whose window has no reading is empty.
proof fn lemma_branch_empty(s: Seq<char>, i: int, len: int)
    requires
        window_readings(s, i, len).len() == 0,
    ensures
        branch(s, i, len, 0) == Seq::<Seq<char>>::empty(),
{
}

/// The first reading from position `i` is the longest-match transliteration
/// from there.
proof fn lemma_first_reading(s: Seq<char>, i: int)
    requires
        0 <= i <= s.len(),
    ensures
        readings_from(s, i).len() >= 1,
        readings_from(s, i)[0] == translit_from(s, i),
    decreases s.len() - i,
{
    if i < s.len() {
        lemma_first_reading(s, i + 1);
        lemma_window_readings(s, i, 1);
        lemma_window_readings(s, i, 2);
        lemma_window_readings(s, i, 3);
        if reads(s, i, 3) {
            lemma_first_reading(s, i + 3);
            lemma_branch_first(s, i, 3);
        } else if reads(s, i, 2) {
            lemma_first_reading(s, i + 2);
            lemma_branch_empty(s, i, 3);
            lemma_branch_first(s, i, 2);
            assert(branch(s, i, 3, 0) + branch(s, i, 2, 0) + branch(s, i, 1, 0) == branch(s, i, 2, 0)
                + branch(s, i, 1, 0));
        } else if reads(s, i, 1) {
            lemma_branch_empty(s, i, 3);
            lemma_branch_empty(s, i, 2);
            lemma_branch_first(s, i, 1);
            assert(branch(s, i, 3, 0) + branch(s, i, 2, 0) + branch(s, i, 1, 0) == branch(s, i, 1, 0));
        } else {
            let rest = readings_from(s, i + 1);
            assert(prefixed(seq![s[i]], rest)[0] == seq![s[i]] + rest[0]);
        }
    }
}

/// Removing later repeats keeps the first element first.
proof fn lemma_dedup_first_head(s: Seq<Seq<char>>)
    requires
        s.len() >= 1,
    ensures
        dedup_first(s).len() >= 1,
        dedup_first(s)[0] == s[0],
    decreases s.len(),
{
    if s.len() == 1 {
        assert(s.drop_last() =~= Seq::<Seq<char>>::empty());
    } else {
        lemma_dedup_first_head(s.drop_last());
    }
}

/// Law: the first candidate reading of a word is its longest-match
/// transliteration, so a caller that checks candidates against a lexicon
/// tries the most likely reading first.
pub proof fn lemma_longest_match_first(input: Seq<char>)
    ensures
        candidate_readings(input).len() >= 1,
        candidate_readings(input)[0] == transliteration(input),
{
    let lower = unicode_lower(input);
    lemma_first_reading(lower, 0);
    let all = readings_from(lower, 0);
    let taken = take_at_most(all, MAX_CANDIDATES as int);
    assert(taken[0] == all[0]);
    let cased = taken.map_values(|r: Seq<char>| restored_case(input, r));
    assert(cased[0] == restored_case(input, all[0]));
    lemma_dedup_first_head(cased);
}

/// Removing repeats never lengthens a list.
proof fn lemma_dedup_first_len(s: Seq<Seq<char>>)
    ensures
        dedup_first(s).len() <= s.len(),
    decreases s.len(),
{
    if s.len() > 0 {
        lemma_dedup_first_len(s.drop_last());
    }
}

/// Law: however ambiguous a word, it has at most [`MAX_CANDIDATES`]
/// candidate readings.
pub proof fn lemma_candidates_bounded(input: Seq<char>)
    ensures
        candidate_readings(input).len() <= MAX_CANDIDATES,
{
    let taken = take_at_most(readings_from(unicode_lower(input), 0), MAX_CANDIDATES as int);
    lemma_dedup_first_len(taken.map_values(|r: Seq<char>| restored_case(input, r)));
}

/// Law: where no digraph or trigraph of the table starts, a single Latin
/// letter reads as its Macedonian letter: `a б в г д е з и ј к л м н о п р
/// с т у ф х ц` for `a b v g d e z i j k l m n o p r s t u f h c`, `w` as
/// `в`, `q` as `к`, `x` as `кс`, `y` as `ј`, and the letters with a
/// diacritic `ž č š đ ǵ ć ḱ` as `ж ч ш ѓ ѓ ќ ќ`; reading goes on after it.
pub proof fn lemma_single_letters(s: Seq<char>, i: int)
    requires
        0 <= i < s.len(),
        !reads(s, i, 3),
        !reads(s, i, 2),
    ensures
        ({
            &&& s[i] == 'a' ==> translit_from(s, i) == seq!['а'] + translit_from(s, i + 1)
            &&& s[i] == 'b' ==> translit_from(s, i) == seq!['б'] + translit_from(s, i + 1)
            &&& s[i] == 'v' ==> translit_from(s, i) == seq!['в'] + translit_from(s, i + 1)
            &&& s[i] == 'g' ==> translit_from(s, i) == seq!['г'] + translit_from(s, i + 1)
            &&& s[i] == 'd' ==> translit_from(s, i) == seq!['д'] + translit_from(s, i + 1)
            &&& s[i] == 'e' ==> translit_from(s, i) == seq!['е'] + translit_from(s, i + 1)
            &&& s[i] == 'z' ==> translit_from(s, i) == seq!['з'] + translit_from(s, i + 1)
            &&& s[i] == 'i' ==> translit_from(s, i) == seq!['и'] + translit_from(s, i + 1)
            &&& s[i] == 'j' ==> translit_from(s, i) == seq!['ј'] + translit_from(s, i + 1)
            &&& s[i] == 'k' ==> translit_from(s, i) == seq!['к'] + translit_from(s, i + 1)
            &&& s[i] == 'l' ==> translit_from(s, i) == seq!['л'] + translit_from(s, i + 1)
            &&& s[i] == 'm' ==> translit_from(s, i) == seq!['м'] + translit_from(s, i + 1)
            &&& s[i] == 'n' ==> translit_from(s, i) == seq!['н'] + translit_from(s, i + 1)
            &&& s[i] == 'o' ==> translit_from(s, i) == seq!['о'] + translit_from(s, i + 1)
            &&& s[i] == 'p' ==> translit_from(s, i) == seq!['п'] + translit_from(s, i + 1)
            &&& s[i] == 'r' ==> translit_from(s, i) == seq!['р'] + translit_from(s, i + 1)
            &&& s[i] == 's' ==> translit_from(s, i) == seq!['с'] + translit_from(s, i + 1)
            &&& s[i] == 't' ==> translit_from(s, i) == seq!['т'] + translit_from(s, i + 1)
            &&& s[i] == 'u' ==> translit_from(s, i) == seq!['у'] + translit_from(s, i + 1)
            &&& s[i] == 'f' ==> translit_from(s, i) == seq!['ф'] + translit_from(s, i + 1)
            &&& s[i] == 'h' ==> translit_from(s, i) == seq!['х'] + translit_from(s, i + 1)
            &&& s[i] == 'c' ==> translit_from(s, i) == seq!['ц'] + translit_from(s, i + 1)
            &&& s[i] == 'w' ==> translit_from(s, i) == seq!['в'] + translit_from(s, i + 1)
            &&& s[i] == 'q' ==> translit_from(s, i) == seq!['к'] + translit_from(s, i + 1)
            &&& s[i] == 'y' ==> translit_from(s, i) == seq!['ј'] + translit_from(s, i + 1)
            &&& s[i] == 'ž' ==> translit_from(s, i) == seq!['ж'] + translit_from(s, i + 1)
            &&& s[i] == 'č' ==> translit_from(s, i) == seq!['ч'] + translit_from(s, i + 1)
            &&& s[i] == 'š' ==> translit_from(s, i) == seq!['ш'] + translit_from(s, i + 1)
            &&& s[i] == 'đ' ==> translit_from(s, i) == seq!['ѓ'] + translit_from(s, i + 1)
            &&& s[i] == 'ǵ' ==> translit_from(s, i) == seq!['ѓ'] + translit_from(s, i + 1)
            &&& s[i] == 'ć' ==> translit_from(s, i) == seq!['ќ'] + translit_from(s, i + 1)
            &&& s[i] == 'ḱ' ==> translit_from(s, i) == seq!['ќ'] + translit_from(s, i + 1)
            &&& s[i] == 'x' ==> translit_from(s, i) == seq!['к', 'с'] + translit_from(s, i + 1)
        }),
{
    assert(window(s, i, 1) =~= seq![s[i]]);
}

} // verus!
