//! What the Levenshtein automaton computes.
//!
//! The automaton reads a key one byte at a time. These theorems connect its
//! state machine (`Levenshtein::run`) to the characters the bytes encode:
//!
//! * a key is accepted exactly when it is valid UTF-8 and its characters are
//!   within the edit budget of the query;
//! * a state that `can_match` rejects has no accepted continuation, so a search
//!   that prunes there loses nothing, and what it yields is what is accepted;
//! * a larger budget accepts everything a smaller one does.

use vstd::prelude::*;
use vstd::utf8::{
    valid_utf8, decode_utf8, encode_utf8, encode_scalar, decode_first_scalar,
    pop_first_scalar, valid_first_scalar, length_of_first_scalar, char_is_scalar,
    encode_utf8_valid_utf8, encode_utf8_decode_utf8, decode_utf8_encode_utf8, valid_utf8_concat,
};
use crate::levenshtein::{
    Levenshtein, LevState, edit_distance, min_nat, capped_row, step_cell, step_row, all_over,
    lead_width,
};
use crate::text::{lemma_encode_concat, lemma_encode_push};

verus! {

/// The distance to an empty query is the length of the input.
proof fn lemma_ed_to_empty(a: Seq<char>)
    ensures
        edit_distance(a, Seq::<char>::empty()) == a.len(),
{
}

/// Reading more characters never costs less than the cheapest way to reach
/// some prefix of the query with what was read so far.
proof fn lemma_extension_lower_bound(s: Seq<char>, t: Seq<char>, q: Seq<char>) -> (i: int)
    ensures
        0 <= i <= q.len(),
        edit_distance(s + t, q) >= edit_distance(s, q.take(i)),
    decreases t.len() + q.len(),
{
    if t.len() == 0 {
        assert(s + t =~= s);
        assert(q.take(q.len() as int) =~= q);
        q.len() as int
    } else if q.len() == 0 {
        assert(q.take(0) =~= q);
        lemma_ed_to_empty(s + t);
        lemma_ed_to_empty(s);
        0
    } else {
        let a = s + t;
        assert(a.drop_last() =~= s + t.drop_last());
        let i1 = lemma_extension_lower_bound(s, t.drop_last(), q.drop_last());
        let i2 = lemma_extension_lower_bound(s, t.drop_last(), q);
        let i3 = lemma_extension_lower_bound(s, t, q.drop_last());
        assert(q.drop_last().take(i1) =~= q.take(i1));
        assert(q.drop_last().take(i3) =~= q.take(i3));
        let sub = edit_distance(a.drop_last(), q.drop_last()) + if a.last() == q.last() {
            0nat
        } else {
            1nat
        };
        let del = edit_distance(a.drop_last(), q) + 1;
        let ins = edit_distance(a, q.drop_last()) + 1;
        assert(edit_distance(a, q) == min_nat(min_nat(sub, del), ins));
        if edit_distance(a, q) == sub {
            i1
        } else if edit_distance(a, q) == del {
            i2
        } else {
            i3
        }
    }
}

/// One step of the capped dynamic programme is the capped distance after one
/// more character.
proof fn lemma_step_cell(q: Seq<char>, cap: nat, s: Seq<char>, c: char, i: int)
    requires
        0 <= i <= q.len(),
    ensures
        step_cell(q, cap, capped_row(q, cap, s), c, i) == min_nat(
            edit_distance(s.push(c), q.take(i)),
            cap,
        ),
    decreases i,
{
    let prev = capped_row(q, cap, s);
    let a = s.push(c);
    assert(a.drop_last() =~= s);
    if i == 0 {
        assert(q.take(0) =~= Seq::<char>::empty());
        lemma_ed_to_empty(s);
        lemma_ed_to_empty(a);
    } else {
        lemma_step_cell(q, cap, s, c, i - 1);
        let b = q.take(i);
        assert(b.drop_last() =~= q.take(i - 1));
        assert(b.last() == q[i - 1]);
        assert(a.last() == c);
        let sub = edit_distance(s, q.take(i - 1)) + if c == q[i - 1] {
            0nat
        } else {
            1nat
        };
        let del = edit_distance(s, b) + 1;
        let ins = edit_distance(a, q.take(i - 1)) + 1;
        assert(edit_distance(a, b) == min_nat(min_nat(sub, del), ins));
        assert(prev[i - 1] == min_nat(edit_distance(s, q.take(i - 1)), cap));
        assert(prev[i] == min_nat(edit_distance(s, b), cap));
    }
}

/// The row after one more character is the capped row of the longer input.
proof fn lemma_step_row(q: Seq<char>, cap: nat, s: Seq<char>, c: char)
    ensures
        step_row(q, cap, capped_row(q, cap, s), c) == capped_row(q, cap, s.push(c)),
{
    assert forall|i: int| 0 <= i <= q.len() implies step_row(q, cap, capped_row(q, cap, s), c)[i]
        == capped_row(q, cap, s.push(c))[i] by {
        lemma_step_cell(q, cap, s, c, i);
    }
    assert(step_row(q, cap, capped_row(q, cap, s), c) =~= capped_row(q, cap, s.push(c)));
}

/// The bytes of a character begun but not finished: a lead byte announcing
/// `want` bytes, then continuation bytes, fewer than `want` in all.
pub open spec fn partial_char(p: Seq<u8>, want: nat) -> bool {
    if p.len() == 0 {
        want == 0
    } else {
        &&& lead_width(p[0]) == want
        &&& p.len() < want
        &&& forall|j: int| 1 <= j < p.len() ==> 0x80 <= #[trigger] p[j] <= 0xBF
    }
}

/// A live state after `key`: the bytes before the pending ones are valid
/// UTF-8, the row is the capped row of their characters with some cell still
/// within budget, and the pending bytes begin a character.
pub open spec fn live_state_after(aut: Levenshtein, key: Seq<u8>, st: LevState) -> bool {
    let n = key.len() - st.pending.len();
    &&& 0 <= n
    &&& key.subrange(n, key.len() as int) == st.pending
    &&& valid_utf8(key.take(n))
    &&& st.row == capped_row(aut.query(), aut.cap_value(), decode_utf8(key.take(n)))
    &&& !all_over(st.row, aut.budget())
    &&& partial_char(st.pending, st.want)
}

/// A complete, valid character of `want` bytes decodes to one character.
proof fn lemma_single_char(w: Seq<u8>)
    requires
        w.len() >= 1,
        lead_width(w[0]) == w.len(),
        valid_utf8(w),
    ensures
        decode_utf8(w) == seq![decode_utf8(w)[0]],
        valid_first_scalar(w),
        length_of_first_scalar(w) == w.len(),
{
    assert(valid_first_scalar(w));
    assert(length_of_first_scalar(w) == w.len());
    assert(pop_first_scalar(w) =~= Seq::<u8>::empty());
    assert(decode_utf8(pop_first_scalar(w)) =~= Seq::<char>::empty());
    assert(decode_utf8(w) =~= seq![decode_first_scalar(w) as char]);
}

/// Decoding distributes over the concatenation of two valid encodings.
proof fn lemma_decode_concat(a: Seq<u8>, b: Seq<u8>)
    requires
        valid_utf8(a),
        valid_utf8(b),
    ensures
        valid_utf8(a + b),
        decode_utf8(a + b) == decode_utf8(a) + decode_utf8(b),
{
    valid_utf8_concat(a, b);
    let x = decode_utf8(a);
    let y = decode_utf8(b);
    decode_utf8_encode_utf8(a);
    decode_utf8_encode_utf8(b);
    lemma_encode_concat(x, y);
    encode_utf8_decode_utf8(x + y);
}

/// Every state the automaton reaches is dead or live.
pub proof fn lemma_run_live(aut: Levenshtein, key: Seq<u8>)
    requires
        aut.wf(),
    ensures
        !aut.run(key).dead ==> live_state_after(aut, key, aut.run(key)),
    decreases key.len(),
{
    let q = aut.query();
    let cap = aut.cap_value();
    if key.len() == 0 {
        let st = aut.run(key);
        assert(st == aut.start_view());
        assert(key.take(0) =~= Seq::<u8>::empty());
        assert(key.subrange(0, 0) =~= Seq::<u8>::empty());
        assert(decode_utf8(Seq::<u8>::empty()) =~= Seq::<char>::empty());
        assert(q.take(0) =~= Seq::<char>::empty());
        assert(st.row[0] == 0);
    } else {
        let k0 = key.drop_last();
        let b = key.last();
        lemma_run_live(aut, k0);
        let st0 = aut.run(k0);
        let st = aut.run(key);
        assert(st == aut.accept_view(st0, b));
        if !st0.dead && !st.dead {
            let n0 = k0.len() - st0.pending.len();
            let a = k0.take(n0);
            assert(key.take(n0) =~= a);
            let pending = st0.pending.push(b);
            assert(key.subrange(n0, key.len() as int) =~= pending);
            let want = if st0.pending.len() == 0 {
                lead_width(b)
            } else {
                st0.want
            };
            if pending.len() < want {
                assert(st.pending == pending);
                assert(partial_char(st.pending, st.want));
            } else {
                assert(valid_utf8(pending));
                assert(pending.len() == want);
                assert(pending[0] == if st0.pending.len() == 0 {
                    b
                } else {
                    st0.pending[0]
                });
                lemma_single_char(pending);
                let c = decode_utf8(pending)[0];
                lemma_decode_concat(a, pending);
                assert(a + pending =~= key);
                assert(key.take(key.len() as int) =~= key);
                assert(key.subrange(key.len() as int, key.len() as int) =~= Seq::<u8>::empty());
                assert(decode_utf8(key) =~= decode_utf8(a).push(c));
                lemma_step_row(q, cap, decode_utf8(a), c);
            }
        }
    }
}

/// A dead state stays dead whatever follows.
proof fn lemma_dead_sticks(aut: Levenshtein, key: Seq<u8>, rest: Seq<u8>)
    requires
        aut.run(key).dead,
    ensures
        aut.run(key + rest).dead,
    decreases rest.len(),
{
    if rest.len() == 0 {
        assert(key + rest =~= key);
    } else {
        lemma_dead_sticks(aut, key, rest.drop_last());
        assert((key + rest).drop_last() =~= key + rest.drop_last());
    }
}

/// The bytes of one encoded character: a lead byte announcing their number,
/// then continuation bytes.
proof fn lemma_scalar_bytes(c: char)
    ensures
        1 <= encode_scalar(c as u32).len() <= 4,
        lead_width(encode_scalar(c as u32)[0]) == encode_scalar(c as u32).len(),
        forall|j: int|
            1 <= j < encode_scalar(c as u32).len() ==> 0x80 <= #[trigger] encode_scalar(
                c as u32,
            )[j] <= 0xBF,
{
    char_is_scalar(c);
    let v = c as u32;
    assert(v <= 0x7F ==> (v & 0x7F) as u8 <= 0x7F) by (bit_vector);
    assert(0x80 <= v <= 0x7FF ==> 0xC2 <= (0xC0 | ((v >> 6) & 0x1F) as u8) <= 0xDF) by (bit_vector);
    assert(0x800 <= v <= 0xFFFF ==> 0xE0 <= (0xE0 | ((v >> 12) & 0x0F) as u8) <= 0xEF)
        by (bit_vector);
    assert(0x10000 <= v <= 0x10FFFF ==> 0xF0 <= (0xF0 | ((v >> 18) & 0x7) as u8) <= 0xF4)
        by (bit_vector);
    assert(0x80 <= (0x80 | (v & 0x3F) as u8) <= 0xBF) by (bit_vector);
    assert(0x80 <= (0x80 | ((v >> 6) & 0x3F) as u8) <= 0xBF) by (bit_vector);
    assert(0x80 <= (0x80 | ((v >> 12) & 0x3F) as u8) <= 0xBF) by (bit_vector);
}

/// A live, character-aligned state.
pub open spec fn aligned(row: Seq<nat>) -> LevState {
    LevState { row, pending: Seq::empty(), want: 0, dead: false }
}

/// Reading the first `j` bytes of a character's encoding from an aligned
/// state leaves the row alone and those bytes pending.
proof fn lemma_run_char_prefix(aut: Levenshtein, x: Seq<u8>, row: Seq<nat>, c: char, j: int)
    requires
        aut.run(x) == aligned(row),
        1 <= j < encode_scalar(c as u32).len(),
    ensures
        aut.run(x + encode_scalar(c as u32).take(j)) == (LevState {
            row,
            pending: encode_scalar(c as u32).take(j),
            want: encode_scalar(c as u32).len(),
            dead: false,
        }),
    decreases j,
{
    let w = encode_scalar(c as u32);
    lemma_scalar_bytes(c);
    let k = x + w.take(j);
    assert(k.drop_last() =~= x + w.take(j - 1));
    assert(k.last() == w[j - 1]);
    if j == 1 {
        assert(x + w.take(0) =~= x);
        assert(Seq::<u8>::empty().push(w[0]) =~= w.take(1));
    } else {
        lemma_run_char_prefix(aut, x, row, c, j - 1);
        assert(w.take(j - 1).push(w[j - 1]) =~= w.take(j));
        assert(w.take(j - 1)[0] == w[0]);
    }
}

/// Reading a whole character from an aligned state advances the row by it.
proof fn lemma_run_char(aut: Levenshtein, x: Seq<u8>, row: Seq<nat>, c: char)
    requires
        aut.run(x) == aligned(row),
    ensures
        aut.run(x + encode_scalar(c as u32)) == (LevState {
            row: step_row(aut.query(), aut.cap_value(), row, c),
            pending: Seq::empty(),
            want: 0,
            dead: all_over(step_row(aut.query(), aut.cap_value(), row, c), aut.budget()),
        }),
{
    let w = encode_scalar(c as u32);
    lemma_scalar_bytes(c);
    assert(encode_utf8(seq![c]) =~= w) by {
        assert(seq![c].drop_first() =~= Seq::<char>::empty());
        assert(encode_utf8(seq![c].drop_first()) =~= Seq::<u8>::empty());
    }
    encode_utf8_valid_utf8(seq![c]);
    encode_utf8_decode_utf8(seq![c]);
    assert(decode_utf8(w)[0] == c);
    let k = x + w;
    let n = w.len() as int;
    assert(k.drop_last() =~= x + w.take(n - 1));
    assert(k.last() == w[n - 1]);
    if n == 1 {
        assert(x + w.take(0) =~= x);
        assert(Seq::<u8>::empty().push(w[0]) =~= w);
    } else {
        lemma_run_char_prefix(aut, x, row, c, n - 1);
        assert(w.take(n - 1).push(w[n - 1]) =~= w);
        assert(w.take(n - 1)[0] == w[0]);
    }
}

/// Encoded characters within reach of the budget keep the automaton aligned
/// on their capped row.
proof fn lemma_run_encoded(aut: Levenshtein, chars: Seq<char>, t: Seq<char>)
    requires
        aut.wf(),
        edit_distance(chars + t, aut.query()) <= aut.budget(),
    ensures
        aut.run(encode_utf8(chars)) == aligned(capped_row(aut.query(), aut.cap_value(), chars)),
    decreases chars.len(),
{
    let q = aut.query();
    let cap = aut.cap_value();
    if chars.len() == 0 {
        assert(encode_utf8(chars) =~= Seq::<u8>::empty());
        assert(aut.run(Seq::<u8>::empty()) == aut.start_view());
        assert(chars =~= Seq::<char>::empty());
    } else {
        let x = chars.drop_last();
        let c = chars.last();
        assert(x.push(c) =~= chars);
        assert(chars + t =~= x + (seq![c] + t));
        lemma_run_encoded(aut, x, seq![c] + t);
        lemma_encode_push(x, c);
        lemma_run_char(aut, encode_utf8(x), capped_row(q, cap, x), c);
        lemma_step_row(q, cap, x, c);
        let i = lemma_extension_lower_bound(chars, t, q);
        let row = capped_row(q, cap, chars);
        assert(row[i] <= aut.budget());
    }
}

/// Law: the automaton accepts a key exactly when the key is valid UTF-8 and
/// its characters are within `budget` edits (insertions, deletions,
/// substitutions of characters) of the query.
pub proof fn lemma_accepts_iff_within_budget(aut: Levenshtein, key: Seq<u8>)
    requires
        aut.wf(),
    ensures
        aut.accepts(key) <==> (valid_utf8(key) && edit_distance(decode_utf8(key), aut.query())
            <= aut.budget()),
{
    let q = aut.query();
    let cap = aut.cap_value();
    assert(q.take(q.len() as int) =~= q);
    if aut.accepts(key) {
        lemma_run_live(aut, key);
        assert(key.take(key.len() as int) =~= key);
    }
    if valid_utf8(key) && edit_distance(decode_utf8(key), q) <= aut.budget() {
        let chars = decode_utf8(key);
        decode_utf8_encode_utf8(key);
        assert(chars + Seq::<char>::empty() =~= chars);
        lemma_run_encoded(aut, chars, Seq::<char>::empty());
    }
}

/// Law: once `can_match` says no, no continuation of the key is accepted, so
/// pruning the search there loses nothing.
pub proof fn lemma_pruning_is_sound(aut: Levenshtein, key: Seq<u8>, rest: Seq<u8>)
    requires
        aut.wf(),
        !aut.can_match_view(aut.run(key)),
    ensures
        !aut.accepts(key + rest),
{
    lemma_run_live(aut, key);
    if !aut.run(key).dead {
        let row = aut.run(key).row;
        let i = choose|i: int| 0 <= i < row.len() && row[i] <= aut.budget();
        assert(0 <= i < row.len() && row[i] <= aut.budget());
    }
    lemma_dead_sticks(aut, key, rest);
}

/// Law: a pruning search reaches exactly the accepted keys.
pub proof fn lemma_reaches_iff_accepts(aut: Levenshtein, key: Seq<u8>)
    requires
        aut.wf(),
    ensures
        aut.reaches(key) <==> aut.accepts(key),
{
    if aut.accepts(key) {
        assert forall|i: int| 0 <= i < key.len() implies #[trigger] aut.can_match_view(
            aut.run(key.take(i)),
        ) by {
            assert(key.take(i) + key.skip(i) =~= key);
            if !aut.can_match_view(aut.run(key.take(i))) {
                lemma_pruning_is_sound(aut, key.take(i), key.skip(i));
            }
        }
    }
}

/// Law: a wider budget accepts everything a narrower one does.
pub proof fn lemma_wider_budget_accepts_more(narrow: Levenshtein, wide: Levenshtein, key: Seq<u8>)
    requires
        narrow.wf(),
        wide.wf(),
        narrow.query() == wide.query(),
        narrow.budget() <= wide.budget(),
        narrow.accepts(key),
    ensures
        wide.accepts(key),
{
    lemma_accepts_iff_within_budget(narrow, key);
    lemma_accepts_iff_within_budget(wide, key);
}

} // verus!
