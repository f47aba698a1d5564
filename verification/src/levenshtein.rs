//! A Levenshtein automaton over Unicode characters, for fuzzy FST lookup.
//!
//! `fst` walks keys one *byte* at a time, but edit distance is only meaningful
//! over whole *characters*. So the automaton state carries a small UTF-8 decode
//! buffer alongside the dynamic-programming row: bytes accumulate until they
//! form a complete character, and only then does the row advance.
//!
//! The row is the standard Levenshtein DP row against the query, each cell
//! capped at `max_distance + 1` so that equivalent states compare equal.
//! `can_match` prunes a subtree as soon as every cell exceeds the budget.
//!
//! The automaton's transition function is stated as a spec state machine
//! (`start_view`, `accept_view`); the theorems at the end of the file prove
//! what it computes: a key matches exactly when it is valid UTF-8 and its
//! characters are within `max_distance` edits of the query, and a state that
//! `can_match` rejects has no matching continuation.

use vstd::prelude::*;
use vstd::utf8::{decode_utf8, valid_utf8};
use crate::text::utf8_decode;

verus! {

broadcast use vstd::seq_lib::group_seq_properties;

/// Longest query we will attempt to correct.
pub const MAX_QUERY_CHARS: usize = 32;

/// A Unicode-correct Levenshtein automaton.
#[derive(Debug)]
pub struct Levenshtein {
    query: Vec<char>,
    max_distance: u32,
}

/// Automaton state: how far off we are, plus any partially decoded character.
#[derive(Debug, PartialEq, Eq)]
pub struct State {
    /// `row[i]` is the capped edit distance between the characters consumed so
    /// far and the first `i` characters of the query.
    row: Vec<u32>,
    /// Bytes of a character we have started but not finished reading.
    pending: [u8; 4],
    pending_len: u8,
    /// How many bytes the in-progress character needs in total.
    pending_want: u8,
    /// Set on invalid UTF-8, or when no cell can come back under budget.
    dead: bool,
    /// The cap of the automaton that produced this state.
    cap: u32,
}

impl State {
    #[verifier::type_invariant]
    spec fn state_inv(&self) -> bool {
        &&& 1 <= self.cap <= u32::MAX
        &&& forall|i: int| 0 <= i < self.row@.len() ==> self.row@[i] <= self.cap
        &&& self.pending_len <= 4
        &&& self.pending_want <= 4
        &&& (!self.dead && self.pending_len > 0 ==> self.pending_len < self.pending_want)
    }

    /// The cap of the automaton that produced this state.
    pub closed spec fn cap_of(&self) -> nat {
        self.cap as nat
    }
}

impl Clone for State {
    fn clone(&self) -> (r: Self)
        ensures
            r@ == self@,
            r.cap_of() == self.cap_of(),
    {
        proof {
            use_type_invariant(self);
        }
        let r = State {
            row: self.row.clone(),
            pending: self.pending,
            pending_len: self.pending_len,
            pending_want: self.pending_want,
            dead: self.dead,
            cap: self.cap,
        };
        proof {
            assert(r.row@ =~= self.row@);
        }
        r
    }
}

impl Clone for Levenshtein {
    fn clone(&self) -> (r: Self)
        ensures
            r.query() == self.query(),
            r.budget() == self.budget(),
    {
        proof {
            use_type_invariant(self);
        }
        let r = Levenshtein { query: self.query.clone(), max_distance: self.max_distance };
        proof {
            assert(r.query@ =~= self.query@);
        }
        r
    }
}

/// The mathematical content of a [`State`].
pub struct LevState {
    pub row: Seq<nat>,
    pub pending: Seq<u8>,
    pub want: nat,
    pub dead: bool,
}

impl View for State {
    type V = LevState;

    closed spec fn view(&self) -> LevState {
        LevState {
            row: self.row@.map_values(|v: u32| v as nat),
            pending: self.pending@.take(self.pending_len as int),
            want: self.pending_want as nat,
            dead: self.dead,
        }
    }
}

/// Edit distance between two character sequences: the fewest insertions,
/// deletions and substitutions turning `a` into `b`.
pub open spec fn edit_distance(a: Seq<char>, b: Seq<char>) -> nat
    decreases a.len() + b.len(),
{
    if a.len() == 0 {
        b.len()
    } else if b.len() == 0 {
        a.len()
    } else {
        let sub = edit_distance(a.drop_last(), b.drop_last()) + if a.last() == b.last() {
            0nat
        } else {
            1nat
        };
        let del = edit_distance(a.drop_last(), b) + 1;
        let ins = edit_distance(a, b.drop_last()) + 1;
        min_nat(min_nat(sub, del), ins)
    }
}

pub open spec fn min_nat(a: nat, b: nat) -> nat {
    if a <= b {
        a
    } else {
        b
    }
}

/// The DP row for input `s` against `q`, each cell capped at `cap`.
pub open spec fn capped_row(q: Seq<char>, cap: nat, s: Seq<char>) -> Seq<nat> {
    Seq::new((q.len() + 1) as nat, |i: int| min_nat(edit_distance(s, q.take(i)), cap))
}

/// Cell `i` of the row after reading `c`, computed from the previous row.
pub open spec fn step_cell(q: Seq<char>, cap: nat, prev: Seq<nat>, c: char, i: int) -> nat
    decreases i,
{
    if i <= 0 {
        min_nat(prev[0] + 1, cap)
    } else {
        let substitution = prev[i - 1] + if q[i - 1] != c {
            1nat
        } else {
            0nat
        };
        let insertion = step_cell(q, cap, prev, c, i - 1) + 1;
        let deletion = prev[i] + 1;
        min_nat(min_nat(min_nat(substitution, insertion), deletion), cap)
    }
}

/// The row after reading `c`.
pub open spec fn step_row(q: Seq<char>, cap: nat, prev: Seq<nat>, c: char) -> Seq<nat> {
    Seq::new(prev.len(), |i: int| step_cell(q, cap, prev, c, i))
}

/// Every cell of `row` exceeds `d`.
pub open spec fn all_over(row: Seq<nat>, d: nat) -> bool {
    forall|i: int| 0 <= i < row.len() ==> row[i] > d
}

/// Bytes a UTF-8 sequence starting with `b` occupies, by its lead byte, or 0
/// when `b` cannot start a character.
pub open spec fn lead_width(b: u8) -> nat {
    if b <= 0x7F {
        1
    } else if 0xC2 <= b && b <= 0xDF {
        2
    } else if 0xE0 <= b && b <= 0xEF {
        3
    } else if 0xF0 <= b && b <= 0xF4 {
        4
    } else {
        0
    }
}

/// A dead state carrying `row`.
pub open spec fn dead_state(st: LevState) -> LevState {
    LevState { dead: true, ..st }
}

impl Levenshtein {
    #[verifier::type_invariant]
    spec fn inv(&self) -> bool {
        self.wf()
    }

    /// The query characters.
    pub closed spec fn query(&self) -> Seq<char> {
        self.query@
    }

    /// The edit budget.
    pub closed spec fn budget(&self) -> nat {
        self.max_distance as nat
    }

    /// A usable automaton: a non-empty query of at most [`MAX_QUERY_CHARS`]
    /// characters, and a budget whose cap fits in a `u32`.
    pub open spec fn wf(&self) -> bool {
        &&& 1 <= self.query().len() <= MAX_QUERY_CHARS
        &&& self.budget() + 1 <= u32::MAX
    }

    /// The cap applied to every cell.
    pub open spec fn cap_value(&self) -> nat {
        self.budget() + 1
    }

    /// The state before any byte is read.
    pub open spec fn start_view(&self) -> LevState {
        LevState {
            row: capped_row(self.query(), self.cap_value(), Seq::empty()),
            pending: Seq::empty(),
            want: 0,
            dead: false,
        }
    }

    /// The state after reading `byte` in state `st`.
    pub open spec fn accept_view(&self, st: LevState, byte: u8) -> LevState {
        if st.dead {
            st
        } else if st.pending.len() == 0 && lead_width(byte) == 0 {
            dead_state(st)
        } else if st.pending.len() > 0 && !(0x80 <= byte && byte <= 0xBF) {
            dead_state(st)
        } else {
            let pending = st.pending.push(byte);
            let want = if st.pending.len() == 0 {
                lead_width(byte)
            } else {
                st.want
            };
            if pending.len() < want {
                LevState { pending, want, ..st }
            } else if !valid_utf8(pending) {
                LevState { pending, want, dead: true, ..st }
            } else {
                let c = decode_utf8(pending)[0];
                let row = step_row(self.query(), self.cap_value(), st.row, c);
                LevState { row, pending: Seq::empty(), want: 0, dead: all_over(row, self.budget()) }
            }
        }
    }

    /// The state after reading every byte of `bytes` from the start.
    pub open spec fn run(&self, bytes: Seq<u8>) -> LevState
        decreases bytes.len(),
    {
        if bytes.len() == 0 {
            self.start_view()
        } else {
            self.accept_view(self.run(bytes.drop_last()), bytes.last())
        }
    }

    /// Whether `st` accepts: a complete character boundary, within budget.
    pub open spec fn match_view(&self, st: LevState) -> bool {
        !st.dead && st.pending.len() == 0 && st.row.len() > 0 && st.row.last() <= self.budget()
    }

    /// Whether some continuation of `st` could still be accepted.
    pub open spec fn can_match_view(&self, st: LevState) -> bool {
        !st.dead && exists|i: int| 0 <= i < st.row.len() && st.row[i] <= self.budget()
    }

    /// The automaton accepts `key`.
    pub open spec fn accepts(&self, key: Seq<u8>) -> bool {
        self.match_view(self.run(key))
    }

    /// A search that prunes with `can_match` reaches and yields `key`: every
    /// proper prefix may still match, and `key` itself matches.
    pub open spec fn reaches(&self, key: Seq<u8>) -> bool {
        &&& self.accepts(key)
        &&& forall|i: int| 0 <= i < key.len() ==> #[trigger] self.can_match_view(self.run(key.take(i)))
    }

    /// Build an automaton matching everything within `max_distance` edits.
    ///
    /// Returns `None` if the query is empty or longer than [`MAX_QUERY_CHARS`].
    pub fn new(query: &str, max_distance: u32) -> (r: Option<Self>)
        requires
            max_distance < u32::MAX,
        ensures
            (r is Some) == (1 <= query@.len() <= MAX_QUERY_CHARS),
            r matches Some(a) ==> a.query() == query@ && a.budget() == max_distance && a.wf(),
    {
        let chars = crate::text::chars_of(query);
        if chars.len() == 0 || chars.len() > MAX_QUERY_CHARS {
            return None;
        }
        Some(Self { query: chars, max_distance })
    }

    fn cap(&self) -> (r: u32)
        ensures
            r == self.cap_value(),
            self.wf(),
    {
        proof {
            use_type_invariant(self);
        }
        self.max_distance + 1
    }

    /// Whether `st` was produced by this automaton's `start` and `accept`.
    pub open spec fn compatible(&self, st: &State) -> bool {
        st@.row.len() == self.query().len() + 1 && st.cap_of() == self.cap_value()
    }

    /// The state before any byte is read: the distance to the first `i` query
    /// characters is exactly `i` (delete them all).
    pub fn start_state(&self) -> (r: State)
        ensures
            r@ == self.start_view(),
            self.compatible(&r),
    {
        let cap = self.cap();
        let n = self.query.len();
        let mut row: Vec<u32> = Vec::new();
        let mut i: usize = 0;
        while i <= n
            invariant
                0 <= i <= n + 1,
                n == self.query().len(),
                n <= MAX_QUERY_CHARS,
                cap == self.cap_value(),
                1 <= cap <= u32::MAX,
                row@.len() == i,
                forall|k: int| 0 <= k < i ==> row@[k] as nat == min_nat(k as nat, cap as nat),
            decreases n + 1 - i,
        {
            let v: u32 = if (i as u32) < cap { i as u32 } else { cap };
            row.push(v);
            i = i + 1;
        }
        let r = State { row, pending: [0u8; 4], pending_len: 0, pending_want: 0, dead: false, cap };
        proof {
            let q = self.query();
            assert forall|k: int| 0 <= k <= q.len() implies edit_distance(
                Seq::<char>::empty(),
                #[trigger] q.take(k),
            ) == k by {}
            assert(r@.row =~= capped_row(q, cap as nat, Seq::empty()));
            assert(r@.pending =~= Seq::<u8>::empty());
        }
        r
    }

    /// A key only matches on a character boundary, within budget.
    pub fn state_matches(&self, state: &State) -> (r: bool)
        ensures
            r == self.match_view(state@),
    {
        proof {
            use_type_invariant(state);
        }
        if state.dead || state.pending_len != 0 || state.row.len() == 0 {
            return false;
        }
        state.row[state.row.len() - 1] <= self.max_distance
    }

    /// If every cell is already over budget, no continuation can recover.
    pub fn state_can_match(&self, state: &State) -> (r: bool)
        ensures
            r == self.can_match_view(state@),
    {
        proof {
            use_type_invariant(state);
        }
        if state.dead {
            return false;
        }
        let mut i: usize = 0;
        while i < state.row.len()
            invariant
                0 <= i <= state.row@.len(),
                !state.dead,
                forall|k: int| 0 <= k < i ==> state.row@[k] > self.max_distance,
            decreases state.row.len() - i,
        {
            if state.row[i] <= self.max_distance {
                proof {
                    assert(state@.row.len() == state.row@.len());
                    assert(state@.row[i as int] <= self.budget());
                    assert(0 <= i < state@.row.len());
                    assert(!state@.dead);
                    assert(self.can_match_view(state@));
                }
                return true;
            }
            i = i + 1;
        }
        false
    }

    /// Advance the DP row by one decoded character.
    fn step(&self, prev: &Vec<u32>, c: char) -> (next: Vec<u32>)
        requires
            self.wf(),
            prev@.len() == self.query().len() + 1,
            forall|i: int| 0 <= i < prev@.len() ==> prev@[i] <= self.cap_value(),
        ensures
            next@.map_values(|v: u32| v as nat) == step_row(
                self.query(),
                self.cap_value(),
                prev@.map_values(|v: u32| v as nat),
                c,
            ),
            forall|i: int| 0 <= i < next@.len() ==> next@[i] <= self.cap_value(),
    {
        let ghost p = prev@.map_values(|v: u32| v as nat);
        let ghost q = self.query();
        let ghost cap = self.cap_value();
        let cap = self.cap();
        let mut next: Vec<u32> = Vec::with_capacity(prev.len());
        let first = if prev[0] < cap {
            prev[0] + 1
        } else {
            cap
        };
        next.push(first);
        let mut i: usize = 1;
        while i < prev.len()
            invariant
                1 <= i <= prev@.len(),
                prev@.len() == q.len() + 1,
                q == self.query(),
                q == self.query@,
                cap == self.cap_value(),
                self.wf(),
                p == prev@.map_values(|v: u32| v as nat),
                forall|k: int| 0 <= k < prev@.len() ==> prev@[k] <= cap,
                next@.len() == i,
                forall|k: int| 0 <= k < i ==> next@[k] == step_cell(q, cap as nat, p, c, k),
                forall|k: int| 0 <= k < i ==> next@[k] <= cap,
            decreases prev.len() - i,
        {
            let substitution: u64 = prev[i - 1] as u64 + if self.query[i - 1] != c {
                1u64
            } else {
                0u64
            };
            let insertion: u64 = next[i - 1] as u64 + 1;
            let deletion: u64 = prev[i] as u64 + 1;
            let mut m: u64 = substitution;
            if insertion < m {
                m = insertion;
            }
            if deletion < m {
                m = deletion;
            }
            if (cap as u64) < m {
                m = cap as u64;
            }
            next.push(m as u32);
            i = i + 1;
        }
        proof {
            assert(next@.map_values(|v: u32| v as nat) =~= step_row(q, cap as nat, p, c));
        }
        next
    }
}

impl Levenshtein {
    /// The state `st` marked dead.
    fn dead_copy(&self, st: &State) -> (r: State)
        ensures
            r@ == dead_state(st@),
            r.cap_of() == st.cap_of(),
    {
        proof {
            use_type_invariant(st);
        }
        let r = State {
            row: st.row.clone(),
            pending: st.pending,
            pending_len: st.pending_len,
            pending_want: st.pending_want,
            dead: true,
            cap: st.cap,
        };
        proof {
            assert(r.row@ =~= st.row@);
        }
        r
    }

    /// Whether every cell of `row` is over budget.
    fn all_over_budget(&self, row: &Vec<u32>) -> (r: bool)
        ensures
            r == all_over(row@.map_values(|v: u32| v as nat), self.budget()),
    {
        let mut i: usize = 0;
        while i < row.len()
            invariant
                0 <= i <= row@.len(),
                forall|k: int| 0 <= k < i ==> row@[k] > self.max_distance,
            decreases row.len() - i,
        {
            if row[i] <= self.max_distance {
                proof {
                    let m = row@.map_values(|v: u32| v as nat);
                    assert(m[i as int] <= self.budget());
                }
                return false;
            }
            i = i + 1;
        }
        true
    }

    /// Read one more byte of a key.
    pub fn next_state(&self, state: &State, byte: u8) -> (r: State)
        ensures
            self.compatible(state) ==> r@ == self.accept_view(state@, byte) && self.compatible(&r),
            !self.compatible(state) ==> r@.dead,
    {
        proof {
            use_type_invariant(self);
            use_type_invariant(state);
        }
        let cap = self.cap();
        if state.dead {
            return state.clone();
        }
        if state.row.len() != self.query.len() + 1 || state.cap != cap {
            return self.dead_copy(state);
        }
        let mut pending = state.pending;
        let mut pending_len = state.pending_len;
        let mut pending_want = state.pending_want;
        if pending_len == 0 {
            match utf8_len(byte) {
                Some(want) => {
                    pending[0] = byte;
                    pending_len = 1;
                    pending_want = want;
                },
                None => {
                    return self.dead_copy(state);
                },
            }
        } else {
            // Continuation bytes must be 10xxxxxx.
            let is_continuation = byte & 0xC0 == 0x80;
            proof {
                assert(is_continuation == (0x80 <= byte && byte <= 0xBF)) by (bit_vector)
                    requires
                        is_continuation == (byte & 0xC0 == 0x80),
                ;
            }
            if !is_continuation {
                return self.dead_copy(state);
            }
            pending[pending_len as usize] = byte;
            pending_len = pending_len + 1;
        }
        proof {
            assert(pending@.take(pending_len as int) =~= state@.pending.push(byte));
        }
        if pending_len < pending_want {
            let r = State {
                row: state.row.clone(),
                pending,
                pending_len,
                pending_want,
                dead: false,
                cap,
            };
            proof {
                assert(r.row@ =~= state.row@);
            }
            return r;
        }
        let mut bytes: Vec<u8> = Vec::new();
        let mut k: usize = 0;
        while k < pending_len as usize
            invariant
                0 <= k <= pending_len <= 4,
                bytes@ == pending@.take(k as int),
            decreases pending_len - k,
        {
            bytes.push(pending[k]);
            proof {
                assert(pending@.take(k + 1) =~= pending@.take(k as int).push(pending@[k as int]));
            }
            k = k + 1;
        }
        match utf8_decode(bytes.as_slice()) {
            Err(_) => {
                let r = State {
                    row: state.row.clone(),
                    pending,
                    pending_len,
                    pending_want,
                    dead: true,
                    cap,
                };
                proof {
                    assert(r.row@ =~= state.row@);
                }
                r
            },
            Ok(s) => {
                proof {
                    assert(bytes@.len() > 0);
                    assert(decode_utf8(bytes@).len() > 0);
                }
                let c = s.get_char(0);
                let row = self.step(&state.row, c);
                let dead = self.all_over_budget(&row);
                State { row, pending: [0u8; 4], pending_len: 0, pending_want: 0, dead, cap }
            },
        }
    }
}

/// The interface `fst` drives during a search: each method is the verified
/// inherent method of the same meaning.
impl fst::Automaton for Levenshtein {
    type State = State;

    fn start(&self) -> (r: State)
        ensures
            r@ == self.start_view(),
            self.compatible(&r),
    {
        self.start_state()
    }

    fn is_match(&self, state: &State) -> (r: bool)
        ensures
            r == self.match_view(state@),
    {
        self.state_matches(state)
    }

    fn can_match(&self, state: &State) -> (r: bool)
        ensures
            r == self.can_match_view(state@),
    {
        self.state_can_match(state)
    }

    fn will_always_match(&self, _state: &State) -> (r: bool)
        ensures
            !r,
    {
        false
    }

    fn accept(&self, state: &State, byte: u8) -> (r: State)
        ensures
            self.compatible(state) ==> r@ == self.accept_view(state@, byte) && self.compatible(&r),
            !self.compatible(state) ==> r@.dead,
    {
        self.next_state(state, byte)
    }
}

/// How many bytes a UTF-8 sequence starting with `b` occupies, if valid.
fn utf8_len(b: u8) -> (r: Option<u8>)
    ensures
        r is Some <==> lead_width(b) != 0,
        r matches Some(w) ==> w as nat == lead_width(b),
{
    if b <= 0x7F {
        Some(1)
    } else if 0xC2 <= b && b <= 0xDF {
        Some(2)
    } else if 0xE0 <= b && b <= 0xEF {
        Some(3)
    } else if 0xF0 <= b && b <= 0xF4 {
        Some(4)
    } else {
        // Continuation bytes and overlong/invalid leads cannot start a character.
        None
    }
}

} // verus!
