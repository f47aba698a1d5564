//! Reading the plain-text sources the tables are built from: word lists,
//! one word a line, and tab-separated morphology listings.
//!
//! Lines are read as `str::lines` reads them: split at `\n`, a `\r` before
//! the `\n` dropped, and no empty line after a final `\n`.

use vstd::prelude::*;
use vstd::hash_map::StringHashMap;
use vstd::utf8::{encode_utf8, decode_utf8, valid_utf8};
use crate::text::{chars_of, push_char, is_whitespace, unicode_whitespace, str_eq, utf8_decode};
use crate::translit::views;
use crate::morph_build::{RawReading, RawEntry, raw_reading, raw_entries, morph_build};
use crate::intern::{first_seen, position, lemma_first_seen, intern_strings};
use crate::order::{lex_lt, strictly_sorted, sort_dedup_keys};

verus! {

broadcast use vstd::seq_lib::group_seq_properties;

/// The pieces of `s` between occurrences of `sep`, as `str::split` yields
/// them: always at least one, empty ones included.
pub open spec fn pieces(s: Seq<char>, sep: char) -> Seq<Seq<char>>
    decreases s.len(),
{
    if s.len() == 0 {
        seq![Seq::empty()]
    } else {
        let parts = pieces(s.drop_last(), sep);
        if s.last() == sep {
            parts.push(Seq::empty())
        } else {
            parts.update(parts.len() - 1, parts.last().push(s.last()))
        }
    }
}

/// `pieces` never comes back empty.
pub proof fn lemma_pieces_len(s: Seq<char>, sep: char)
    ensures
        pieces(s, sep).len() >= 1,
    decreases s.len(),
{
    if s.len() > 0 {
        lemma_pieces_len(s.drop_last(), sep);
    }
}

/// The pieces of `s` between occurrences of `sep`.
pub fn split_char(s: &str, sep: char) -> (r: Vec<String>)
    ensures
        views(r@) == pieces(s@, sep),
{
    let chars = chars_of(s);
    let mut parts: Vec<String> = Vec::new();
    parts.push(String::new());
    let mut i: usize = 0;
    proof {
        assert(views(parts@) =~= pieces(chars@.take(0), sep));
    }
    while i < chars.len()
        invariant
            0 <= i <= chars@.len(),
            chars@ == s@,
            parts@.len() >= 1,
            views(parts@) == pieces(chars@.take(i as int), sep),
        decreases chars.len() - i,
    {
        let c = chars[i];
        let ghost before = views(parts@);
        proof {
            assert(chars@.take(i + 1).drop_last() =~= chars@.take(i as int));
            assert(chars@.take(i + 1).last() == c);
        }
        if c == sep {
            parts.push(String::new());
            proof {
                assert(views(parts@) =~= before.push(Seq::empty()));
            }
        } else {
            let last = parts.len() - 1;
            let mut piece = parts[last].clone();
            push_char(&mut piece, c);
            parts.set(last, piece);
            proof {
                assert(views(parts@) =~= before.update(last as int, before.last().push(c)));
            }
        }
        i = i + 1;
    }
    proof {
        assert(chars@.take(i as int) =~= chars@);
    }
    parts
}

/// The characters `lo..hi` of `cs` as a string.
fn collect(cs: &Vec<char>, lo: usize, hi: usize) -> (r: String)
    requires
        lo <= hi <= cs@.len(),
    ensures
        r@ == cs@.subrange(lo as int, hi as int),
{
    let mut s = String::new();
    let mut i: usize = lo;
    while i < hi
        invariant
            lo <= i <= hi,
            hi <= cs@.len(),
            s@ == cs@.subrange(lo as int, i as int),
        decreases hi - i,
    {
        push_char(&mut s, cs[i]);
        proof {
            assert(cs@.subrange(lo as int, i + 1) =~= cs@.subrange(lo as int, i as int).push(cs@[i as int]));
        }
        i = i + 1;
    }
    s
}

/// A line without the `\r` of a `\r\n` ending.
pub open spec fn strip_cr(l: Seq<char>) -> Seq<char> {
    if l.len() > 0 && l.last() == '\r' {
        l.drop_last()
    } else {
        l
    }
}

/// The lines of `s`, as `str::lines` yields them: the pieces between `\n`,
/// each ended one without its `\r`, and the last one only if it is not empty.
pub open spec fn lines_of(s: Seq<char>) -> Seq<Seq<char>> {
    let p = pieces(s, '\n');
    let ended = p.drop_last().map_values(|l: Seq<char>| strip_cr(l));
    if p.last().len() == 0 {
        ended
    } else {
        ended.push(p.last())
    }
}

/// The lines of `text`.
#[verifier::spinoff_prover]
#[verifier::rlimit(40)]
pub fn lines(text: &str) -> (r: Vec<String>)
    ensures
        views(r@) == lines_of(text@),
{
    let cs = chars_of(text);
    let mut out: Vec<String> = Vec::new();
    let mut start: usize = 0;
    let mut i: usize = 0;
    proof {
        assert(cs@.take(0) =~= Seq::<char>::empty());
        assert(views(out@) =~= pieces(cs@.take(0), '\n').drop_last().map_values(|l: Seq<char>| strip_cr(l)));
    }
    while i < cs.len()
        invariant
            0 <= start <= i <= cs@.len(),
            cs@ == text@,
            views(out@) == pieces(cs@.take(i as int), '\n').drop_last().map_values(
                |l: Seq<char>| strip_cr(l),
            ),
            pieces(cs@.take(i as int), '\n').last() == cs@.subrange(start as int, i as int),
        decreases cs.len() - i,
    {
        let ghost p = pieces(cs@.take(i as int), '\n');
        proof {
            lemma_pieces_len(cs@.take(i as int), '\n');
            assert(cs@.take(i + 1).drop_last() =~= cs@.take(i as int));
            assert(cs@.take(i + 1).last() == cs@[i as int]);
        }
        if cs[i] == '\n' {
            let mut end = i;
            if end > start && cs[end - 1] == '\r' {
                end = end - 1;
            }
            let line = collect(&cs, start, end);
            proof {
                let cur = cs@.subrange(start as int, i as int);
                assert(line@ == strip_cr(cur)) by {
                    if i > start && cs@[i - 1] == '\r' {
                        assert(cur.drop_last() =~= cs@.subrange(start as int, end as int));
                    } else {
                        assert(cur =~= cs@.subrange(start as int, end as int));
                    }
                }
            }
            let ghost before = views(out@);
            out.push(line);
            start = i + 1;
            proof {
                let np = pieces(cs@.take(i + 1), '\n');
                assert(np == p.push(Seq::empty()));
                assert(np.drop_last() =~= p);
                assert(views(out@) =~= before.push(line@));
                assert(p.map_values(|l: Seq<char>| strip_cr(l)) =~= p.drop_last().map_values(
                    |l: Seq<char>| strip_cr(l),
                ).push(strip_cr(p.last())));
                assert(np.last() =~= cs@.subrange(start as int, i + 1));
            }
        } else {
            proof {
                let np = pieces(cs@.take(i + 1), '\n');
                assert(np == p.update(p.len() - 1, p.last().push(cs@[i as int])));
                assert(np.drop_last() =~= p.drop_last());
                assert(np.last() =~= cs@.subrange(start as int, i + 1));
            }
        }
        i = i + 1;
    }
    proof {
        assert(cs@.take(i as int) =~= cs@);
        lemma_pieces_len(cs@, '\n');
    }
    if start < cs.len() {
        let line = collect(&cs, start, cs.len());
        out.push(line);
        proof {
            let p = pieces(text@, '\n');
            assert(views(out@) =~= p.drop_last().map_values(|l: Seq<char>| strip_cr(l)).push(p.last()));
        }
    }
    out
}

/// `s` without its leading white space.
pub open spec fn trim_start(s: Seq<char>) -> Seq<char>
    decreases s.len(),
{
    if s.len() > 0 && unicode_whitespace(s[0]) {
        trim_start(s.drop_first())
    } else {
        s
    }
}

/// `s` without its trailing white space.
pub open spec fn trim_end(s: Seq<char>) -> Seq<char>
    decreases s.len(),
{
    if s.len() > 0 && unicode_whitespace(s.last()) {
        trim_end(s.drop_last())
    } else {
        s
    }
}

/// `s` without white space at either end, as `str::trim` leaves it.
pub open spec fn trimmed(s: Seq<char>) -> Seq<char> {
    trim_end(trim_start(s))
}

/// Leading white space ends at `a`.
proof fn lemma_trim_start(s: Seq<char>, a: int)
    requires
        0 <= a <= s.len(),
        forall|k: int| 0 <= k < a ==> unicode_whitespace(#[trigger] s[k]),
        a == s.len() || !unicode_whitespace(s[a]),
    ensures
        trim_start(s) == s.subrange(a, s.len() as int),
    decreases a,
{
    if a > 0 {
        let t = s.drop_first();
        assert forall|k: int| 0 <= k < a - 1 implies unicode_whitespace(#[trigger] t[k]) by {
            assert(t[k] == s[k + 1]);
        }
        lemma_trim_start(t, a - 1);
        assert(t.subrange(a - 1, t.len() as int) =~= s.subrange(a, s.len() as int));
    } else {
        assert(s.subrange(0, s.len() as int) =~= s);
    }
}

/// Trailing white space starts at `b`.
proof fn lemma_trim_end(s: Seq<char>, b: int)
    requires
        0 <= b <= s.len(),
        forall|k: int| b <= k < s.len() ==> unicode_whitespace(#[trigger] s[k]),
        b == 0 || !unicode_whitespace(s[b - 1]),
    ensures
        trim_end(s) == s.subrange(0, b),
    decreases s.len() - b,
{
    if b < s.len() {
        let t = s.drop_last();
        assert(unicode_whitespace(s[s.len() - 1]));
        assert forall|k: int| b <= k < t.len() implies unicode_whitespace(#[trigger] t[k]) by {
            assert(t[k] == s[k]);
        }
        lemma_trim_end(t, b);
        assert(t.subrange(0, b) =~= s.subrange(0, b));
    } else {
        assert(s.subrange(0, b) =~= s);
    }
}

/// `line` without white space at either end.
pub fn trim(line: &str) -> (r: String)
    ensures
        r@ == trimmed(line@),
{
    let cs = chars_of(line);
    let mut a: usize = 0;
    while a < cs.len() && is_whitespace(cs[a])
        invariant
            0 <= a <= cs@.len(),
            forall|k: int| 0 <= k < a ==> unicode_whitespace(#[trigger] cs@[k]),
        decreases cs.len() - a,
    {
        a = a + 1;
    }
    let mut b: usize = cs.len();
    while b > a && is_whitespace(cs[b - 1])
        invariant
            a <= b <= cs@.len(),
            forall|k: int| b <= k < cs@.len() ==> unicode_whitespace(#[trigger] cs@[k]),
        decreases b - a,
    {
        b = b - 1;
    }
    proof {
        lemma_trim_start(cs@, a as int);
        let t = cs@.subrange(a as int, cs@.len() as int);
        assert forall|k: int| b - a <= k < t.len() implies unicode_whitespace(#[trigger] t[k]) by {
            assert(t[k] == cs@[k + a]);
        }
        if b > a {
            assert(t[b - a - 1] == cs@[b - 1]);
        }
        lemma_trim_end(t, b - a);
        assert(t.subrange(0, b - a) =~= cs@.subrange(a as int, b as int));
    }
    collect(&cs, a, b)
}

/// The words a word list holds: each line trimmed, blank lines and lines
/// starting with `#` (comments) left out.
pub open spec fn listed_words(lines: Seq<Seq<char>>) -> Seq<Seq<char>>
    decreases lines.len(),
{
    if lines.len() == 0 {
        Seq::empty()
    } else {
        let words = listed_words(lines.drop_last());
        let t = trimmed(lines.last());
        if t.len() > 0 && t[0] != '#' {
            words.push(t)
        } else {
            words
        }
    }
}

/// The words of a word list, one a line, in the order they come.
pub fn word_list(text: &str) -> (r: Vec<String>)
    ensures
        views(r@) == listed_words(lines_of(text@)),
{
    let ls = lines(text);
    let ghost lv = views(ls@);
    let mut out: Vec<String> = Vec::new();
    let mut i: usize = 0;
    while i < ls.len()
        invariant
            0 <= i <= ls@.len(),
            lv == views(ls@),
            lv == lines_of(text@),
            views(out@) == listed_words(lv.take(i as int)),
        decreases ls.len() - i,
    {
        let t = trim(ls[i].as_str());
        proof {
            assert(lv.take(i + 1).drop_last() =~= lv.take(i as int));
            assert(lv.take(i + 1).last() == ls@[i as int]@);
        }
        let cs = chars_of(t.as_str());
        if cs.len() > 0 && cs[0] != '#' {
            out.push(t);
            proof {
                assert(views(out@) =~= listed_words(lv.take(i as int)).push(trimmed(lv[i as int])));
            }
        }
        i = i + 1;
    }
    proof {
        assert(lv.take(i as int) =~= lv);
    }
    out
}

/// The non-empty names of a list.
pub open spec fn non_empty(xs: Seq<Seq<char>>) -> Seq<Seq<char>>
    decreases xs.len(),
{
    if xs.len() == 0 {
        Seq::empty()
    } else {
        let kept = non_empty(xs.drop_last());
        if xs.last().len() > 0 {
            kept.push(xs.last())
        } else {
            kept
        }
    }
}

/// What one line of a morphology listing says: a surface form, its lemma
/// and its comma-separated tags, between tabs. A line with fewer than three
/// columns or an empty surface form says nothing; further columns are
/// ignored, and so are empty tag names.
pub open spec fn tsv_row(line: Seq<char>) -> Option<(Seq<char>, RawReading)> {
    let cols = pieces(line, '\t');
    if cols.len() >= 3 && cols[0].len() > 0 {
        Some((cols[0], (cols[1], non_empty(pieces(cols[2], ',')))))
    } else {
        None
    }
}

/// The rows that the lines of a listing give, in order.
pub open spec fn tsv_rows(lines: Seq<Seq<char>>) -> Seq<(Seq<char>, RawReading)>
    decreases lines.len(),
{
    if lines.len() == 0 {
        Seq::empty()
    } else {
        let rows = tsv_rows(lines.drop_last());
        match tsv_row(lines.last()) {
            Some(row) => rows.push(row),
            None => rows,
        }
    }
}

/// The rows of the listing `text`.
pub open spec fn morph_rows(text: Seq<char>) -> Seq<(Seq<char>, RawReading)> {
    tsv_rows(lines_of(text))
}

/// The readings the rows give surface form `s`, each once, in the order of
/// its first row.
pub open spec fn readings_for(rows: Seq<(Seq<char>, RawReading)>, s: Seq<char>) -> Seq<RawReading>
    decreases rows.len(),
{
    if rows.len() == 0 {
        Seq::empty()
    } else {
        let rs = readings_for(rows.drop_last(), s);
        let row = rows.last();
        if row.0 == s && !rs.contains(row.1) {
            rs.push(row.1)
        } else {
            rs
        }
    }
}

/// The surface forms of the rows, in order.
pub open spec fn row_surfaces(rows: Seq<(Seq<char>, RawReading)>) -> Seq<Seq<char>> {
    rows.map_values(|r: (Seq<char>, RawReading)| r.0)
}

/// The characters of a parsed row.
pub open spec fn row_view(r: (String, (String, Vec<String>))) -> (Seq<char>, RawReading) {
    (r.0@, raw_reading(r.1))
}

/// The characters of parsed rows.
pub open spec fn row_views(v: Seq<(String, (String, Vec<String>))>) -> Seq<(Seq<char>, RawReading)> {
    v.map_values(|r: (String, (String, Vec<String>))| row_view(r))
}

/// The characters of a list of readings.
pub open spec fn reading_list(v: Seq<(String, Vec<String>)>) -> Seq<RawReading> {
    v.map_values(|r: (String, Vec<String>)| raw_reading(r))
}

/// The non-empty names of `xs`.
fn keep_non_empty(xs: &Vec<String>) -> (r: Vec<String>)
    ensures
        views(r@) == non_empty(views(xs@)),
{
    let ghost xv = views(xs@);
    let mut out: Vec<String> = Vec::new();
    let mut i: usize = 0;
    while i < xs.len()
        invariant
            0 <= i <= xs@.len(),
            xv == views(xs@),
            views(out@) == non_empty(xv.take(i as int)),
        decreases xs.len() - i,
    {
        proof {
            assert(xv.take(i + 1).drop_last() =~= xv.take(i as int));
            assert(xv.take(i + 1).last() == xs@[i as int]@);
        }
        if !xs[i].as_str().is_empty() {
            let ghost before = views(out@);
            out.push(xs[i].clone());
            proof {
                assert(views(out@) =~= before.push(xv[i as int]));
            }
        } else {
            proof {
                assert(xs@[i as int]@.len() == 0) by {
                    if xs@[i as int]@.len() > 0 {
                        vstd::utf8::encode_utf8_first_scalar(xs@[i as int]@);
                    }
                }
            }
        }
        i = i + 1;
    }
    proof {
        assert(xv.take(i as int) =~= xv);
    }
    out
}

/// The row one line of a listing gives, if any.
fn tsv_entry(line: &str) -> (r: Option<(String, (String, Vec<String>))>)
    ensures
        match tsv_row(line@) {
            Some(x) => r is Some && row_view(r->Some_0) == x,
            None => r is None,
        },
{
    let cols = split_char(line, '\t');
    proof {
        assert(views(cols@).len() == cols@.len());
    }
    if cols.len() < 3 {
        return None;
    }
    let first = chars_of(cols[0].as_str());
    if first.len() == 0 {
        proof {
            assert(cols@[0]@ == views(cols@)[0]);
        }
        return None;
    }
    let all_tags = split_char(cols[2].as_str(), ',');
    let tags = keep_non_empty(&all_tags);
    let surface = cols[0].clone();
    let lemma = cols[1].clone();
    proof {
        assert(cols@[0]@ == views(cols@)[0]);
        assert(cols@[1]@ == views(cols@)[1]);
        assert(cols@[2]@ == views(cols@)[2]);
        assert(tags@.map_values(|t: String| t@) =~= views(tags@));
    }
    Some((surface, (lemma, tags)))
}

/// The rows of a listing's lines.
fn parse_rows(ls: &Vec<String>) -> (r: Vec<(String, (String, Vec<String>))>)
    ensures
        row_views(r@) == tsv_rows(views(ls@)),
{
    let ghost lv = views(ls@);
    let mut rows: Vec<(String, (String, Vec<String>))> = Vec::new();
    let mut i: usize = 0;
    while i < ls.len()
        invariant
            0 <= i <= ls@.len(),
            lv == views(ls@),
            row_views(rows@) == tsv_rows(lv.take(i as int)),
        decreases ls.len() - i,
    {
        proof {
            assert(lv.take(i + 1).drop_last() =~= lv.take(i as int));
            assert(lv.take(i + 1).last() == ls@[i as int]@);
        }
        match tsv_entry(ls[i].as_str()) {
            Some(row) => {
                let ghost before = row_views(rows@);
                rows.push(row);
                proof {
                    assert(row_views(rows@) =~= before.push(row_view(row)));
                }
            },
            None => {},
        }
        i = i + 1;
    }
    proof {
        assert(lv.take(i as int) =~= lv);
    }
    rows
}

/// A copy of a list of names.
fn copy_names(xs: &Vec<String>) -> (r: Vec<String>)
    ensures
        views(r@) == views(xs@),
{
    let mut out: Vec<String> = Vec::new();
    let mut i: usize = 0;
    while i < xs.len()
        invariant
            0 <= i <= xs@.len(),
            views(out@) == views(xs@).take(i as int),
        decreases xs.len() - i,
    {
        let ghost before = views(out@);
        out.push(xs[i].clone());
        proof {
            assert(views(out@) =~= before.push(xs@[i as int]@));
            assert(views(xs@).take(i + 1) =~= views(xs@).take(i as int).push(xs@[i as int]@));
        }
        i = i + 1;
    }
    proof {
        assert(views(xs@).take(i as int) =~= views(xs@));
    }
    out
}

/// A copy of a reading.
fn copy_reading(r: &(String, Vec<String>)) -> (c: (String, Vec<String>))
    ensures
        raw_reading(c) == raw_reading(*r),
{
    let tags = copy_names(&r.1);
    proof {
        assert(tags@.map_values(|t: String| t@) =~= views(tags@));
        assert(r.1@.map_values(|t: String| t@) =~= views(r.1@));
    }
    (r.0.clone(), tags)
}

/// Whether two readings have the same lemma and the same tags.
fn same_reading(a: &(String, Vec<String>), b: &(String, Vec<String>)) -> (r: bool)
    ensures
        r == (raw_reading(*a) == raw_reading(*b)),
{
    let ghost ta = a.1@.map_values(|t: String| t@);
    let ghost tb = b.1@.map_values(|t: String| t@);
    if !str_eq(a.0.as_str(), b.0.as_str()) {
        return false;
    }
    if a.1.len() != b.1.len() {
        proof {
            assert(ta.len() != tb.len());
        }
        return false;
    }
    let mut i: usize = 0;
    while i < a.1.len()
        invariant
            0 <= i <= a.1@.len(),
            a.1@.len() == b.1@.len(),
            ta == a.1@.map_values(|t: String| t@),
            tb == b.1@.map_values(|t: String| t@),
            forall|k: int| 0 <= k < i ==> ta[k] == tb[k],
        decreases a.1.len() - i,
    {
        if !str_eq(a.1[i].as_str(), b.1[i].as_str()) {
            proof {
                assert(ta[i as int] != tb[i as int]);
            }
            return false;
        }
        i = i + 1;
    }
    proof {
        assert(ta =~= tb);
    }
    true
}

/// Whether `v` holds reading `x`.
fn holds_reading(v: &Vec<(String, Vec<String>)>, x: &(String, Vec<String>)) -> (r: bool)
    ensures
        r == reading_list(v@).contains(raw_reading(*x)),
{
    let ghost rl = reading_list(v@);
    let mut i: usize = 0;
    while i < v.len()
        invariant
            0 <= i <= v@.len(),
            rl == reading_list(v@),
            forall|k: int| 0 <= k < i ==> rl[k] != raw_reading(*x),
        decreases v.len() - i,
    {
        if same_reading(&v[i], x) {
            proof {
                assert(rl[i as int] == raw_reading(*x));
            }
            return true;
        }
        i = i + 1;
    }
    false
}

/// The surface forms of parsed rows, as references.
fn surface_refs<'a>(rows: &'a Vec<(String, (String, Vec<String>))>) -> (r: Vec<&'a String>)
    ensures
        r@.map_values(|s: &String| s@) == row_surfaces(row_views(rows@)),
{
    let ghost all = row_surfaces(row_views(rows@));
    let mut out: Vec<&'a String> = Vec::new();
    let mut i: usize = 0;
    while i < rows.len()
        invariant
            0 <= i <= rows@.len(),
            all == row_surfaces(row_views(rows@)),
            out@.map_values(|s: &String| s@) == all.take(i as int),
        decreases rows.len() - i,
    {
        let ghost before = out@.map_values(|s: &String| s@);
        out.push(&rows[i].0);
        proof {
            assert(all[i as int] == rows@[i as int].0@);
            assert(out@.map_values(|s: &String| s@) =~= before.push(all[i as int]));
            assert(all.take(i + 1) =~= all.take(i as int).push(all[i as int]));
        }
        i = i + 1;
    }
    proof {
        assert(all.take(i as int) =~= all);
    }
    out
}

/// A row changes only the readings of its own surface form.
proof fn lemma_readings_for_step(rows: Seq<(Seq<char>, RawReading)>, i: int, s: Seq<char>)
    requires
        0 <= i < rows.len(),
    ensures
        readings_for(rows.take(i + 1), s) == (if rows[i].0 == s && !readings_for(rows.take(i), s).contains(
            rows[i].1,
        ) {
            readings_for(rows.take(i), s).push(rows[i].1)
        } else {
            readings_for(rows.take(i), s)
        }),
{
    assert(rows.take(i + 1).drop_last() =~= rows.take(i));
    assert(rows.take(i + 1).last() == rows[i]);
}

/// The readings of each surface form of `list`, gathered from the rows.
#[verifier::spinoff_prover]
#[verifier::rlimit(40)]
fn group_readings(
    rows: &Vec<(String, (String, Vec<String>))>,
    list: &Vec<String>,
    pos: &StringHashMap<usize>,
) -> (r: Vec<Vec<(String, Vec<String>)>>)
    requires
        views(list@) == first_seen(row_surfaces(row_views(rows@))),
        forall|x: Seq<char>| #[trigger] pos@.contains_key(x) <==> views(list@).contains(x),
        forall|x: Seq<char>| pos@.contains_key(x) ==> #[trigger] pos@[x] == position(views(list@), x),
    ensures
        r@.len() == list@.len(),
        forall|k: int|
            0 <= k < list@.len() ==> reading_list(#[trigger] r@[k]@) == readings_for(
                row_views(rows@),
                list@[k]@,
            ),
{
    let ghost rv = row_views(rows@);
    let ghost lv = views(list@);
    proof {
        lemma_first_seen(row_surfaces(rv));
    }
    let mut groups: Vec<Vec<(String, Vec<String>)>> = Vec::new();
    let mut k: usize = 0;
    while k < list.len()
        invariant
            0 <= k <= list@.len(),
            groups@.len() == k,
            forall|j: int| 0 <= j < k ==> (#[trigger] groups@[j])@.len() == 0,
        decreases list.len() - k,
    {
        groups.push(Vec::new());
        k = k + 1;
    }
    proof {
        assert forall|j: int| 0 <= j < list@.len() implies reading_list(#[trigger] groups@[j]@) == readings_for(
            rv.take(0),
            list@[j]@,
        ) by {
            assert(reading_list(groups@[j]@) =~= Seq::<RawReading>::empty());
        }
    }
    let mut i: usize = 0;
    while i < rows.len()
        invariant
            0 <= i <= rows@.len(),
            rv == row_views(rows@),
            lv == views(list@),
            lv.no_duplicates(),
            forall|x: Seq<char>| #[trigger] lv.contains(x) <==> row_surfaces(rv).contains(x),
            forall|x: Seq<char>| #[trigger] pos@.contains_key(x) <==> lv.contains(x),
            forall|x: Seq<char>| pos@.contains_key(x) ==> #[trigger] pos@[x] == position(lv, x),
            groups@.len() == list@.len(),
            forall|j: int|
                0 <= j < list@.len() ==> reading_list(#[trigger] groups@[j]@) == readings_for(
                    rv.take(i as int),
                    list@[j]@,
                ),
        decreases rows.len() - i,
    {
        let ghost s = rows@[i as int].0@;
        proof {
            assert(row_surfaces(rv)[i as int] == s);
            assert(lv.contains(s));
        }
        // Every surface form was interned, so the lookup finds it.
        let k = match pos.get(rows[i].0.as_str()) {
            Some(k) => *k,
            None => {
                return groups;
            },
        };
        proof {
            let p = position(lv, s);
            assert(0 <= p < lv.len() && lv[p] == s);
            assert(list@[k as int]@ == lv[k as int]);
        }
        let ghost old_groups = groups@;
        let present = holds_reading(&groups[k], &rows[i].1);
        if !present {
            let c = copy_reading(&rows[i].1);
            groups[k].push(c);
            proof {
                assert(reading_list(groups@[k as int]@) =~= reading_list(old_groups[k as int]@).push(raw_reading(c)));
            }
        }
        proof {
            assert(rv[i as int] == (s, raw_reading(rows@[i as int].1)));
            assert forall|j: int| 0 <= j < list@.len() implies reading_list(#[trigger] groups@[j]@) == readings_for(
                rv.take(i + 1),
                list@[j]@,
            ) by {
                lemma_readings_for_step(rv, i as int, list@[j]@);
                assert(list@[j]@ == lv[j]);
                if j != k {
                    assert(groups@[j] == old_groups[j]);
                    assert(lv[j] != lv[k as int]);
                }
            }
        }
        i = i + 1;
    }
    proof {
        assert(rv.take(i as int) =~= rv);
    }
    groups
}

/// A copy of a list of readings.
fn copy_readings(v: &Vec<(String, Vec<String>)>) -> (r: Vec<(String, Vec<String>)>)
    ensures
        reading_list(r@) == reading_list(v@),
{
    let mut out: Vec<(String, Vec<String>)> = Vec::new();
    let mut i: usize = 0;
    while i < v.len()
        invariant
            0 <= i <= v@.len(),
            reading_list(out@) == reading_list(v@).take(i as int),
        decreases v.len() - i,
    {
        let ghost before = reading_list(out@);
        let c = copy_reading(&v[i]);
        out.push(c);
        proof {
            assert(reading_list(out@) =~= before.push(raw_reading(v@[i as int])));
            assert(reading_list(v@).take(i + 1) =~= reading_list(v@).take(i as int).push(
                raw_reading(v@[i as int]),
            ));
        }
        i = i + 1;
    }
    proof {
        assert(reading_list(v@).take(i as int) =~= reading_list(v@));
    }
    out
}

/// The UTF-8 bytes of each name.
fn name_bytes(list: &Vec<String>) -> (r: Vec<Vec<u8>>)
    ensures
        crate::order::views(r@) == views(list@).map_values(|x: Seq<char>| encode_utf8(x)),
{
    let ghost want = views(list@).map_values(|x: Seq<char>| encode_utf8(x));
    let mut out: Vec<Vec<u8>> = Vec::new();
    let mut i: usize = 0;
    while i < list.len()
        invariant
            0 <= i <= list@.len(),
            want == views(list@).map_values(|x: Seq<char>| encode_utf8(x)),
            crate::order::views(out@) == want.take(i as int),
        decreases list.len() - i,
    {
        let ghost before = crate::order::views(out@);
        let b = vstd::slice::slice_to_vec(list[i].as_str().as_bytes());
        out.push(b);
        proof {
            assert(crate::order::views(out@) =~= before.push(want[i as int]));
            assert(want.take(i + 1) =~= want.take(i as int).push(want[i as int]));
        }
        i = i + 1;
    }
    proof {
        assert(want.take(i as int) =~= want);
    }
    out
}

/// A morphology table from a tab-separated listing, in the form
/// [`crate::morphology::Morphology::build`] takes, and the number of rows
/// read.
///
/// Each line gives a surface form, its lemma and its comma-separated tags
/// (see [`tsv_row`]); lines that give no row are skipped. The table holds
/// each surface form once, in ascending order of its UTF-8 bytes, with the
/// readings its rows give, each once, in the order of first appearance.
#[verifier::spinoff_prover]
#[verifier::rlimit(60)]
pub fn morph_table(text: &str) -> (r: (Vec<(String, Vec<(String, Vec<String>)>)>, usize))
    ensures
        r.1 == morph_rows(text@).len(),
        forall|i: int, j: int|
            0 <= i < j < r.0@.len() ==> lex_lt(
                encode_utf8(#[trigger] r.0@[i].0@),
                encode_utf8(#[trigger] r.0@[j].0@),
            ),
        raw_entries(r.0@).map_values(|e: RawEntry| e.0).to_set() == row_surfaces(
            morph_rows(text@),
        ).to_set(),
        forall|i: int|
            0 <= i < r.0@.len() ==> #[trigger] raw_entries(r.0@)[i].1 == readings_for(
                morph_rows(text@),
                r.0@[i].0@,
            ),
{
    broadcast use vstd::utf8::encode_utf8_decode_utf8, vstd::utf8::encode_utf8_valid_utf8;

    let ls = lines(text);
    let rows = parse_rows(&ls);
    let ghost rv = row_views(rows@);
    let refs = surface_refs(&rows);
    let (list, pos) = intern_strings(&refs);
    let ghost lv = views(list@);
    proof {
        assert(refs@.map_values(|s: &String| s@) == row_surfaces(rv));
        assert(list@.map_values(|s: String| s@) =~= lv);
        lemma_first_seen(row_surfaces(rv));
    }
    let groups = group_readings(&rows, &list, &pos);
    let keys = name_bytes(&list);
    let sorted = sort_dedup_keys(keys);
    let ghost kv = crate::order::views(keys@);
    let ghost sv = crate::order::views(sorted@);
    let mut out: Vec<(String, Vec<(String, Vec<String>)>)> = Vec::new();
    let mut j: usize = 0;
    while j < sorted.len()
        invariant
            0 <= j <= sorted@.len(),
            sv == crate::order::views(sorted@),
            sv.to_set() == kv.to_set(),
            strictly_sorted(sv, |x: Seq<u8>, y: Seq<u8>| lex_lt(x, y)),
            kv == lv.map_values(|x: Seq<char>| encode_utf8(x)),
            lv == views(list@),
            lv.no_duplicates(),
            forall|x: Seq<char>| #[trigger] lv.contains(x) <==> row_surfaces(rv).contains(x),
            forall|x: Seq<char>| #[trigger] pos@.contains_key(x) <==> lv.contains(x),
            forall|x: Seq<char>| pos@.contains_key(x) ==> #[trigger] pos@[x] == position(lv, x),
            groups@.len() == list@.len(),
            forall|k: int|
                0 <= k < list@.len() ==> reading_list(#[trigger] groups@[k]@) == readings_for(
                    rv,
                    list@[k]@,
                ),
            out@.len() == j,
            forall|i: int| 0 <= i < j ==> encode_utf8(#[trigger] out@[i].0@) == sv[i],
            forall|i: int|
                0 <= i < j ==> #[trigger] reading_list(out@[i].1@) == readings_for(rv, out@[i].0@),
        decreases sorted.len() - j,
    {
        let ghost b = sv[j as int];
        proof {
            assert(sorted@[j as int]@ == b);
            assert(sv.to_set().contains(b));
            assert(kv.to_set().contains(b));
            let k = choose|k: int| 0 <= k < kv.len() && kv[k] == b;
            assert(kv[k] == encode_utf8(lv[k]));
            vstd::utf8::encode_utf8_decode_utf8(lv[k]);
            vstd::utf8::encode_utf8_valid_utf8(lv[k]);
            assert(valid_utf8(b));
            assert(lv[k] == decode_utf8(b));
            assert(lv.contains(decode_utf8(b)));
        }
        // The keys are the bytes of interned names, so they decode.
        let name = match utf8_decode(sorted[j].as_slice()) {
            Ok(s) => s,
            Err(_) => {
                return (out, rows.len());
            },
        };
        let k = match pos.get(name) {
            Some(k) => *k,
            None => {
                return (out, rows.len());
            },
        };
        proof {
            let p = position(lv, name@);
            assert(0 <= p < lv.len() && lv[p] == name@);
            assert(list@[k as int]@ == lv[k as int]);
        }
        let readings = copy_readings(&groups[k]);
        let surface = name.to_owned();
        out.push((surface, readings));
        j = j + 1;
    }
    proof {
        let es = raw_entries(out@);
        let rows_v = morph_rows(text@);
        assert(rows_v == rv);
        assert forall|i: int| 0 <= i < out@.len() implies #[trigger] es[i].1 == readings_for(
            rows_v,
            out@[i].0@,
        ) by {
            assert(es[i].1 =~= reading_list(out@[i].1@));
        }
        let names = es.map_values(|e: RawEntry| e.0);
        assert forall|x: Seq<char>| names.to_set().contains(x) <==> row_surfaces(rows_v).to_set().contains(x) by {
            if names.to_set().contains(x) {
                let i = choose|i: int| 0 <= i < names.len() && #[trigger] names[i] == x;
                assert(out@[i].0@ == x);
                assert(sv.to_set().contains(sv[i]));
                let k = choose|k: int| 0 <= k < kv.len() && #[trigger] kv[k] == sv[i];
                assert(kv[k] == encode_utf8(lv[k]));
                assert(decode_utf8(encode_utf8(lv[k])) == decode_utf8(encode_utf8(x)));
                assert(lv.contains(x));
            }
            if row_surfaces(rows_v).to_set().contains(x) {
                assert(lv.contains(x));
                let k = choose|k: int| 0 <= k < lv.len() && #[trigger] lv[k] == x;
                assert(kv[k] == encode_utf8(x));
                assert(kv.to_set().contains(encode_utf8(x)));
                let i = choose|i: int| 0 <= i < sv.len() && #[trigger] sv[i] == encode_utf8(x);
                assert(decode_utf8(encode_utf8(out@[i].0@)) == decode_utf8(encode_utf8(x)));
                assert(names[i] == x);
            }
        }
        assert(names.to_set() =~= row_surfaces(rows_v).to_set());
        assert forall|i: int, j: int| 0 <= i < j < out@.len() implies lex_lt(
            encode_utf8(#[trigger] out@[i].0@),
            encode_utf8(#[trigger] out@[j].0@),
        ) by {
            assert(sv[i] == encode_utf8(out@[i].0@));
            assert(sv[j] == encode_utf8(out@[j].0@));
            let lt = |x: Seq<u8>, y: Seq<u8>| lex_lt(x, y);
            assert(lt(sv[i], sv[j]));
        }
    }
    (out, rows.len())
}

/// A table in ascending order of surface forms, as [`morph_table`] gives,
/// is one the morphology builder accepts: building it does not fail.
pub proof fn lemma_table_builds(table: Seq<(String, Vec<(String, Vec<String>)>)>)
    requires
        forall|i: int, j: int|
            0 <= i < j < table.len() ==> lex_lt(
                encode_utf8(#[trigger] table[i].0@),
                encode_utf8(#[trigger] table[j].0@),
            ),
    ensures
        morph_build(raw_entries(table)) is Some,
{
    let es = raw_entries(table);
    let ks = crate::fst_store::entry_keys(crate::morph_build::fst_entries(es));
    assert forall|i: int, j: int| 0 <= i < j < ks.len() implies lex_lt(#[trigger] ks[i], #[trigger] ks[j]) by {
        assert(ks[i] == encode_utf8(table[i].0@));
        assert(ks[j] == encode_utf8(table[j].0@));
    }
}

} // verus!
