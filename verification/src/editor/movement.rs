//! Indent-independent movement from the resting cursor to a target offset.
use vstd::prelude::*;
use super::{events_view, Event, EventV, KeyName};
use crate::error::RenderError;
use crate::stroke::keys::{first_where, lemma_first_where_unique};
use crate::text::{chars_of, copy_str, sub_vec};

verus! {

broadcast use vstd::seq_lib::group_seq_properties;

/// The segments of `s` split on `\n`, as `str::split` yields them (an empty
/// segment for each adjacent pair, and one after a final `\n`).
pub open spec fn split_newlines(s: Seq<char>) -> Seq<Seq<char>>
    decreases s.len(),
{
    let p = first_where(s, |c: char| c == '\n');
    if p >= s.len() || p < 0 {
        seq![s]
    } else {
        seq![s.take(p)] + split_newlines(s.skip(p + 1))
    }
}

/// A (line, column) position in a buffer.
struct Pos {
    /// 0-based line index.
    line: usize,
    /// 0-based column within the line.
    col: usize,
}

/// The (line, column) of offset `col` counted from line `i` on.
pub open spec fn pos_from(lines: Seq<Seq<char>>, i: int, col: int) -> (int, int)
    decreases lines.len() - i,
{
    if i < 0 || i >= lines.len() {
        let last = if lines.len() > 0 { lines.len() - 1 } else { 0 };
        (last, if lines.len() > 0 { lines[last].len() as int } else { 0 })
    } else if col <= lines[i].len() {
        (i, col)
    } else {
        pos_from(lines, i + 1, col - lines[i].len() - 1)
    }
}

/// The (line, column) of character offset `off`.
pub open spec fn pos_spec(lines: Seq<Seq<char>>, off: int) -> (int, int) {
    pos_from(lines, 0, off)
}

/// A `Left`×n event when `n` is nonzero.
pub open spec fn left_spec(n: int) -> Seq<EventV> {
    if n > 0 {
        seq![EventV::Key(KeyName::Left, n as usize)]
    } else {
        Seq::empty()
    }
}

/// The movement from `from` to `to` over `buffer`, or `None` when the target
/// lies below or to the right of the resting cursor.
pub open spec fn movement_spec(buffer: Seq<char>, from: int, to: int) -> Option<Seq<EventV>> {
    let lines = split_newlines(buffer);
    let f = pos_spec(lines, from);
    let t = pos_spec(lines, to);
    if t.0 > f.0 {
        None
    } else if f.0 == t.0 {
        if t.1 > f.1 {
            None
        } else {
            Some(left_spec(f.1 - t.1))
        }
    } else {
        let line_len = if 0 <= t.0 < lines.len() { lines[t.0].len() as int } else { 0 };
        Some(
            seq![EventV::Key(KeyName::Up, (f.0 - t.0) as usize), EventV::Key(KeyName::End, 1)]
                + left_spec(line_len - t.1),
        )
    }
}

/// Why no movement reaches `to`: it lies on a later line, or right of the
/// resting cursor on its line.
pub open spec fn movement_error(buffer: Seq<char>, from: int, to: int) -> Seq<char> {
    let lines = split_newlines(buffer);
    if pos_spec(lines, to).0 > pos_spec(lines, from).0 {
        "movement target is below the resting cursor"@
    } else {
        "movement target is right of the resting cursor"@
    }
}

/// The models of a vector of character vectors.
pub open spec fn rows_view(ls: Seq<Vec<char>>) -> Seq<Seq<char>> {
    ls.map_values(|l: Vec<char>| l@)
}

proof fn lemma_pos_from(lines: Seq<Seq<char>>, i: int, col: int)
    requires
        0 <= i,
        0 <= col,
    ensures
        ({
            let p = pos_from(lines, i, col);
            &&& 0 <= p.1
            &&& lines.len() > 0 ==> 0 <= p.0 < lines.len() && p.1 <= lines[p.0].len()
        }),
    decreases lines.len() - i,
{
    if i < lines.len() && col > lines[i].len() {
        lemma_pos_from(lines, i + 1, col - lines[i].len() - 1);
    }
}

/// One step of `split_newlines`: the segment `s[start..p]` ends at a `\n`
/// or at the end.
proof fn lemma_split_newlines_step(s: Seq<char>, start: int, p: int)
    requires
        0 <= start <= p <= s.len(),
        forall|j: int| start <= j < p ==> s[j] != '\n',
        p < s.len() ==> s[p] == '\n',
    ensures
        p < s.len() ==> split_newlines(s.skip(start)) == seq![s.subrange(start, p)] + split_newlines(s.skip(p + 1)),
        p == s.len() ==> split_newlines(s.skip(start)) == seq![s.subrange(start, p)],
{
    let t = s.skip(start);
    assert forall|j: int| 0 <= j < p - start implies !((|c: char| c == '\n')(#[trigger] t[j])) by {
        assert(t[j] == s[j + start]);
    }
    if p < s.len() {
        assert(t[p - start] == s[p]);
        assert(t.skip(p - start + 1) == s.skip(p + 1));
    }
    lemma_first_where_unique(t, |c: char| c == '\n', p - start);
    assert(t.take(p - start) == s.subrange(start, p));
}

/// Split `v` on `\n`.
fn split_rows(v: &Vec<char>) -> (r: Vec<Vec<char>>)
    ensures
        rows_view(r@) == split_newlines(v@),
        r@.len() > 0,
{
    let ghost s = v@;
    let mut out: Vec<Vec<char>> = Vec::new();
    let mut start: usize = 0;
    let n = v.len();
    assert(s.skip(0) == s);
    loop
        invariant
            s == v@,
            n == v@.len(),
            start <= n,
            rows_view(out@) + split_newlines(s.skip(start as int)) == split_newlines(s),
        decreases n - start,
    {
        let mut p = start;
        while p < n && v[p] != '\n'
            invariant
                start <= p <= n,
                n == v@.len(),
                forall|j: int| start <= j < p ==> v@[j] != '\n',
            decreases n - p,
        {
            p = p + 1;
        }
        proof {
            lemma_split_newlines_step(s, start as int, p as int);
        }
        let row = sub_vec(v.as_slice(), start, p);
        let ghost before = out@;
        out.push(row);
        proof {
            assert(rows_view(out@) == rows_view(before).push(row@));
        }
        if p < n {
            proof {
                assert(rows_view(out@) + split_newlines(s.skip(p + 1)) == rows_view(before) + (seq![row@] + split_newlines(s.skip(p + 1))));
            }
            start = p + 1;
        } else {
            proof {
                assert(rows_view(out@) == rows_view(before) + seq![row@]);
            }
            return out;
        }
    }
}

/// Map a character offset to its (line, column) over the split buffer.
fn pos(lines: &Vec<Vec<char>>, off: usize) -> (r: Pos)
    requires
        lines@.len() > 0,
    ensures
        (r.line as int, r.col as int) == pos_spec(rows_view(lines@), off as int),
{
    let ghost ls = rows_view(lines@);
    let mut col = off;
    let mut i: usize = 0;
    while i < lines.len()
        invariant
            ls == rows_view(lines@),
            i <= lines@.len(),
            pos_from(ls, i as int, col as int) == pos_from(ls, 0, off as int),
        decreases lines.len() - i,
    {
        assert(ls[i as int] == lines@[i as int]@);
        if col <= lines[i].len() {
            return Pos { line: i, col };
        }
        col = col - (lines[i].len() + 1);
        i = i + 1;
    }
    let last = lines.len() - 1;
    assert(ls[last as int] == lines@[last as int]@);
    Pos { line: last, col: lines[last].len() }
}

/// Movement from `from` to `to` as key events: cross lines with `Up`×N then
/// `End`, then `Left` to the column; a same-line move goes straight `Left`.
///
/// Fails if `to` is below or to the right of `from` (the cursor only ever
/// walks back toward `%0`).
pub fn movement_events(buffer: &str, from: usize, to: usize) -> (r: Result<Vec<Event>, RenderError>)
    ensures
        match movement_spec(buffer@, from as int, to as int) {
            Some(evs) => r matches Ok(v) && events_view(v@) == evs,
            None => r matches Err(e) && e.spec_message() == movement_error(buffer@, from as int, to as int),
        },
{
    let chars = chars_of(buffer);
    let lines = split_rows(&chars);
    let f = pos(&lines, from);
    let t = pos(&lines, to);
    proof {
        lemma_pos_from(rows_view(lines@), 0, from as int);
        lemma_pos_from(rows_view(lines@), 0, to as int);
    }
    if t.line > f.line {
        return Err(RenderError::new(copy_str("movement target is below the resting cursor")));
    }
    if f.line == t.line {
        same_line(&f, &t)
    } else {
        Ok(cross_line(&lines, &f, &t))
    }
}

/// Same-line move: straight `Left` from the resting column.
fn same_line(f: &Pos, t: &Pos) -> (r: Result<Vec<Event>, RenderError>)
    ensures
        if t.col > f.col {
            r matches Err(e) && e.spec_message() == "movement target is right of the resting cursor"@
        } else {
            r matches Ok(v) && events_view(v@) == left_spec(f.col - t.col)
        },
{
    if t.col > f.col {
        return Err(RenderError::new(copy_str("movement target is right of the resting cursor")));
    }
    let mut out: Vec<Event> = Vec::new();
    push_left(&mut out, f.col - t.col);
    Ok(out)
}

/// Cross-line move: `Up`×N, `End`, then `Left` to the target column.
fn cross_line(lines: &Vec<Vec<char>>, f: &Pos, t: &Pos) -> (r: Vec<Event>)
    requires
        t.line < f.line,
        t.line < lines@.len() ==> t.col <= lines@[t.line as int]@.len(),
        t.line >= lines@.len() ==> t.col == 0,
    ensures
        events_view(r@) == seq![EventV::Key(KeyName::Up, (f.line - t.line) as usize), EventV::Key(KeyName::End, 1)]
            + left_spec((if t.line < lines@.len() { lines@[t.line as int]@.len() as int } else { 0 }) - t.col),
{
    let mut out: Vec<Event> = Vec::new();
    out.push(Event::Key { key: KeyName::Up, n: f.line - t.line });
    out.push(Event::Key { key: KeyName::End, n: 1 });
    let line_len = if t.line < lines.len() {
        lines[t.line].len()
    } else {
        0
    };
    let ghost before = out@;
    push_left(&mut out, line_len - t.col);
    proof {
        assert(events_view(before) == seq![EventV::Key(KeyName::Up, (f.line - t.line) as usize), EventV::Key(KeyName::End, 1)]);
    }
    out
}

/// Append a `Left`×n event when `n` is nonzero.
fn push_left(out: &mut Vec<Event>, n: usize)
    ensures
        events_view(final(out)@) == events_view(old(out)@) + left_spec(n as int),
{
    let ghost before = out@;
    if n > 0 {
        out.push(Event::Key { key: KeyName::Left, n });
        assert(events_view(out@) == events_view(before).push(EventV::Key(KeyName::Left, n)));
    } else {
        assert(events_view(out@) == events_view(before) + Seq::<EventV>::empty());
    }
}

} // verus!
