//! Why the movement compiler lands the cursor where it should: the keys it
//! emits, replayed from the resting cursor in any editor profile, end on the
//! target offset.
use vstd::prelude::*;
use super::interpret::{run_spec, step_spec};
use super::movement::{left_spec, movement_spec, pos_from, pos_spec, split_newlines};
use super::sim::{
    key_spec, keys_spec, lemma_line_end, lemma_line_start, line_end, line_start, text_spec, up_spec, SimV,
};
use super::{plain_spec, Behaviors, EventV, KeyName};
use crate::stroke::keys::{first_where, lemma_first_where};

verus! {

broadcast use vstd::seq_lib::group_seq_properties;

/// The (line, column) of offset `off` in buffer `b`.
#[verifier::opaque]
pub open spec fn pos_of(b: Seq<char>, off: int) -> (int, int) {
    pos_spec(split_newlines(b), off)
}

/// Newlines in `b[x..y]`.
pub open spec fn nl_between(b: Seq<char>, x: int, y: int) -> int
    decreases y - x,
{
    if y <= x {
        0
    } else {
        nl_between(b, x, y - 1) + if b[y - 1] == '\n' {
            1int
        } else {
            0int
        }
    }
}

/// The state after replaying events from `st`.
pub open spec fn run_from(st: SimV, b: Behaviors, evs: Seq<EventV>) -> SimV
    decreases evs.len(),
{
    if evs.len() == 0 {
        st
    } else {
        step_spec((run_from(st, b, evs.drop_last()), None), b, evs.last()).0
    }
}

proof fn lemma_split_nonempty(s: Seq<char>)
    ensures
        split_newlines(s).len() > 0,
{
}

/// Positions on lines after the first are the positions in the rest,
/// one line down.
proof fn lemma_pos_shift(f: Seq<char>, r: Seq<Seq<char>>, i: int, col: int)
    requires
        r.len() > 0,
        0 <= i,
    ensures
        pos_from(seq![f] + r, i + 1, col) == (pos_from(r, i, col).0 + 1, pos_from(r, i, col).1),
    decreases r.len() - i,
{
    let ls = seq![f] + r;
    if i >= r.len() {
        assert(ls[ls.len() - 1] == r[r.len() - 1]);
    } else {
        assert(ls[i + 1] == r[i]);
        if col > r[i].len() {
            lemma_pos_shift(f, r, i + 1, col - r[i].len() - 1);
        }
    }
}

/// How the position moves over one character: a newline starts the next
/// line at column 0; anything else advances the column.
proof fn lemma_pos_step(b: Seq<char>, off: int)
    requires
        1 <= off <= b.len(),
    ensures
        b[off - 1] == '\n' ==> pos_of(b, off) == (pos_of(b, off - 1).0 + 1, 0int),
        b[off - 1] != '\n' ==> pos_of(b, off) == (pos_of(b, off - 1).0, pos_of(b, off - 1).1 + 1),
    decreases b.len(),
{
    reveal(pos_of);
    let p = first_where(b, |c: char| c == '\n');
    lemma_first_where(b, |c: char| c == '\n');
    let ls = split_newlines(b);
    if p >= b.len() {
        assert(ls == seq![b]);
        assert(b[off - 1] != '\n');
    } else {
        let f = b.take(p);
        let rest = b.skip(p + 1);
        let r = split_newlines(rest);
        lemma_split_nonempty(rest);
        assert(ls == seq![f] + r);
        assert(ls[0] == f);
        if off <= p {
            assert(b[off - 1] != '\n');
        } else if off == p + 1 {
            lemma_pos_shift(f, r, 0, 0);
            assert(r[0].len() >= 0);
        } else {
            lemma_pos_shift(f, r, 0, off - p - 1);
            lemma_pos_shift(f, r, 0, off - 1 - p - 1);
            assert(rest[off - p - 2] == b[off - 1]);
            lemma_pos_step(rest, off - p - 1);
        }
    }
}

/// The start of a buffer is line 0, column 0.
proof fn lemma_pos_zero(b: Seq<char>)
    ensures
        pos_of(b, 0) == (0int, 0int),
{
    reveal(pos_of);
    let ls = split_newlines(b);
    lemma_split_nonempty(b);
    assert(ls[0].len() >= 0);
}

/// The line index grows by the newlines passed; on one line the column
/// grows by the distance.
proof fn lemma_pos_count(b: Seq<char>, x: int, y: int)
    requires
        0 <= x <= y <= b.len(),
    ensures
        pos_of(b, y).0 == pos_of(b, x).0 + nl_between(b, x, y),
        nl_between(b, x, y) >= 0,
        nl_between(b, x, y) == 0 ==> pos_of(b, y).1 == pos_of(b, x).1 + (y - x),
    decreases y - x,
{
    if y > x {
        lemma_pos_count(b, x, y - 1);
        lemma_pos_step(b, y);
    }
}

/// The column of an offset is its distance from its line's start.
proof fn lemma_pos_col(b: Seq<char>, off: int)
    requires
        0 <= off <= b.len(),
    ensures
        pos_of(b, off).1 == off - line_start(b, off),
    decreases off,
{
    if off == 0 {
        lemma_pos_zero(b);
    } else {
        lemma_pos_step(b, off);
        if b[off - 1] != '\n' {
            lemma_pos_col(b, off - 1);
        }
    }
}

/// At a line's end the column is the line's length.
proof fn lemma_pos_line_end(b: Seq<char>, off: int)
    requires
        0 <= off <= b.len(),
        off == b.len() || b[off] == '\n',
    ensures
        0 <= pos_of(b, off).0 < split_newlines(b).len(),
        pos_of(b, off).1 == split_newlines(b)[pos_of(b, off).0].len(),
    decreases b.len(),
{
    reveal(pos_of);
    let p = first_where(b, |c: char| c == '\n');
    lemma_first_where(b, |c: char| c == '\n');
    let ls = split_newlines(b);
    if p >= b.len() {
        assert(ls == seq![b]);
        assert(off == b.len());
    } else {
        let f = b.take(p);
        let rest = b.skip(p + 1);
        let r = split_newlines(rest);
        lemma_split_nonempty(rest);
        assert(ls == seq![f] + r);
        assert(ls[0] == f);
        if off <= p {
            assert(off == p);
        } else {
            lemma_pos_shift(f, r, 0, off - p - 1);
            if off < b.len() {
                assert(rest[off - p - 1] == b[off]);
            }
            lemma_pos_line_end(rest, off - p - 1);
            assert(ls[pos_of(rest, off - p - 1).0 + 1] == r[pos_of(rest, off - p - 1).0]);
        }
    }
}

/// Every offset of the buffer lies on one of its lines.
proof fn lemma_pos_range(b: Seq<char>, off: int)
    requires
        0 <= off <= b.len(),
    ensures
        0 <= pos_of(b, off).0 < split_newlines(b).len(),
{
    lemma_line_end(b, off);
    let e = line_end(b, off);
    lemma_pos_count(b, off, e);
    lemma_no_nl_count(b, off, e);
    lemma_pos_line_end(b, e);
}

/// No newline between `x` and `y` means none counted.
proof fn lemma_no_nl_count(b: Seq<char>, x: int, y: int)
    requires
        0 <= x <= y <= b.len(),
        forall|j: int| x <= j < y ==> b[j] != '\n',
    ensures
        nl_between(b, x, y) == 0,
    decreases y - x,
{
    if y > x {
        lemma_no_nl_count(b, x, y - 1);
    }
}

/// A newline between `x` and `y` is counted.
proof fn lemma_nl_count_pos(b: Seq<char>, x: int, y: int, k: int)
    requires
        0 <= x <= k < y <= b.len(),
        b[k] == '\n',
    ensures
        nl_between(b, x, y) >= 1,
    decreases y - x,
{
    if k < y - 1 {
        lemma_nl_count_pos(b, x, y - 1, k);
        lemma_nl_nonneg(b, x, y - 1);
    } else {
        lemma_nl_nonneg(b, x, y - 1);
    }
}

proof fn lemma_nl_nonneg(b: Seq<char>, x: int, y: int)
    ensures
        nl_between(b, x, y) >= 0,
    decreases y - x,
{
    if y > x {
        lemma_nl_nonneg(b, x, y - 1);
    }
}

/// Two offsets on the same line share its start.
proof fn lemma_same_line_start(b: Seq<char>, x: int, y: int)
    requires
        0 <= x <= y <= b.len(),
        pos_of(b, x).0 == pos_of(b, y).0,
    ensures
        line_start(b, x) == line_start(b, y),
{
    lemma_pos_count(b, x, y);
    lemma_pos_col(b, x);
    lemma_pos_col(b, y);
}

/// No newline lies between a line's start and any offset on it.
proof fn lemma_line_start_clear(buf: Seq<char>, off: int)
    requires
        0 <= off <= buf.len(),
    ensures
        0 <= line_start(buf, off) <= off,
        line_start(buf, off) > 0 ==> buf[line_start(buf, off) - 1] == '\n',
        forall|j: int| line_start(buf, off) <= j < off ==> buf[j] != '\n',
{
    lemma_line_start(buf, off);
    assert forall|j: int| line_start(buf, off) <= j < off implies buf[j] != '\n' by {
        assert(super::sim::at(buf, j) != Some('\n'));
    }
    if line_start(buf, off) > 0 {
        assert(super::sim::at(buf, line_start(buf, off) - 1) == Some('\n'));
    }
}

/// Pressing Left `k` times, with room to move, moves `k` back.
proof fn lemma_left_k(st: SimV, b: Behaviors, k: nat)
    requires
        0 <= st.cursor <= st.buffer.len(),
        k <= st.cursor,
    ensures
        keys_spec(st, b, KeyName::Left, k) == (SimV { cursor: st.cursor - k, ..st }),
    decreases k,
{
    if k > 0 {
        lemma_left_k(st, b, (k - 1) as nat);
    }
}

/// Up from a line below the first lands somewhere on the line above.
proof fn lemma_up_one(st: SimV)
    requires
        0 <= st.cursor <= st.buffer.len(),
        pos_of(st.buffer, st.cursor).0 >= 1,
    ensures
        up_spec(st).buffer == st.buffer,
        0 <= up_spec(st).cursor <= st.buffer.len(),
        pos_of(st.buffer, up_spec(st).cursor).0 == pos_of(st.buffer, st.cursor).0 - 1,
{
    let buf = st.buffer;
    let c = st.cursor;
    lemma_line_start_clear(buf, c);
    let start = line_start(buf, c);
    if start == 0 {
        lemma_pos_zero(buf);
        lemma_pos_count(buf, 0, c);
        lemma_no_nl_count(buf, 0, c);
        assert(false);
    }
    let prev_end = start - 1;
    assert(buf[prev_end] == '\n');
    lemma_pos_step(buf, start);
    lemma_pos_count(buf, start, c);
    lemma_no_nl_count(buf, start, c);
    lemma_line_start_clear(buf, prev_end);
    let prev_start = line_start(buf, prev_end);
    let col = c - start;
    let c2 = up_spec(st).cursor;
    assert(prev_start <= c2 <= prev_end);
    lemma_pos_count(buf, c2, prev_end);
    lemma_no_nl_count(buf, c2, prev_end);
}

/// Up `n` times from line `L >= n` lands on line `L - n`.
proof fn lemma_up_n(st: SimV, b: Behaviors, n: nat)
    requires
        0 <= st.cursor <= st.buffer.len(),
        pos_of(st.buffer, st.cursor).0 >= n,
    ensures
        keys_spec(st, b, KeyName::Up, n).buffer == st.buffer,
        0 <= keys_spec(st, b, KeyName::Up, n).cursor <= st.buffer.len(),
        pos_of(st.buffer, keys_spec(st, b, KeyName::Up, n).cursor).0 == pos_of(st.buffer, st.cursor).0 - n,
    decreases n,
{
    if n > 0 {
        lemma_up_n(st, b, (n - 1) as nat);
        let s = keys_spec(st, b, KeyName::Up, (n - 1) as nat);
        lemma_up_one(s);
    }
}

/// At most one newline per character.
proof fn lemma_nl_bound(b: Seq<char>, x: int, y: int)
    requires
        x <= y,
    ensures
        0 <= nl_between(b, x, y) <= y - x,
    decreases y - x,
{
    if y > x {
        lemma_nl_bound(b, x, y - 1);
    }
}

/// Replaying a concatenation replays its parts in turn.
proof fn lemma_run_concat(st: SimV, b: Behaviors, a: Seq<EventV>, c: Seq<EventV>)
    ensures
        run_from(st, b, a + c) == run_from(run_from(st, b, a), b, c),
    decreases c.len(),
{
    if c.len() == 0 {
        assert(a + c =~= a);
    } else {
        lemma_run_concat(st, b, a, c.drop_last());
        assert((a + c).drop_last() =~= a + c.drop_last());
        assert((a + c).last() == c.last());
    }
}

/// Replaying one key event presses the key that many times.
proof fn lemma_run_key(st: SimV, b: Behaviors, k: KeyName, n: usize)
    ensures
        run_from(st, b, seq![EventV::Key(k, n)]) == keys_spec(st, b, k, n as nat),
{
    let evs = seq![EventV::Key(k, n)];
    assert(evs.drop_last() =~= Seq::<EventV>::empty());
    assert(evs.last() == EventV::Key(k, n));
    assert(run_from(st, b, Seq::<EventV>::empty()) == st);
    assert(run_from(st, b, evs) == step_spec((run_from(st, b, evs.drop_last()), None), b, evs.last()).0);
}

/// Replaying `left_spec(k)` presses Left `k` times.
proof fn lemma_run_left(st: SimV, b: Behaviors, k: int)
    requires
        0 <= k <= st.cursor <= st.buffer.len(),
        k <= usize::MAX,
    ensures
        run_from(st, b, left_spec(k)) == (SimV { cursor: st.cursor - k, ..st }),
{
    if k > 0 {
        lemma_run_key(st, b, KeyName::Left, k as usize);
        lemma_left_k(st, b, k as nat);
    } else {
        assert(left_spec(k) =~= Seq::<EventV>::empty());
    }
}

/// The line and column of an offset are bounded by the offset.
proof fn lemma_pos_bound(b: Seq<char>, off: int)
    requires
        0 <= off <= b.len(),
    ensures
        0 <= pos_of(b, off).0 <= off,
        0 <= pos_of(b, off).1 <= off,
{
    lemma_pos_zero(b);
    lemma_pos_count(b, 0, off);
    lemma_nl_bound(b, 0, off);
    lemma_pos_col(b, off);
    lemma_line_start_clear(b, off);
}

/// What the movement compiler emits for a same-line target.
proof fn lemma_movement_same(buffer: Seq<char>, from: int, to: int)
    requires
        movement_spec(buffer, from, to) is Some,
        pos_of(buffer, from).0 == pos_of(buffer, to).0,
    ensures
        movement_spec(buffer, from, to)->0 == left_spec(pos_of(buffer, from).1 - pos_of(buffer, to).1),
{
    reveal(pos_of);
}

/// What the movement compiler emits for a target on an earlier line.
proof fn lemma_movement_cross(buffer: Seq<char>, from: int, to: int)
    requires
        movement_spec(buffer, from, to) is Some,
        pos_of(buffer, from).0 != pos_of(buffer, to).0,
        0 <= pos_of(buffer, to).0 < split_newlines(buffer).len(),
    ensures
        pos_of(buffer, to).0 < pos_of(buffer, from).0,
        movement_spec(buffer, from, to)->0 == seq![
            EventV::Key(KeyName::Up, (pos_of(buffer, from).0 - pos_of(buffer, to).0) as usize),
            EventV::Key(KeyName::End, 1),
        ] + left_spec(split_newlines(buffer)[pos_of(buffer, to).0].len() - pos_of(buffer, to).1),
{
    reveal(pos_of);
}

/// The same-line case: Left to the target column.
#[verifier::spinoff_prover]
proof fn lemma_lands_same_line(buffer: Seq<char>, from: int, to: int, b: Behaviors)
    requires
        0 <= from <= buffer.len(),
        0 <= to <= buffer.len(),
        buffer.len() <= usize::MAX,
        pos_of(buffer, from).0 == pos_of(buffer, to).0,
        pos_of(buffer, to).1 <= pos_of(buffer, from).1,
    ensures
        run_from(SimV { buffer, cursor: from }, b, left_spec(pos_of(buffer, from).1 - pos_of(buffer, to).1)) == (SimV {
            buffer,
            cursor: to,
        }),
{
    let st = SimV { buffer, cursor: from };
    let f = pos_of(buffer, from);
    let t = pos_of(buffer, to);
    lemma_pos_col(buffer, from);
    lemma_pos_col(buffer, to);
    lemma_pos_bound(buffer, from);
    lemma_pos_bound(buffer, to);
    lemma_line_start_clear(buffer, from);
    lemma_line_start_clear(buffer, to);
    if to <= from {
        lemma_same_line_start(buffer, to, from);
    } else {
        lemma_same_line_start(buffer, from, to);
    }
    lemma_run_left(st, b, f.1 - t.1);
}

/// Up onto the target's line, then End: the cursor sits at that line's end.
#[verifier::spinoff_prover]
proof fn lemma_up_then_end(buffer: Seq<char>, from: int, to: int, b: Behaviors) -> (e: int)
    requires
        0 <= from <= buffer.len(),
        0 <= to <= buffer.len(),
        buffer.len() <= usize::MAX,
        pos_of(buffer, to).0 < pos_of(buffer, from).0,
    ensures
        run_from(
            SimV { buffer, cursor: from },
            b,
            seq![EventV::Key(KeyName::Up, (pos_of(buffer, from).0 - pos_of(buffer, to).0) as usize), EventV::Key(KeyName::End, 1)],
        ) == (SimV { buffer, cursor: e }),
        0 <= e <= buffer.len(),
        pos_of(buffer, e).0 == pos_of(buffer, to).0,
        pos_of(buffer, e).1 == split_newlines(buffer)[pos_of(buffer, to).0].len(),
        line_start(buffer, e) == line_start(buffer, to),
        e - line_start(buffer, e) == pos_of(buffer, e).1,
{
    let st = SimV { buffer, cursor: from };
    let f = pos_of(buffer, from);
    let t = pos_of(buffer, to);
    lemma_pos_range(buffer, to);
    lemma_pos_bound(buffer, from);
    let n = f.0 - t.0;
    lemma_up_n(st, b, n as nat);
    let s1 = keys_spec(st, b, KeyName::Up, n as nat);
    let e = line_end(buffer, s1.cursor);
    lemma_line_end(buffer, s1.cursor);
    lemma_pos_count(buffer, s1.cursor, e);
    lemma_no_nl_count(buffer, s1.cursor, e);
    lemma_pos_line_end(buffer, e);
    lemma_pos_col(buffer, e);
    if to <= e {
        lemma_same_line_start(buffer, to, e);
    } else {
        lemma_same_line_start(buffer, e, to);
    }
    let s2 = key_spec(s1, b, KeyName::End);
    assert(s2 == SimV { cursor: e, ..s1 });
    let up = seq![EventV::Key(KeyName::Up, n as usize)];
    let end = seq![EventV::Key(KeyName::End, 1)];
    lemma_run_key(st, b, KeyName::Up, n as usize);
    lemma_run_key(s1, b, KeyName::End, 1);
    assert(keys_spec(s1, b, KeyName::End, 1) == key_spec(keys_spec(s1, b, KeyName::End, 0), b, KeyName::End));
    lemma_run_concat(st, b, up, end);
    assert(up + end =~= seq![EventV::Key(KeyName::Up, n as usize), EventV::Key(KeyName::End, 1)]);
    e
}

/// A same-line movement exists only for a target left of the cursor.
proof fn lemma_same_line_cols(buffer: Seq<char>, from: int, to: int)
    requires
        movement_spec(buffer, from, to) is Some,
        pos_of(buffer, from).0 == pos_of(buffer, to).0,
    ensures
        pos_of(buffer, to).1 <= pos_of(buffer, from).1,
{
    reveal(pos_of);
}

/// Nothing on a line lies past its end.
proof fn lemma_line_end_at(buffer: Seq<char>, e: int, to: int)
    requires
        0 <= e <= buffer.len(),
        0 <= to <= buffer.len(),
        pos_of(buffer, e).0 == pos_of(buffer, to).0,
        e == buffer.len() || buffer[e] == '\n',
    ensures
        to <= e,
{
    if to > e {
        lemma_nl_count_pos(buffer, e, to, e);
        lemma_pos_count(buffer, e, to);
    }
}

/// From the end of the target's line, the target lies `e - to` to the left.
proof fn lemma_cross_distance(buffer: Seq<char>, to: int, e: int)
    requires
        0 <= to <= buffer.len(),
        0 <= e <= buffer.len(),
        pos_of(buffer, e).0 == pos_of(buffer, to).0,
        pos_of(buffer, e).1 == split_newlines(buffer)[pos_of(buffer, to).0].len(),
        line_start(buffer, e) == line_start(buffer, to),
    ensures
        to <= e,
        split_newlines(buffer)[pos_of(buffer, to).0].len() - pos_of(buffer, to).1 == e - to,
{
    lemma_pos_range(buffer, to);
    lemma_pos_col(buffer, to);
    lemma_pos_col(buffer, e);
    lemma_pos_line_end_of(buffer, e);
    lemma_line_end_at(buffer, e, to);
}

/// A cursor whose column is its line's length sits at that line's end.
proof fn lemma_pos_line_end_of(buffer: Seq<char>, e: int)
    requires
        0 <= e <= buffer.len(),
        0 <= pos_of(buffer, e).0 < split_newlines(buffer).len(),
        pos_of(buffer, e).1 == split_newlines(buffer)[pos_of(buffer, e).0].len(),
    ensures
        e == buffer.len() || buffer[e] == '\n',
{
    lemma_line_end(buffer, e);
    let x = line_end(buffer, e);
    lemma_pos_count(buffer, e, x);
    lemma_no_nl_count(buffer, e, x);
    lemma_pos_line_end(buffer, x);
}

/// The cross-line case: Up, End, then Left to the target column.
#[verifier::spinoff_prover]
proof fn lemma_lands_cross(buffer: Seq<char>, from: int, to: int, b: Behaviors)
    requires
        0 <= from <= buffer.len(),
        0 <= to <= buffer.len(),
        buffer.len() <= usize::MAX,
        pos_of(buffer, to).0 < pos_of(buffer, from).0,
        0 <= pos_of(buffer, to).0 < split_newlines(buffer).len(),
    ensures
        run_from(
            SimV { buffer, cursor: from },
            b,
            seq![
                EventV::Key(KeyName::Up, (pos_of(buffer, from).0 - pos_of(buffer, to).0) as usize),
                EventV::Key(KeyName::End, 1),
            ] + left_spec(split_newlines(buffer)[pos_of(buffer, to).0].len() - pos_of(buffer, to).1),
        ) == (SimV { buffer, cursor: to }),
{
    let st = SimV { buffer, cursor: from };
    let n = pos_of(buffer, from).0 - pos_of(buffer, to).0;
    let e = lemma_up_then_end(buffer, from, to, b);
    lemma_cross_distance(buffer, to, e);
    let head = seq![EventV::Key(KeyName::Up, n as usize), EventV::Key(KeyName::End, 1)];
    let k = e - to;
    lemma_run_concat(st, b, head, left_spec(k));
    lemma_run_left(SimV { buffer, cursor: e }, b, k);
}

/// The keys the movement compiler emits, replayed from the resting cursor
/// in any editor profile, leave the buffer as it is and put the cursor on
/// the target.
#[verifier::spinoff_prover]
pub proof fn law_movement_lands(buffer: Seq<char>, from: int, to: int, b: Behaviors)
    requires
        0 <= from <= buffer.len(),
        0 <= to <= buffer.len(),
        buffer.len() <= usize::MAX,
        movement_spec(buffer, from, to) is Some,
    ensures
        run_from(SimV { buffer, cursor: from }, b, movement_spec(buffer, from, to)->0) == (SimV { buffer, cursor: to }),
{
    let f = pos_of(buffer, from);
    let t = pos_of(buffer, to);
    lemma_pos_range(buffer, to);
    if f.0 == t.0 {
        lemma_movement_same(buffer, from, to);
        lemma_same_line_cols(buffer, from, to);
        lemma_lands_same_line(buffer, from, to, b);
    } else {
        lemma_movement_cross(buffer, from, to);
        lemma_lands_cross(buffer, from, to, b);
    }
}

/// A target at or before the resting cursor is always reachable.
pub proof fn law_movement_back_exists(buffer: Seq<char>, from: int, to: int)
    requires
        0 <= to <= from <= buffer.len(),
    ensures
        movement_spec(buffer, from, to) is Some,
{
    reveal(pos_of);
    lemma_pos_count(buffer, to, from);
    assert(pos_of(buffer, from) == pos_spec(split_newlines(buffer), from));
    assert(pos_of(buffer, to) == pos_spec(split_newlines(buffer), to));
}

/// Typing text into an empty plain editor leaves exactly that text, with the
/// cursor at its end.
proof fn lemma_type_plain(t: Seq<char>)
    ensures
        text_spec(SimV { buffer: Seq::empty(), cursor: 0 }, plain_spec(), t) == (SimV { buffer: t, cursor: t.len() as int }),
    decreases t.len(),
{
    if t.len() > 0 {
        lemma_type_plain(t.drop_last());
        let st = SimV { buffer: t.drop_last(), cursor: t.drop_last().len() as int };
        assert(st.buffer.take(st.cursor) + seq![t.last()] + st.buffer.skip(st.cursor) =~= t);
    }
}

/// Replaying events after a prefix continues from the prefix's state.
proof fn lemma_run_spec_concat(pre: Seq<EventV>, evs: Seq<EventV>, b: Behaviors)
    ensures
        run_spec(pre + evs, b).0 == run_from(run_spec(pre, b).0, b, evs),
    decreases evs.len(),
{
    if evs.len() == 0 {
        assert(pre + evs =~= pre);
    } else {
        lemma_run_spec_concat(pre, evs.drop_last(), b);
        assert((pre + evs).drop_last() =~= pre + evs.drop_last());
        assert((pre + evs).last() == evs.last());
    }
}

/// Typing `text` in the plain editor and then replaying the movement from
/// the end of the text to any offset `to` at or before it leaves the text
/// as typed and puts the cursor on `to`.
pub proof fn law_type_then_move(text: Seq<char>, to: int)
    requires
        0 <= to <= text.len(),
        text.len() <= usize::MAX,
    ensures
        movement_spec(text, text.len() as int, to) is Some,
        run_spec(seq![EventV::Text(text)] + movement_spec(text, text.len() as int, to)->0, plain_spec()).0 == (SimV {
            buffer: text,
            cursor: to,
        }),
{
    let n = text.len() as int;
    law_movement_back_exists(text, n, to);
    let pre = seq![EventV::Text(text)];
    let evs = movement_spec(text, n, to)->0;
    lemma_run_spec_concat(pre, evs, plain_spec());
    assert(pre.drop_last() =~= Seq::<EventV>::empty());
    assert(run_spec(pre.drop_last(), plain_spec()) == (SimV { buffer: Seq::<char>::empty(), cursor: 0 }, None::<int>));
    assert(pre.last() == EventV::Text(text));
    lemma_type_plain(text);
    assert(run_spec(pre, plain_spec()) == step_spec(
        (SimV { buffer: Seq::<char>::empty(), cursor: 0 }, None::<int>),
        plain_spec(),
        EventV::Text(text),
    ));
    assert(run_spec(pre, plain_spec()).0 == (SimV { buffer: text, cursor: n }));
    law_movement_lands(text, n, to, plain_spec());
}

} // verus!
