//! The editor simulation: the mutable [`Sim`] state and its keystroke
//! handlers, each stated against a step function on the model
//! ([`SimV`]). `interpret` drives it.
use vstd::prelude::*;
use super::{
    auto_close_of, ends_with_opener, is_auto_close, is_quote, spec_auto_close_of,
    spec_ends_with_opener, spec_is_auto_close, spec_is_quote, Behaviors, KeyName,
};
use crate::text::{chars_of, sub_vec, trim_end, trim_end_bound};

verus! {

broadcast use vstd::seq_lib::group_seq_properties;

/// Model of the editor: buffer contents and cursor offset.
pub struct SimV {
    /// Buffer contents.
    pub buffer: Seq<char>,
    /// Cursor offset.
    pub cursor: int,
}

/// The character at `i`, if any.
pub open spec fn at(buf: Seq<char>, i: int) -> Option<char> {
    if 0 <= i < buf.len() {
        Some(buf[i])
    } else {
        None
    }
}

/// Offset of the start of the line containing `off`.
pub open spec fn line_start(buf: Seq<char>, off: int) -> int
    decreases off,
{
    if off <= 0 {
        0
    } else if at(buf, off - 1) == Some('\n') {
        off
    } else {
        line_start(buf, off - 1)
    }
}

/// Offset of the newline (or buffer end) ending the line containing `off`.
pub open spec fn line_end(buf: Seq<char>, off: int) -> int
    decreases buf.len() - off,
{
    if off < 0 || off >= buf.len() {
        buf.len() as int
    } else if buf[off] == '\n' {
        off
    } else {
        line_end(buf, off + 1)
    }
}

/// End of the run of spaces and tabs starting at `i`.
pub open spec fn indent_end(buf: Seq<char>, i: int) -> int
    decreases buf.len() - i,
{
    if 0 <= i < buf.len() && (buf[i] == ' ' || buf[i] == '\t') {
        indent_end(buf, i + 1)
    } else {
        i
    }
}

/// The run of spaces/tabs starting at `start`.
pub open spec fn leading_indent(buf: Seq<char>, start: int) -> Seq<char> {
    if 0 <= start <= buf.len() {
        buf.subrange(start, indent_end(buf, start))
    } else {
        Seq::empty()
    }
}

/// Insert `s` at the cursor and advance past it.
pub open spec fn insert_spec(st: SimV, s: Seq<char>) -> SimV {
    SimV { buffer: st.buffer.take(st.cursor) + s + st.buffer.skip(st.cursor), cursor: st.cursor + s.len() }
}

/// Insert `open`+`close` and sit between them.
pub open spec fn pair_spec(st: SimV, open: char, close: char) -> SimV {
    let s = insert_spec(st, seq![open, close]);
    SimV { cursor: s.cursor - 1, ..s }
}

/// Type one character under the behaviors `b`.
pub open spec fn type_char_spec(st: SimV, b: Behaviors, ch: char) -> SimV {
    if b.auto_close && spec_auto_close_of(ch) is Some {
        pair_spec(st, ch, spec_auto_close_of(ch)->0)
    } else if b.auto_close && spec_is_quote(ch) {
        if at(st.buffer, st.cursor) == Some(ch) {
            SimV { cursor: st.cursor + 1, ..st }
        } else {
            pair_spec(st, ch, ch)
        }
    } else if b.type_over && (spec_is_auto_close(ch) || spec_is_quote(ch)) && at(st.buffer, st.cursor)
        == Some(ch) {
        SimV { cursor: st.cursor + 1, ..st }
    } else {
        insert_spec(st, seq![ch])
    }
}

/// Enter between `{` and `}` under auto-indent: open / indented body /
/// dedented close lines, cursor on the body line.
pub open spec fn block_expand_spec(st: SimV, b: Behaviors) -> SimV {
    let base = leading_indent(st.buffer, line_start(st.buffer, st.cursor));
    let s = insert_spec(st, seq!['\n'] + base + b.indent_unit@ + seq!['\n'] + base);
    SimV { cursor: s.cursor - 1 - base.len(), ..s }
}

/// A newline indented to the depth the current line implies.
pub open spec fn indent_newline_spec(st: SimV, b: Behaviors) -> SimV {
    let start = line_start(st.buffer, st.cursor);
    let indent = leading_indent(st.buffer, start);
    let so_far = trim_end(st.buffer.subrange(start, st.cursor));
    let ind = if spec_ends_with_opener(so_far) {
        indent + b.indent_unit@
    } else {
        indent
    };
    insert_spec(st, seq!['\n'] + ind)
}

/// The Enter key.
pub open spec fn enter_spec(st: SimV, b: Behaviors) -> SimV {
    if !b.auto_indent {
        insert_spec(st, seq!['\n'])
    } else if st.cursor > 0 && at(st.buffer, st.cursor - 1) == Some('{') && at(st.buffer, st.cursor)
        == Some('}') {
        block_expand_spec(st, b)
    } else {
        indent_newline_spec(st, b)
    }
}

/// Every character is a space.
pub open spec fn all_spaces(s: Seq<char>) -> bool {
    forall|i: int| 0 <= i < s.len() ==> s[i] == ' '
}

/// How many characters Backspace removes after `before` (the line so far).
pub open spec fn dedent_delete_spec(before: Seq<char>, b: Behaviors) -> int {
    if !(b.auto_indent && before.len() > 0 && all_spaces(before)) {
        1
    } else {
        let unit = if b.indent_unit@.len() > 1 {
            b.indent_unit@.len() as int
        } else {
            1
        };
        before.len() - (before.len() - 1) / unit * unit
    }
}

/// The Backspace key.
pub open spec fn backspace_spec(st: SimV, b: Behaviors) -> SimV {
    if st.cursor == 0 {
        st
    } else {
        let start = line_start(st.buffer, st.cursor);
        let del = dedent_delete_spec(st.buffer.subrange(start, st.cursor), b);
        let from = st.cursor - del;
        SimV { buffer: st.buffer.take(from) + st.buffer.skip(st.cursor), cursor: from }
    }
}

/// The Up key: previous line, same column where possible.
pub open spec fn up_spec(st: SimV) -> SimV {
    let start = line_start(st.buffer, st.cursor);
    if start == 0 {
        st
    } else {
        let col = st.cursor - start;
        let prev_end = start - 1;
        let prev_start = line_start(st.buffer, prev_end);
        let c = if prev_start + col < prev_end {
            prev_start + col
        } else {
            prev_end
        };
        SimV { cursor: c, ..st }
    }
}

/// The Down key: next line, same column where possible.
pub open spec fn down_spec(st: SimV) -> SimV {
    let col = st.cursor - line_start(st.buffer, st.cursor);
    let next_start = line_end(st.buffer, st.cursor) + 1;
    if next_start <= st.buffer.len() {
        let e = line_end(st.buffer, next_start);
        let c = if next_start + col < e {
            next_start + col
        } else {
            e
        };
        SimV { cursor: c, ..st }
    } else {
        st
    }
}

/// One special key.
pub open spec fn key_spec(st: SimV, b: Behaviors, k: KeyName) -> SimV {
    match k {
        KeyName::Enter => enter_spec(st, b),
        KeyName::BackSpace => backspace_spec(st, b),
        KeyName::Left => SimV { cursor: if st.cursor > 0 { st.cursor - 1 } else { 0 }, ..st },
        KeyName::Right => SimV {
            cursor: if st.cursor < st.buffer.len() { st.cursor + 1 } else { st.cursor },
            ..st
        },
        KeyName::Home => SimV { cursor: line_start(st.buffer, st.cursor), ..st },
        KeyName::End => SimV { cursor: line_end(st.buffer, st.cursor), ..st },
        KeyName::Up => up_spec(st),
        KeyName::Down => down_spec(st),
        KeyName::Tab => insert_spec(st, b.indent_unit@),
    }
}

/// Type every character of `s` in turn.
pub open spec fn text_spec(st: SimV, b: Behaviors, s: Seq<char>) -> SimV
    decreases s.len(),
{
    if s.len() == 0 {
        st
    } else {
        type_char_spec(text_spec(st, b, s.drop_last()), b, s.last())
    }
}

/// Press `k` `n` times.
pub open spec fn keys_spec(st: SimV, b: Behaviors, k: KeyName, n: nat) -> SimV
    decreases n,
{
    if n == 0 {
        st
    } else {
        key_spec(keys_spec(st, b, k, (n - 1) as nat), b, k)
    }
}

/// A model state whose cursor lies within its buffer.
pub open spec fn sim_ok(st: SimV) -> bool {
    0 <= st.cursor <= st.buffer.len()
}

pub proof fn lemma_line_start(buf: Seq<char>, off: int)
    requires
        0 <= off,
    ensures
        0 <= line_start(buf, off) <= off,
        line_start(buf, off) > 0 ==> at(buf, line_start(buf, off) - 1) == Some('\n'),
        forall|j: int| line_start(buf, off) <= j < off ==> at(buf, j) != Some('\n'),
    decreases off,
{
    if off > 0 && at(buf, off - 1) != Some('\n') {
        lemma_line_start(buf, off - 1);
    }
}

pub proof fn lemma_line_start_unique(buf: Seq<char>, off: int, k: int)
    requires
        0 <= k <= off,
        k > 0 ==> at(buf, k - 1) == Some('\n'),
        forall|j: int| k <= j < off ==> at(buf, j) != Some('\n'),
    ensures
        line_start(buf, off) == k,
    decreases off,
{
    if off > k {
        lemma_line_start_unique(buf, off - 1, k);
    }
}

pub proof fn lemma_line_end(buf: Seq<char>, off: int)
    requires
        0 <= off,
    ensures
        off <= buf.len() ==> off <= line_end(buf, off) <= buf.len(),
        off > buf.len() ==> line_end(buf, off) == buf.len(),
        line_end(buf, off) < buf.len() ==> buf[line_end(buf, off)] == '\n',
        forall|j: int| off <= j < line_end(buf, off) ==> buf[j] != '\n',
    decreases buf.len() - off,
{
    if off < buf.len() && buf[off] != '\n' {
        lemma_line_end(buf, off + 1);
    }
}

pub proof fn lemma_line_end_unique(buf: Seq<char>, off: int, k: int)
    requires
        0 <= off <= k <= buf.len(),
        k < buf.len() ==> buf[k] == '\n',
        forall|j: int| off <= j < k ==> buf[j] != '\n',
    ensures
        line_end(buf, off) == k,
    decreases buf.len() - off,
{
    if off < k {
        lemma_line_end_unique(buf, off + 1, k);
    }
}

proof fn lemma_indent_end(buf: Seq<char>, i: int, k: int)
    requires
        0 <= i <= k <= buf.len(),
        forall|j: int| i <= j < k ==> buf[j] == ' ' || buf[j] == '\t',
        k < buf.len() ==> !(buf[k] == ' ' || buf[k] == '\t'),
    ensures
        indent_end(buf, i) == k,
    decreases k - i,
{
    if i < k {
        lemma_indent_end(buf, i + 1, k);
    }
}

/// Mutable editor state threaded through the keystroke handlers.
pub struct Sim {
    /// Buffer as characters (code templates are effectively ASCII).
    pub buffer: Vec<char>,
    /// Cursor offset in characters.
    pub cursor: usize,
    /// Active profile.
    pub behaviors: Behaviors,
}

/// The vector holding the single character `c`.
fn one_char(c: char) -> (r: Vec<char>)
    ensures
        r@ == seq![c],
{
    let mut r: Vec<char> = Vec::new();
    r.push(c);
    r
}

/// A vector holding `v[..from]`, then `ins`, then `v[to..]`.
fn replace_range(v: &Vec<char>, from: usize, to: usize, ins: &[char]) -> (r: Vec<char>)
    requires
        from <= to <= v@.len(),
    ensures
        r@ == v@.take(from as int) + ins@ + v@.skip(to as int),
{
    let mut r: Vec<char> = Vec::new();
    let mut i: usize = 0;
    while i < from
        invariant
            i <= from <= to <= v@.len(),
            r@ == v@.take(i as int),
        decreases from - i,
    {
        r.push(v[i]);
        i = i + 1;
        assert(v@.take(i as int) == v@.take((i - 1) as int).push(v@[i - 1]));
    }
    let mut j: usize = 0;
    while j < ins.len()
        invariant
            j <= ins@.len(),
            r@ == v@.take(from as int) + ins@.take(j as int),
        decreases ins.len() - j,
    {
        r.push(ins[j]);
        j = j + 1;
        assert(ins@.take(j as int) == ins@.take((j - 1) as int).push(ins@[j - 1]));
    }
    assert(ins@.take(j as int) == ins@);
    let mut k: usize = to;
    let n = v.len();
    while k < n
        invariant
            to <= k <= n,
            n == v@.len(),
            r@ == v@.take(from as int) + ins@ + v@.subrange(to as int, k as int),
        decreases n - k,
    {
        r.push(v[k]);
        k = k + 1;
        assert(v@.subrange(to as int, k as int) == v@.subrange(to as int, (k - 1) as int).push(v@[k - 1]));
    }
    assert(v@.subrange(to as int, n as int) == v@.skip(to as int));
    r
}

impl Sim {
    /// The model of this state.
    pub open spec fn view(&self) -> SimV {
        SimV { buffer: self.buffer@, cursor: self.cursor as int }
    }

    /// The cursor lies within the buffer.
    pub open spec fn wf(&self) -> bool {
        self.cursor <= self.buffer@.len()
    }

    /// A fresh, empty editor under the given profile.
    pub fn new(behaviors: Behaviors) -> (r: Self)
        ensures
            r.wf(),
            r.view() == (SimV { buffer: Seq::empty(), cursor: 0 }),
            r.behaviors == behaviors,
    {
        Sim { buffer: Vec::new(), cursor: 0, behaviors }
    }

    /// Insert `s` at the cursor and advance past it.
    fn insert(&mut self, s: &[char])
        requires
            old(self).wf(),
        ensures
            final(self).wf(),
            final(self).view() == insert_spec(old(self).view(), s@),
            final(self).behaviors == old(self).behaviors,
    {
        let nb = replace_range(&self.buffer, self.cursor, self.cursor, s);
        let len = nb.len();
        assert(nb@.len() == self.cursor + s@.len() + (self.buffer@.len() - self.cursor));
        self.buffer = nb;
        self.cursor = self.cursor + s.len();
        assert(len == self.buffer@.len());
    }

    /// The character at `i`, if any.
    fn at(&self, i: usize) -> (r: Option<char>)
        ensures
            r == at(self.buffer@, i as int),
            self.buffer@.len() <= usize::MAX,
    {
        if i < self.buffer.len() {
            Some(self.buffer[i])
        } else {
            None
        }
    }

    /// Offset of the start of the line containing `off`.
    fn line_start(&self, off: usize) -> (r: usize)
        ensures
            r == line_start(self.buffer@, off as int),
    {
        if off == 0 {
            return 0;
        }
        let mut i = off - 1;
        loop
            invariant
                i < off,
                forall|j: int| i < j < off ==> at(self.buffer@, j) != Some('\n'),
            decreases i,
        {
            if self.at(i) == Some('\n') {
                proof {
                    lemma_line_start_unique(self.buffer@, off as int, i + 1);
                }
                return i + 1;
            }
            if i == 0 {
                proof {
                    lemma_line_start_unique(self.buffer@, off as int, 0);
                }
                return 0;
            }
            i = i - 1;
        }
    }

    /// Offset of the newline (or buffer end) ending the line containing `off`.
    fn line_end(&self, off: usize) -> (r: usize)
        ensures
            r == line_end(self.buffer@, off as int),
    {
        let n = self.buffer.len();
        if off >= n {
            return n;
        }
        let mut i = off;
        while i < n && self.buffer[i] != '\n'
            invariant
                off <= i <= n,
                n == self.buffer@.len(),
                forall|j: int| off <= j < i ==> self.buffer@[j] != '\n',
            decreases n - i,
        {
            i = i + 1;
        }
        proof {
            lemma_line_end_unique(self.buffer@, off as int, i as int);
        }
        i
    }

    /// The run of spaces/tabs starting at `start`.
    fn leading_indent(&self, start: usize) -> (r: Vec<char>)
        ensures
            r@ == leading_indent(self.buffer@, start as int),
    {
        let n = self.buffer.len();
        if start > n {
            return Vec::new();
        }
        let mut i = start;
        while i < n && (self.buffer[i] == ' ' || self.buffer[i] == '\t')
            invariant
                start <= i <= n,
                n == self.buffer@.len(),
                forall|j: int| start <= j < i ==> self.buffer@[j] == ' ' || self.buffer@[j] == '\t',
            decreases n - i,
        {
            i = i + 1;
        }
        proof {
            lemma_indent_end(self.buffer@, start as int, i as int);
        }
        sub_vec(self.buffer.as_slice(), start, i)
    }

    /// Type a single character, applying auto-close / type-over per profile.
    pub fn type_char(&mut self, ch: char)
        requires
            old(self).wf(),
        ensures
            final(self).wf(),
            final(self).view() == type_char_spec(old(self).view(), old(self).behaviors, ch),
            final(self).behaviors == old(self).behaviors,
    {
        let b = self.behaviors;
        if b.auto_close {
            if let Some(close) = auto_close_of(ch) {
                self.insert_pair(ch, close);
                return;
            }
            if is_quote(ch) {
                self.type_quote(ch);
                return;
            }
        }
        if b.type_over && (is_auto_close(ch) || is_quote(ch)) && self.at(self.cursor) == Some(ch) {
            self.cursor = self.cursor + 1;
            return;
        }
        self.insert(one_char(ch).as_slice());
    }

    /// Insert `open`+`close` and sit between them.
    fn insert_pair(&mut self, open: char, close: char)
        requires
            old(self).wf(),
        ensures
            final(self).wf(),
            final(self).view() == pair_spec(old(self).view(), open, close),
            final(self).behaviors == old(self).behaviors,
    {
        let mut s = one_char(open);
        s.push(close);
        assert(s@ == seq![open, close]);
        self.insert(s.as_slice());
        self.cursor = self.cursor - 1;
    }

    /// Type a quote: step over an existing auto-quote, else auto-pair.
    fn type_quote(&mut self, ch: char)
        requires
            old(self).wf(),
        ensures
            final(self).wf(),
            final(self).view() == (if at(old(self).buffer@, old(self).cursor as int) == Some(ch) {
                SimV { cursor: old(self).cursor + 1, ..old(self).view() }
            } else {
                pair_spec(old(self).view(), ch, ch)
            }),
            final(self).behaviors == old(self).behaviors,
    {
        if self.at(self.cursor) == Some(ch) {
            self.cursor = self.cursor + 1;
        } else {
            self.insert_pair(ch, ch);
        }
    }

    /// Handle Enter: bare newline, block-expand, or auto-indented newline.
    fn enter(&mut self)
        requires
            old(self).wf(),
        ensures
            final(self).wf(),
            final(self).view() == enter_spec(old(self).view(), old(self).behaviors),
            final(self).behaviors == old(self).behaviors,
    {
        if !self.behaviors.auto_indent {
            self.insert(one_char('\n').as_slice());
            return;
        }
        if self.cursor > 0 && self.at(self.cursor - 1) == Some('{') && self.at(self.cursor) == Some('}') {
            self.block_expand();
            return;
        }
        self.indent_newline();
    }

    /// Expand `{|}` onto open / indented-body / dedented-close lines.
    fn block_expand(&mut self)
        requires
            old(self).wf(),
        ensures
            final(self).wf(),
            final(self).view() == block_expand_spec(old(self).view(), old(self).behaviors),
            final(self).behaviors == old(self).behaviors,
    {
        let start = self.line_start(self.cursor);
        let base = self.leading_indent(start);
        let unit = chars_of(self.behaviors.indent_unit);
        let s0 = one_char('\n');
        let s = replace_range(&s0, 1, 1, base.as_slice());
        assert(s@ == seq!['\n'] + base@);
        let n1 = s.len();
        let s = replace_range(&s, n1, n1, unit.as_slice());
        assert(s@ == seq!['\n'] + base@ + unit@);
        let mut s = s;
        s.push('\n');
        let n2 = s.len();
        let s = replace_range(&s, n2, n2, base.as_slice());
        assert(s@ == seq!['\n'] + base@ + unit@ + seq!['\n'] + base@);
        assert(s@ == seq!['\n'] + base@ + unit@ + seq!['\n'] + base@);
        let ghost pre = self.view();
        self.insert(s.as_slice());
        proof {
            lemma_line_start(pre.buffer, pre.cursor);
        }
        self.cursor = self.cursor - 1 - base.len();
    }

    /// Insert a newline indented to the depth implied by the current line.
    fn indent_newline(&mut self)
        requires
            old(self).wf(),
        ensures
            final(self).wf(),
            final(self).view() == indent_newline_spec(old(self).view(), old(self).behaviors),
            final(self).behaviors == old(self).behaviors,
    {
        let start = self.line_start(self.cursor);
        proof {
            lemma_line_start(self.buffer@, self.cursor as int);
        }
        let indent = self.leading_indent(start);
        let so_far = self.line_so_far(start);
        let s0 = one_char('\n');
        let s = replace_range(&s0, 1, 1, indent.as_slice());
        assert(s@ == seq!['\n'] + indent@);
        let s = if ends_with_opener(so_far.as_slice()) {
            let unit = chars_of(self.behaviors.indent_unit);
            let n = s.len();
            let s2 = replace_range(&s, n, n, unit.as_slice());
            assert(s2@ == seq!['\n'] + (indent@ + unit@));
            s2
        } else {
            s
        };
        self.insert(s.as_slice());
    }

    /// The characters from `start` to the cursor, right-trimmed.
    fn line_so_far(&self, start: usize) -> (r: Vec<char>)
        requires
            start <= self.cursor <= self.buffer@.len(),
        ensures
            r@ == trim_end(self.buffer@.subrange(start as int, self.cursor as int)),
    {
        let hi = trim_end_bound(self.buffer.as_slice(), start, self.cursor);
        sub_vec(self.buffer.as_slice(), start, hi)
    }

    /// Handle Backspace, deleting a whole indent level inside leading indent.
    fn backspace(&mut self)
        requires
            old(self).wf(),
        ensures
            final(self).wf(),
            final(self).view() == backspace_spec(old(self).view(), old(self).behaviors),
            final(self).behaviors == old(self).behaviors,
    {
        if self.cursor == 0 {
            return;
        }
        let start = self.line_start(self.cursor);
        proof {
            lemma_line_start(self.buffer@, self.cursor as int);
        }
        let del = self.dedent_delete(start);
        let from = self.cursor - del;
        let none: Vec<char> = Vec::new();
        let nb = replace_range(&self.buffer, from, self.cursor, none.as_slice());
        assert(self.buffer@.take(from as int) + none@ + self.buffer@.skip(self.cursor as int) == self.buffer@.take(from as int) + self.buffer@.skip(self.cursor as int));
        self.buffer = nb;
        self.cursor = from;
    }

    /// How many characters Backspace removes: a whole indent level when inside
    /// pure leading indentation, otherwise one.
    fn dedent_delete(&self, start: usize) -> (r: usize)
        requires
            start <= self.cursor <= self.buffer@.len(),
            0 < self.cursor,
        ensures
            r == dedent_delete_spec(self.buffer@.subrange(start as int, self.cursor as int), self.behaviors),
            1 <= r <= self.cursor,
    {
        let ghost before = self.buffer@.subrange(start as int, self.cursor as int);
        let mut i = start;
        while i < self.cursor && self.buffer[i] == ' '
            invariant
                start <= i <= self.cursor <= self.buffer@.len(),
                forall|j: int| start <= j < i ==> self.buffer@[j] == ' ',
            decreases self.cursor - i,
        {
            i = i + 1;
        }
        let spaces = i == self.cursor && start < self.cursor;
        proof {
            if i == self.cursor {
                assert forall|j: int| 0 <= j < before.len() implies before[j] == ' ' by {
                    assert(before[j] == self.buffer@[j + start]);
                }
            } else {
                assert(before[i - start] == self.buffer@[i as int]);
            }
        }
        if !(self.behaviors.auto_indent && spaces) {
            return 1;
        }
        let ulen = chars_of(self.behaviors.indent_unit).len();
        let unit = if ulen > 1 {
            ulen
        } else {
            1
        };
        let len = self.cursor - start;
        let lm = len - 1;
        let q = lm / unit;
        assert(q * unit <= lm) by (nonlinear_arith)
            requires
                q == lm / unit,
                unit >= 1,
        ;
        len - q * unit
    }

    /// Move up one line, keeping the column where possible.
    fn up(&mut self)
        requires
            old(self).wf(),
        ensures
            final(self).wf(),
            final(self).view() == up_spec(old(self).view()),
            final(self).behaviors == old(self).behaviors,
    {
        let start = self.line_start(self.cursor);
        proof {
            lemma_line_start(self.buffer@, self.cursor as int);
        }
        if start == 0 {
            return;
        }
        let col = self.cursor - start;
        let prev_end = start - 1;
        let prev_start = self.line_start(prev_end);
        proof {
            lemma_line_start(self.buffer@, prev_end as int);
        }
        if prev_start + col < prev_end {
            self.cursor = prev_start + col;
        } else {
            self.cursor = prev_end;
        }
    }

    /// Move down one line, keeping the column where possible.
    fn down(&mut self)
        requires
            old(self).wf(),
        ensures
            final(self).wf(),
            final(self).view() == down_spec(old(self).view()),
            final(self).behaviors == old(self).behaviors,
    {
        let ls = self.line_start(self.cursor);
        proof {
            lemma_line_start(self.buffer@, self.cursor as int);
            lemma_line_end(self.buffer@, self.cursor as int);
        }
        let col = self.cursor - ls;
        let le = self.line_end(self.cursor);
        if le < self.buffer.len() {
            let next_start = le + 1;
            let e = self.line_end(next_start);
            proof {
                lemma_line_end(self.buffer@, next_start as int);
            }
            if col < e - next_start {
                self.cursor = next_start + col;
            } else {
                self.cursor = e;
            }
        }
    }

    /// Dispatch one special key.
    pub fn apply_key(&mut self, key: KeyName)
        requires
            old(self).wf(),
        ensures
            final(self).wf(),
            final(self).view() == key_spec(old(self).view(), old(self).behaviors, key),
            final(self).behaviors == old(self).behaviors,
    {
        match key {
            KeyName::Enter => self.enter(),
            KeyName::BackSpace => self.backspace(),
            KeyName::Left => {
                if self.cursor > 0 {
                    self.cursor = self.cursor - 1;
                }
            },
            KeyName::Right => {
                if self.cursor < self.buffer.len() {
                    self.cursor = self.cursor + 1;
                }
            },
            KeyName::Home => {
                proof {
                    lemma_line_start(self.buffer@, self.cursor as int);
                }
                self.cursor = self.line_start(self.cursor);
            },
            KeyName::End => {
                proof {
                    lemma_line_end(self.buffer@, self.cursor as int);
                }
                self.cursor = self.line_end(self.cursor);
            },
            KeyName::Up => self.up(),
            KeyName::Down => self.down(),
            KeyName::Tab => {
                let unit = chars_of(self.behaviors.indent_unit);
                self.insert(unit.as_slice());
            },
        }
    }
}

/// Inserting `a` and then `b` at the cursor inserts `a + b`.
proof fn lemma_insert_insert(st: SimV, a: Seq<char>, b: Seq<char>)
    requires
        sim_ok(st),
    ensures
        insert_spec(insert_spec(st, a), b) == insert_spec(st, a + b),
{
    let s1 = insert_spec(st, a);
    assert(s1.buffer.take(s1.cursor) =~= st.buffer.take(st.cursor) + a);
    assert(s1.buffer.skip(s1.cursor) =~= st.buffer.skip(st.cursor));
    assert(insert_spec(s1, b).buffer =~= insert_spec(st, a + b).buffer);
}

/// A dumb editor types exactly what it is given: typing `s` under the
/// plain profile inserts `s` at the cursor and moves past it.
pub proof fn law_plain_types_verbatim(st: SimV, s: Seq<char>)
    requires
        sim_ok(st),
    ensures
        text_spec(st, super::plain_spec(), s) == insert_spec(st, s),
    decreases s.len(),
{
    if s.len() == 0 {
        assert(st.buffer.take(st.cursor) + s + st.buffer.skip(st.cursor) =~= st.buffer);
    } else {
        law_plain_types_verbatim(st, s.drop_last());
        lemma_insert_insert(st, s.drop_last(), seq![s.last()]);
        assert(s.drop_last() + seq![s.last()] =~= s);
    }
}

/// Under auto-close and type-over, typing a bracket and then its closer
/// leaves exactly the pair, as a dumb editor would: the auto-supplied
/// closer is typed over rather than doubled.
pub proof fn law_closer_types_over(st: SimV, b: Behaviors, open: char)
    requires
        sim_ok(st),
        b.auto_close,
        b.type_over,
        spec_auto_close_of(open) is Some,
    ensures
        text_spec(st, b, seq![open, spec_auto_close_of(open)->0]) == insert_spec(st, seq![open, spec_auto_close_of(open)->0]),
{
    let close = spec_auto_close_of(open)->0;
    let s = seq![open, close];
    assert(s.drop_last() =~= seq![open]);
    assert(seq![open].drop_last() =~= Seq::<char>::empty());
    let p = pair_spec(st, open, close);
    assert(seq![open].last() == open);
    assert(text_spec(st, b, Seq::<char>::empty()) == st);
    assert(type_char_spec(st, b, open) == p);
    assert(text_spec(st, b, seq![open]) == type_char_spec(text_spec(st, b, seq![open].drop_last()), b, open));
    assert(text_spec(st, b, seq![open]) == p);
    assert(p.buffer[p.cursor] == close);
    assert(s.last() == close);
    assert(text_spec(st, b, s) == type_char_spec(text_spec(st, b, s.drop_last()), b, close));
    assert(text_spec(st, b, s) == type_char_spec(p, b, close));
    assert(insert_spec(st, s).buffer =~= p.buffer);
}

/// Without auto-indent, Backspace removes exactly the one character just
/// typed in a dumb editor, restoring the state before it.
pub proof fn law_backspace_undoes_typing(st: SimV, ch: char)
    requires
        sim_ok(st),
    ensures
        backspace_spec(type_char_spec(st, super::plain_spec(), ch), super::plain_spec()) == st,
{
    let t = insert_spec(st, seq![ch]);
    assert(type_char_spec(st, super::plain_spec(), ch) == t);
    assert(t.buffer.take(st.cursor) + t.buffer.skip(t.cursor) =~= st.buffer);
}

/// Right after Left returns the cursor to where it was, when there was
/// room to move left.
pub proof fn law_right_undoes_left(st: SimV, b: Behaviors)
    requires
        sim_ok(st),
        st.cursor > 0,
    ensures
        key_spec(key_spec(st, b, KeyName::Left), b, KeyName::Right) == st,
{
}

} // verus!
