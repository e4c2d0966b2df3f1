//! Template-string parser: one fence body -> `Vec<Chunk>`.
use vstd::prelude::*;
use super::{Chunk, ChunkV, chunk_view, cv, lemma_cv};
use super::expr::{parse_expr, spec_parse_expr};
use crate::error::StenoError;
use crate::stroke::keys::first_where;
use crate::text::{all_digits, char_string, chars_of, concat3, decimal, digit_val, digits_value, digits_value_upto, is_digit, push_decimal, push_str, string_of_range};

verus! {

broadcast use vstd::seq_lib::group_seq_properties;

/// What ended a `parse_chunks` scan.
#[derive(Debug, Clone, Copy, PartialEq, Eq, Structural)]
pub enum Stop {
    /// A top-level `|` (separator/body divider inside a repeat).
    Pipe,
    /// A `%]` repeat closer.
    Close,
    /// End of input.
    End,
}

/// One scanned template item: a literal character or a finished chunk.
pub enum Item {
    Ch(char),
    Node(ChunkV),
}

/// Append a literal character, extending a trailing literal chunk.
pub open spec fn add_char(acc: Seq<ChunkV>, c: char) -> Seq<ChunkV> {
    if acc.len() > 0 && acc.last() is Lit {
        acc.update(acc.len() - 1, ChunkV::Lit(acc.last()->Lit_0.push(c)))
    } else {
        acc.push(ChunkV::Lit(seq![c]))
    }
}

/// Append one scanned item.
pub open spec fn add_item(acc: Seq<ChunkV>, it: Item) -> Seq<ChunkV> {
    match it {
        Item::Ch(c) => add_char(acc, c),
        Item::Node(n) => acc.push(n),
    }
}

/// The 1-based column reported for position `i` (saturating).
pub open spec fn col_of(i: int) -> int {
    if i < usize::MAX {
        i + 1
    } else {
        i
    }
}

/// `msg` located at position `i` of the template.
pub open spec fn at_col(msg: Seq<char>, i: int) -> Seq<char> {
    msg + " (col "@ + decimal(col_of(i) as nat) + ")"@
}

/// Scan chunks of `s` from `i` until end of input or a requested stop token
/// (`|` when `pipe`, `%]` when `close`; reaching the end while `close` is an
/// error). Returns the chunks, the index after the stop, and the stop kind;
/// an error carries its message.
pub open spec fn sp_chunks(s: Seq<char>, i: int, pipe: bool, close: bool, acc: Seq<ChunkV>) -> Result<
    (Seq<ChunkV>, int, Stop),
    Seq<char>,
>
    decreases s.len() - i, 1int,
{
    if i < 0 || i >= s.len() {
        if close {
            Err(at_col("unterminated %[ ... %]"@, i))
        } else {
            Ok((acc, i, Stop::End))
        }
    } else if close && s[i] == '%' && i + 1 < s.len() && s[i + 1] == ']' {
        Ok((acc, i + 2, Stop::Close))
    } else if pipe && s[i] == '|' {
        Ok((acc, i + 1, Stop::Pipe))
    } else {
        match sp_item(s, i) {
            Ok((it, j)) => if j <= i || j > s.len() {
                Err(Seq::empty())
            } else {
                sp_chunks(s, j, pipe, close, add_item(acc, it))
            },
            Err(m) => Err(m),
        }
    }
}

/// Scan one item (escape, brace, operator, or literal character) at `i`.
pub open spec fn sp_item(s: Seq<char>, i: int) -> Result<(Item, int), Seq<char>>
    decreases s.len() - i, 0int,
{
    if i < 0 || i >= s.len() {
        Err(Seq::empty())
    } else {
        let c = s[i];
        if c == '\\' {
            if i + 1 >= s.len() {
                Err(at_col("trailing backslash"@, i))
            } else {
                let n = s[i + 1];
                if n == 'n' {
                    Ok((Item::Node(ChunkV::Newline), i + 2))
                } else if n == 't' {
                    Ok((Item::Node(ChunkV::Tab), i + 2))
                } else if n == '{' || n == '}' || n == '%' || n == '|' || n == '\\' || n == '`' {
                    Ok((Item::Ch(n), i + 2))
                } else {
                    Err(at_col("unknown escape \\"@ + seq![n], i))
                }
            }
        } else if c == '{' {
            Ok((Item::Node(ChunkV::Brace(true)), i + 1))
        } else if c == '}' {
            Ok((Item::Node(ChunkV::Brace(false)), i + 1))
        } else if c == '%' {
            if i + 1 >= s.len() {
                Err(at_col("trailing '%'"@, i))
            } else {
                let n = s[i + 1];
                if is_digit(n) {
                    Ok((Item::Node(ChunkV::Landing(digit_val(n) as u32)), i + 2))
                } else if n == 'd' {
                    Ok((Item::Node(ChunkV::Dcount), i + 2))
                } else if n == 't' {
                    Ok((Item::Node(ChunkV::TypeSlot), i + 2))
                } else if n == 'T' {
                    Ok((Item::Node(ChunkV::FusedTypeSlot), i + 2))
                } else if n == 'b' {
                    Ok((Item::Node(ChunkV::BodyBreak), i + 2))
                } else if n == 'p' {
                    Ok((Item::Node(ChunkV::Pattern), i + 2))
                } else if n == '[' {
                    match sp_repeat(s, i + 2) {
                        Ok((ch, j)) => Ok((Item::Node(ch), j)),
                        Err(m) => Err(m),
                    }
                } else if n == '(' {
                    match sp_computed(s, i + 2) {
                        Ok((ch, j)) => Ok((Item::Node(ch), j)),
                        Err(m) => Err(m),
                    }
                } else if n == '<' {
                    match sp_end_landing(s, i + 2) {
                        Ok((ch, j)) => Ok((Item::Node(ch), j)),
                        Err(m) => Err(m),
                    }
                } else {
                    Err(at_col("unknown operator %"@ + seq![n], i))
                }
            }
        } else {
            Ok((Item::Ch(c), i + 1))
        }
    }
}

/// Scan a repeat body after its `%[`: a first segment up to `|` or `%]`; a
/// `|` makes it the separator and a second segment (up to `%]`) the body.
pub open spec fn sp_repeat(s: Seq<char>, i: int) -> Result<(ChunkV, int), Seq<char>>
    decreases s.len() - i + 1, 2int,
{
    if i < 0 || i > s.len() {
        Err(Seq::empty())
    } else {
    match sp_chunks(s, i, true, true, Seq::empty()) {
        Ok((first, k, stop)) => if stop == Stop::Pipe {
            if k < i || k > s.len() {
                Err(Seq::empty())
            } else {
                match sp_chunks(s, k, false, true, Seq::empty()) {
                    Ok((body, k2, _)) => Ok((ChunkV::Repeat(first, body), k2)),
                    Err(m) => Err(m),
                }
            }
        } else {
            Ok((ChunkV::Repeat(Seq::empty(), first), k))
        },
        Err(m) => Err(m),
    }
    }
}

/// Scan a computed landing after its `%(`: the text up to `)` must parse as
/// a linear expression.
pub open spec fn sp_computed(s: Seq<char>, i: int) -> Result<(ChunkV, int), Seq<char>> {
    if i < 0 || i > s.len() {
        Err(Seq::empty())
    } else {
        let p = i + first_where(s.skip(i), |c: char| c == ')');
        if p >= s.len() {
            Err(at_col("unterminated %( ... )"@, p))
        } else {
            match spec_parse_expr(s.subrange(i, p)) {
                Some(e) => Ok((ChunkV::Computed(e), p + 1)),
                None => Err(at_col("bad computed expression \""@ + s.subrange(i, p) + "\""@, p + 1)),
            }
        }
    }
}

/// Scan an end landing after its `%<`: one or more digits then `>`.
pub open spec fn sp_end_landing(s: Seq<char>, i: int) -> Result<(ChunkV, int), Seq<char>> {
    if i < 0 || i > s.len() {
        Err(Seq::empty())
    } else {
        let p = i + first_where(s.skip(i), |c: char| c == '>' || !is_digit(c));
        if p >= s.len() {
            Err(at_col("unterminated %< ... >"@, p))
        } else if s[p] != '>' {
            Err(at_col("bad end landing \"%<"@ + s.subrange(i, p + 1) + "\""@, p))
        } else if p == i {
            Err(at_col("empty end landing \"%<>\""@, p))
        } else if digits_value(s.subrange(i, p)) > u32::MAX {
            Err(at_col("bad end landing \"%<"@ + s.subrange(i, p) + ">\""@, p + 1))
        } else {
            Ok((ChunkV::EndLanding(digits_value(s.subrange(i, p)) as u32), p + 1))
        }
    }
}

/// The chunks a template denotes, or `None` when it is malformed.
pub open spec fn spec_parse_template(s: Seq<char>) -> Option<Seq<ChunkV>> {
    match sp_chunks(s, 0, false, false, Seq::empty()) {
        Ok((cs, _, _)) => Some(cs),
        Err(_) => None,
    }
}

/// Why a template is malformed: the message of the first error the scan
/// meets, located by column.
pub open spec fn template_error(s: Seq<char>) -> Seq<char> {
    match sp_chunks(s, 0, false, false, Seq::empty()) {
        Ok(_) => Seq::empty(),
        Err(m) => m,
    }
}

/// Chunk accumulator: pending literal text plus completed chunks.
struct ChunkAcc {
    /// Completed chunks in order.
    chunks: Vec<Chunk>,
    /// Literal text not yet flushed into a `Chunk::Lit`.
    lit: String,
}

impl ChunkAcc {
    /// The chunks accumulated so far, with the pending literal last.
    spec fn view_acc(&self) -> Seq<ChunkV> {
        cv(&self.chunks) + (if self.lit@.len() > 0 {
            seq![ChunkV::Lit(self.lit@)]
        } else {
            Seq::<ChunkV>::empty()
        })
    }

    /// No literal chunk has been flushed at the end of `chunks`.
    spec fn open_tail(&self) -> bool {
        self.chunks@.len() > 0 ==> !(self.chunks@.last()@ is Lit)
    }

    fn new() -> (r: Self)
        ensures
            r.view_acc() == Seq::<ChunkV>::empty(),
            r.open_tail(),
    {
        let r = ChunkAcc { chunks: Vec::new(), lit: String::new() };
        proof {
            lemma_cv(&r.chunks);
        }
        assert(r.view_acc() =~= Seq::<ChunkV>::empty());
        r
    }

    /// Flush pending literal text into a `Chunk::Lit`, if any.
    fn flush(&mut self)
        ensures
            final(self).view_acc() == old(self).view_acc(),
            cv(&final(self).chunks) == old(self).view_acc(),
            final(self).lit@.len() == 0,
    {
        if !self.lit.as_str().is_empty() {
            let ghost before = self.view_acc();
            let ghost oldc = self.chunks@;
            let ghost l = self.lit@;
            let mut lit = String::new();
            std::mem::swap(&mut lit, &mut self.lit);
            self.chunks.push(Chunk::Lit(lit));
            proof {
                assert(self.chunks@.drop_last() == oldc);
                assert(chunk_view(self.chunks@.last()) == ChunkV::Lit(l));
                assert(cv(&self.chunks) =~= before);
            }
        } else {
            proof {
                assert(self.view_acc() =~= cv(&self.chunks));
            }
        }
    }

    /// Flush pending text, then append a completed (non-literal) chunk.
    fn push(&mut self, chunk: Chunk)
        requires
            !(chunk@ is Lit),
        ensures
            final(self).view_acc() == old(self).view_acc().push(chunk@),
            final(self).open_tail(),
    {
        self.flush();
        let ghost before = cv(&self.chunks);
        let ghost oldv = self.chunks@;
        let ghost c = chunk@;
        self.chunks.push(chunk);
        proof {
            assert(self.chunks@.drop_last() == oldv);
            assert(cv(&self.chunks) == before.push(c));
            assert(self.view_acc() =~= cv(&self.chunks));
        }
    }

    /// Append one literal character to the pending text.
    fn push_char(&mut self, c: char)
        requires
            old(self).open_tail(),
        ensures
            final(self).view_acc() == add_char(old(self).view_acc(), c),
            final(self).open_tail(),
    {
        let ghost before = self.view_acc();
        let ghost l0 = self.lit@;
        self.lit.push(c);
        proof {
            lemma_cv(&self.chunks);
            if l0.len() > 0 {
                assert(self.view_acc() =~= before.update(before.len() - 1, ChunkV::Lit(l0.push(c))));
            } else {
                assert(before =~= cv(&self.chunks));
                assert(self.view_acc() =~= before.push(ChunkV::Lit(seq![c])));
            }
        }
    }
}

/// Cursor over the template's characters.
struct TemplateParser {
    /// Template body as characters.
    chars: Vec<char>,
    /// Current position.
    i: usize,
    /// 1-based source line for error messages.
    line: usize,
}

/// The outcome of `sp_chunks` as the exec parser reports it.
spec fn chunks_match(r: Result<(Vec<Chunk>, Stop), StenoError>, sp: Result<(Seq<ChunkV>, int, Stop), Seq<char>>, final_i: int, line: usize) -> bool {
    match sp {
        Ok((cs, j, st)) => r matches Ok((v, st2)) && cv(&v) == cs && st2 == st && final_i == j,
        Err(m) => r matches Err(e) && e.spec_line() == line && e.spec_message() == m,
    }
}

/// The outcome of a one-chunk scanner as the exec parser reports it.
spec fn chunk_match(r: Result<Chunk, StenoError>, sp: Result<(ChunkV, int), Seq<char>>, final_i: int, line: usize) -> bool {
    match sp {
        Ok((c, j)) => r matches Ok(ch) && ch@ == c && final_i == j,
        Err(m) => r matches Err(e) && e.spec_line() == line && e.spec_message() == m,
    }
}

impl TemplateParser {
    /// Look `o` characters ahead of the cursor.
    fn peek(&self, o: usize) -> (r: Option<char>)
        ensures
            r == (if self.i + o < self.chars@.len() {
                Some(self.chars@[self.i + o])
            } else {
                None
            }),
    {
        if self.i < self.chars.len() && o < self.chars.len() - self.i {
            Some(self.chars[self.i + o])
        } else {
            None
        }
    }

    /// Build an error at the current column.
    fn fail(&self, msg: &str) -> (e: StenoError)
        ensures
            e.spec_line() == self.line,
            e.spec_message() == at_col(msg@, self.i as int),
    {
        let mut m = crate::text::copy_str(msg);
        push_str(&mut m, " (col ");
        if self.i < usize::MAX {
            push_decimal(&mut m, (self.i + 1) as u64);
        } else {
            push_decimal(&mut m, self.i as u64);
        }
        push_str(&mut m, ")");
        StenoError::new(m, self.line)
    }

    /// Scan chunks until end of input or a requested stop token.
    fn parse_chunks(&mut self, stop_on_pipe: bool, stop_on_close: bool) -> (r: Result<(Vec<Chunk>, Stop), StenoError>)
        requires
            old(self).i <= old(self).chars@.len(),
        ensures
            final(self).chars@ == old(self).chars@,
            final(self).line == old(self).line,
            final(self).i <= final(self).chars@.len(),
            chunks_match(r, sp_chunks(old(self).chars@, old(self).i as int, stop_on_pipe, stop_on_close, Seq::empty()), final(self).i as int, old(self).line),
        decreases old(self).chars@.len() - old(self).i, 3int,
    {
        let ghost s = self.chars@;
        let ghost i0 = self.i as int;
        let mut acc = ChunkAcc::new();
        while self.i < self.chars.len()
            invariant
                self.chars@ == s,
                s == old(self).chars@,
                self.line == old(self).line,
                i0 <= self.i <= s.len(),
                i0 == old(self).i,
                acc.open_tail(),
                sp_chunks(s, i0, stop_on_pipe, stop_on_close, Seq::empty()) == sp_chunks(s, self.i as int, stop_on_pipe, stop_on_close, acc.view_acc()),
            decreases s.len() - self.i,
        {
            let c = self.chars[self.i];
            if let Some(stop) = self.take_stop(stop_on_pipe, stop_on_close, &mut acc) {
                return Ok((acc.chunks, stop));
            }
            let ghost before = acc.view_acc();
            let ghost ib = self.i as int;
            match self.take_char(c, &mut acc) {
                Ok(()) => {},
                Err(e) => {
                    return Err(e);
                },
            }
            assert(self.i > ib);
        }
        acc.flush();
        if stop_on_close {
            return Err(self.fail("unterminated %[ ... %]"));
        }
        Ok((acc.chunks, Stop::End))
    }

    /// Consume a stop token (`|` or `%]`) at the cursor if one is requested
    /// and present.
    fn take_stop(&mut self, stop_on_pipe: bool, stop_on_close: bool, acc: &mut ChunkAcc) -> (r: Option<Stop>)
        requires
            old(self).i < old(self).chars@.len(),
        ensures
            final(self).chars@ == old(self).chars@,
            final(self).line == old(self).line,
            ({
                let s = old(self).chars@;
                let i = old(self).i as int;
                match r {
                    Some(st) => {
                        &&& sp_chunks(s, i, stop_on_pipe, stop_on_close, old(acc).view_acc()) == Ok::<(Seq<ChunkV>, int, Stop), Seq<char>>((old(acc).view_acc(), final(self).i as int, st))
                        &&& cv(&final(acc).chunks) == old(acc).view_acc()
                        &&& final(self).i <= s.len()
                    },
                    None => {
                        &&& final(self).i == old(self).i
                        &&& *final(acc) == *old(acc)
                        &&& !(stop_on_close && s[i] == '%' && i + 1 < s.len() && s[i + 1] == ']')
                        &&& !(stop_on_pipe && s[i] == '|')
                    },
                }
            }),
    {
        let _n = self.chars.len();
        let c = self.chars[self.i];
        if stop_on_close && c == '%' && self.peek(1) == Some(']') {
            acc.flush();
            self.i = self.i + 2;
            return Some(Stop::Close);
        }
        if stop_on_pipe && c == '|' {
            acc.flush();
            self.i = self.i + 1;
            return Some(Stop::Pipe);
        }
        None
    }

    /// Consume one ordinary (non-stop) character at the cursor.
    fn take_char(&mut self, c: char, acc: &mut ChunkAcc) -> (r: Result<(), StenoError>)
        requires
            old(self).i < old(self).chars@.len(),
            c == old(self).chars@[old(self).i as int],
            old(acc).open_tail(),
        ensures
            final(self).chars@ == old(self).chars@,
            final(self).line == old(self).line,
            final(self).i <= final(self).chars@.len(),
            match sp_item(old(self).chars@, old(self).i as int) {
                Ok((it, j)) => r is Ok && final(self).i == j && j > old(self).i && final(acc).view_acc() == add_item(old(acc).view_acc(), it) && final(acc).open_tail(),
                Err(m) => r matches Err(e) && e.spec_line() == old(self).line && e.spec_message() == m,
            },
        decreases old(self).chars@.len() - old(self).i, 2int,
    {
        let _n = self.chars.len();
        if c == '\\' {
            self.take_escape(acc)
        } else if c == '{' {
            acc.push(Chunk::Brace { open: true });
            self.i = self.i + 1;
            Ok(())
        } else if c == '}' {
            acc.push(Chunk::Brace { open: false });
            self.i = self.i + 1;
            Ok(())
        } else if c == '%' {
            self.take_operator(acc)
        } else {
            acc.push_char(c);
            self.i = self.i + 1;
            Ok(())
        }
    }

    /// Consume a backslash escape: `\n`/`\t` become chunks, the rest become
    /// literal characters.
    fn take_escape(&mut self, acc: &mut ChunkAcc) -> (r: Result<(), StenoError>)
        requires
            old(self).i < old(self).chars@.len(),
            old(self).chars@[old(self).i as int] == '\\',
            old(acc).open_tail(),
        ensures
            final(self).chars@ == old(self).chars@,
            final(self).line == old(self).line,
            final(self).i <= final(self).chars@.len(),
            match sp_item(old(self).chars@, old(self).i as int) {
                Ok((it, j)) => r is Ok && final(self).i == j && final(acc).view_acc() == add_item(old(acc).view_acc(), it) && final(acc).open_tail(),
                Err(m) => r matches Err(e) && e.spec_line() == old(self).line && e.spec_message() == m,
            },
    {
        let _n = self.chars.len();
        let n = match self.peek(1) {
            Some(n) => n,
            None => return Err(self.fail("trailing backslash")),
        };
        if n == 'n' {
            acc.push(Chunk::Newline);
        } else if n == 't' {
            acc.push(Chunk::Tab);
        } else if n == '{' || n == '}' || n == '%' || n == '|' || n == '\\' || n == '`' {
            acc.push_char(n);
        } else {
            let m = concat3("unknown escape \\", char_string(n).as_str(), "");
            proof {
                reveal_strlit("");
                assert(m@ =~= "unknown escape \\"@ + seq![n]);
            }
            return Err(self.fail(m.as_str()));
        }
        self.i = self.i + 2;
        Ok(())
    }

    /// Consume a `%` operator: landing digit, simple slot, repeat, computed
    /// expression, or end landing.
    fn take_operator(&mut self, acc: &mut ChunkAcc) -> (r: Result<(), StenoError>)
        requires
            old(self).i < old(self).chars@.len(),
            old(self).chars@[old(self).i as int] == '%',
            old(acc).open_tail(),
        ensures
            final(self).chars@ == old(self).chars@,
            final(self).line == old(self).line,
            final(self).i <= final(self).chars@.len(),
            match sp_item(old(self).chars@, old(self).i as int) {
                Ok((it, j)) => r is Ok && final(self).i == j && j > old(self).i && final(acc).view_acc() == add_item(old(acc).view_acc(), it) && final(acc).open_tail(),
                Err(m) => r matches Err(e) && e.spec_line() == old(self).line && e.spec_message() == m,
            },
        decreases old(self).chars@.len() - old(self).i, 1int,
    {
        let _n = self.chars.len();
        let n = match self.peek(1) {
            Some(n) => n,
            None => return Err(self.fail("trailing '%'")),
        };
        let simple = if '0' <= n && n <= '9' {
            Some(Chunk::Landing((n as u32) - ('0' as u32)))
        } else if n == 'd' {
            Some(Chunk::Dcount)
        } else if n == 't' {
            Some(Chunk::TypeSlot)
        } else if n == 'T' {
            Some(Chunk::FusedTypeSlot)
        } else if n == 'b' {
            Some(Chunk::BodyBreak)
        } else if n == 'p' {
            Some(Chunk::Pattern)
        } else {
            None
        };
        if let Some(chunk) = simple {
            acc.push(chunk);
            self.i = self.i + 2;
            return Ok(());
        }
        self.take_block_operator(n, acc)
    }

    /// Consume a `%[` repeat, `%(` computed, or `%<` end-landing opener;
    /// anything else is an unknown operator.
    fn take_block_operator(&mut self, n: char, acc: &mut ChunkAcc) -> (r: Result<(), StenoError>)
        requires
            old(self).i + 1 < old(self).chars@.len(),
            old(self).chars@[old(self).i as int] == '%',
            old(self).chars@[old(self).i + 1] == n,
            !is_digit(n),
            n != 'd' && n != 't' && n != 'T' && n != 'b' && n != 'p',
            old(acc).open_tail(),
        ensures
            final(self).chars@ == old(self).chars@,
            final(self).line == old(self).line,
            final(self).i <= final(self).chars@.len(),
            match sp_item(old(self).chars@, old(self).i as int) {
                Ok((it, j)) => r is Ok && final(self).i == j && j > old(self).i && final(acc).view_acc() == add_item(old(acc).view_acc(), it) && final(acc).open_tail(),
                Err(m) => r matches Err(e) && e.spec_line() == old(self).line && e.spec_message() == m,
            },
        decreases old(self).chars@.len() - old(self).i, 0int,
    {
        let _n = self.chars.len();
        let res = if n == '[' {
            self.i = self.i + 2;
            self.parse_repeat()
        } else if n == '(' {
            self.i = self.i + 2;
            self.parse_computed()
        } else if n == '<' {
            self.i = self.i + 2;
            self.parse_end_landing()
        } else {
            let m = concat3("unknown operator %", char_string(n).as_str(), "");
            proof {
                reveal_strlit("");
                assert(m@ =~= "unknown operator %"@ + seq![n]);
            }
            return Err(self.fail(m.as_str()));
        };
        match res {
            Ok(chunk) => {
                acc.push(chunk);
                Ok(())
            },
            Err(e) => Err(e),
        }
    }

    /// Parse a repeat after its `%[` is consumed. The first segment stops on
    /// a top-level `|` or `%]`; without a `|` the single segment is the body.
    fn parse_repeat(&mut self) -> (r: Result<Chunk, StenoError>)
        requires
            old(self).i <= old(self).chars@.len(),
        ensures
            final(self).chars@ == old(self).chars@,
            final(self).line == old(self).line,
            final(self).i <= final(self).chars@.len(),
            chunk_match(r, sp_repeat(old(self).chars@, old(self).i as int), final(self).i as int, old(self).line),
            r matches Ok(c) ==> c@ is Repeat && final(self).i >= old(self).i,
        decreases old(self).chars@.len() - old(self).i + 1, 4int,
    {
        let ghost i0 = self.i as int;
        let (first, stop) = match self.parse_chunks(true, true) {
            Ok(p) => p,
            Err(e) => return Err(e),
        };
        if stop == Stop::Pipe {
            let ghost k = self.i as int;
            proof {
                lemma_sp_chunks_advances(self.chars@, i0, true, true, Seq::empty());
            }
            let (body, _) = match self.parse_chunks(false, true) {
                Ok(p) => p,
                Err(e) => return Err(e),
            };
            proof {
                lemma_sp_chunks_advances(self.chars@, k, false, true, Seq::empty());
            }
            return Ok(Chunk::Repeat { sep: first, body });
        }
        proof {
            lemma_sp_chunks_advances(self.chars@, i0, true, true, Seq::empty());
        }
        Ok(Chunk::Repeat { sep: Vec::new(), body: first })
    }

    /// Parse a computed landing after its `%(` is consumed.
    fn parse_computed(&mut self) -> (r: Result<Chunk, StenoError>)
        requires
            old(self).i <= old(self).chars@.len(),
        ensures
            final(self).chars@ == old(self).chars@,
            final(self).line == old(self).line,
            final(self).i <= final(self).chars@.len(),
            chunk_match(r, sp_computed(old(self).chars@, old(self).i as int), final(self).i as int, old(self).line),
            r matches Ok(c) ==> c@ is Computed && final(self).i > old(self).i,
    {
        let ghost s = self.chars@;
        let start = self.i;
        while self.i < self.chars.len() && self.chars[self.i] != ')'
            invariant
                self.chars@ == s,
                self.line == old(self).line,
                start <= self.i <= s.len(),
                forall|j: int| start <= j < self.i ==> s[j] != ')',
            decreases s.len() - self.i,
        {
            self.i = self.i + 1;
        }
        proof {
            let t = s.skip(start as int);
            assert forall|j: int| 0 <= j < self.i - start implies !(#[trigger] t[j] == ')') by {
                assert(t[j] == s[j + start]);
            }
            if self.i < s.len() {
                assert(t[self.i - start] == s[self.i as int]);
            }
            crate::stroke::keys::lemma_first_where_unique(t, |c: char| c == ')', self.i - start);
        }
        if self.i >= self.chars.len() {
            return Err(self.fail("unterminated %( ... )"));
        }
        let end = self.i;
        let expr = string_of_range(&self.chars, start, end);
        self.i = self.i + 1;
        match parse_expr(expr.as_str()) {
            Some(e) => Ok(Chunk::Computed(e)),
            None => {
                let m = concat3("bad computed expression \"", expr.as_str(), "\"");
                Err(self.fail(m.as_str()))
            },
        }
    }

    /// Parse an end landing `%<N>` after its `%<` is consumed.
    #[verifier::spinoff_prover]
    #[verifier::rlimit(30)]
    fn parse_end_landing(&mut self) -> (r: Result<Chunk, StenoError>)
        requires
            old(self).i <= old(self).chars@.len(),
        ensures
            final(self).chars@ == old(self).chars@,
            final(self).line == old(self).line,
            final(self).i <= final(self).chars@.len(),
            chunk_match(r, sp_end_landing(old(self).chars@, old(self).i as int), final(self).i as int, old(self).line),
            r matches Ok(c) ==> c@ is EndLanding && final(self).i > old(self).i,
    {
        let ghost s = self.chars@;
        let start = self.i;
        while self.i < self.chars.len() && self.chars[self.i] != '>' && '0' <= self.chars[self.i] && self.chars[self.i] <= '9'
            invariant
                self.chars@ == s,
                self.line == old(self).line,
                start <= self.i <= s.len(),
                forall|j: int| start <= j < self.i ==> s[j] != '>' && is_digit(#[trigger] s[j]),
            decreases s.len() - self.i,
        {
            self.i = self.i + 1;
        }
        proof {
            let t = s.skip(start as int);
            assert forall|j: int| 0 <= j < self.i - start implies !(#[trigger] t[j] == '>' || !is_digit(t[j])) by {
                assert(t[j] == s[j + start]);
            }
            if self.i < s.len() {
                assert(t[self.i - start] == s[self.i as int]);
            }
            crate::stroke::keys::lemma_first_where_unique(t, |c: char| c == '>' || !is_digit(c), self.i - start);
        }
        if self.i >= self.chars.len() {
            return Err(self.fail("unterminated %< ... >"));
        }
        if self.chars[self.i] != '>' {
            let mut m = crate::text::copy_str("bad end landing \"%<");
            crate::text::push_chars(&mut m, &self.chars, start, self.i + 1);
            push_str(&mut m, "\"");
            return Err(self.fail(m.as_str()));
        }
        if self.i == start {
            return Err(self.fail("empty end landing \"%<>\""));
        }
        let end = self.i;
        proof {
            assert forall|j: int| 0 <= j < end - start implies is_digit(#[trigger] s.subrange(start as int, end as int)[j]) by {
                assert(s.subrange(start as int, end as int)[j] == s[j + start]);
            }
        }
        self.i = self.i + 1;
        match digits_value_upto(&self.chars, start, end, 0xffff_ffff) {
            Some(v) => Ok(Chunk::EndLanding(v as u32)),
            None => {
                let mut m = crate::text::copy_str("bad end landing \"%<");
                crate::text::push_chars(&mut m, &self.chars, start, end);
                push_str(&mut m, ">\"");
                Err(self.fail(m.as_str()))
            },
        }
    }
}

/// A successful `sp_chunks` scan never moves backwards.
pub proof fn lemma_sp_chunks_advances(s: Seq<char>, i: int, pipe: bool, close: bool, acc: Seq<ChunkV>)
    ensures
        sp_chunks(s, i, pipe, close, acc) matches Ok((_, j, _)) ==> j >= i,
    decreases s.len() - i,
{
    if 0 <= i < s.len() && !(close && s[i] == '%' && i + 1 < s.len() && s[i + 1] == ']') && !(pipe && s[i] == '|') {
        if let Ok((it, j)) = sp_item(s, i) {
            if j > i && j <= s.len() {
                lemma_sp_chunks_advances(s, j, pipe, close, add_item(acc, it));
            }
        }
    }
}

/// Parse a single template string into chunks. `line` is the 1-based source
/// line of the template's first line (used in error messages).
///
/// Fails on unterminated constructs, unknown escapes or operators, and
/// malformed computed expressions or end landings.
pub fn parse_template(src: &str, line: usize) -> (r: Result<Vec<Chunk>, StenoError>)
    ensures
        match spec_parse_template(src@) {
            Some(cs) => r matches Ok(v) && cv(&v) == cs,
            None => r matches Err(e) && e.spec_line() == line && e.spec_message() == template_error(src@),
        },
{
    let mut parser = TemplateParser { chars: chars_of(src), i: 0, line };
    match parser.parse_chunks(false, false) {
        Ok((chunks, _)) => Ok(chunks),
        Err(e) => Err(e),
    }
}

} // verus!
