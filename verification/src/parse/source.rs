//! Source-file parser: fenced blocks and `@`-directives -> `Vec<Entry>`.
use vstd::prelude::*;
use super::{chunks_view, cv, directive_bit, strs_view, opt_view, Chunk, ChunkV, Entry, EntryFlags};
use super::template::{parse_template, spec_parse_template, template_error};
use crate::error::StenoError;
use crate::stroke::keys::{first_where, lemma_first_where, lemma_first_where_unique};
use crate::text::{sub_vec, all_digits, is_digit, chars_of, concat3, copy_str, digits_value, digits_value_upto, is_ws, string_of, string_of_range, trim, trim_bounds, trim_start};

verus! {

broadcast use vstd::seq_lib::group_seq_properties;

/// `l` without one trailing carriage return.
pub open spec fn strip_cr(l: Seq<char>) -> Seq<char> {
    if l.len() > 0 && l.last() == '\r' {
        l.drop_last()
    } else {
        l
    }
}

/// The lines of `s` as `str::lines` yields them: split on `\n`, a `\r`
/// before the `\n` dropped, no empty line after a final `\n`.
pub open spec fn split_lines(s: Seq<char>) -> Seq<Seq<char>>
    decreases s.len(),
{
    if s.len() == 0 {
        Seq::empty()
    } else {
        let p = first_where(s, |c: char| c == '\n');
        if p >= s.len() || p < 0 {
            seq![s]
        } else {
            seq![strip_cr(s.take(p))] + split_lines(s.skip(p + 1))
        }
    }
}

/// Join lines with `\n` between them.
pub open spec fn join_lines(ls: Seq<Seq<char>>) -> Seq<char>
    decreases ls.len(),
{
    if ls.len() == 0 {
        Seq::empty()
    } else if ls.len() == 1 {
        ls[0]
    } else {
        join_lines(ls.drop_last()) + seq!['\n'] + ls.last()
    }
}

/// The number of leading backticks.
pub open spec fn tick_count(l: Seq<char>) -> int {
    first_where(l, |c: char| c != '`')
}

/// For a fence (4+ backticks), the trimmed text after the backticks.
pub open spec fn spec_fence(l: Seq<char>) -> Option<Seq<char>> {
    if tick_count(l) >= 4 {
        Some(trim(l.skip(tick_count(l))))
    } else {
        None
    }
}

/// A closing fence: backticks with nothing after them.
pub open spec fn is_closer(l: Seq<char>) -> bool {
    spec_fence(l) == Some(Seq::<char>::empty())
}

/// Index of the first closing fence at or after `j` (or the line count).
pub open spec fn closer_from(lines: Seq<Seq<char>>, j: int) -> int
    decreases lines.len() - j,
{
    if j < 0 || j >= lines.len() {
        lines.len() as int
    } else if is_closer(lines[j]) {
        j
    } else {
        closer_from(lines, j + 1)
    }
}

/// The nonempty trimmed `/`-separated segments of a fence stroke.
pub open spec fn entry_strokes(sr: Seq<char>) -> Seq<Seq<char>>
    decreases sr.len(),
{
    let p = first_where(sr, |c: char| c == '/');
    let piece = trim(sr.take(p));
    let rest = if 0 <= p < sr.len() {
        entry_strokes(sr.skip(p + 1))
    } else {
        Seq::empty()
    };
    if piece.len() > 0 {
        seq![piece] + rest
    } else {
        rest
    }
}

/// Model of an entry.
pub struct EntryV {
    pub stroke: Seq<Seq<char>>,
    pub stroke_raw: Seq<char>,
    pub template: Seq<ChunkV>,
    pub raw: Seq<char>,
    pub count: Option<Seq<char>>,
    pub arity: Option<u32>,
    pub flags: EntryFlags,
    pub line: usize,
}

/// The model of an entry.
pub open spec fn entry_view(e: Entry) -> EntryV {
    EntryV {
        stroke: strs_view(e.stroke@),
        stroke_raw: e.stroke_raw@,
        template: chunks_view(e.template@),
        raw: e.raw@,
        count: opt_view(e.count),
        arity: e.arity,
        flags: e.flags,
        line: e.line,
    }
}

/// The models of a vector of entries.
pub open spec fn entries_view(v: Seq<Entry>) -> Seq<EntryV> {
    v.map_values(|e: Entry| entry_view(e))
}

/// A directive name character.
pub open spec fn is_name_char(c: char) -> bool {
    ('a' <= c && c <= 'z') || ('A' <= c && c <= 'Z') || ('0' <= c && c <= '9') || c == '_'
}

/// A `u32` written as an optional `+` then at least one digit.
pub open spec fn spec_parse_u32(s: Seq<char>) -> Option<u32> {
    let body = if s.len() > 0 && s[0] == '+' {
        s.drop_first()
    } else {
        s
    };
    if body.len() > 0 && all_digits(body) && digits_value(body) <= u32::MAX {
        Some(digits_value(body) as u32)
    } else {
        None
    }
}

/// Apply the directive line `t` (trimmed, starting with `@`) to `e`; the
/// error value is the line to report and the message.
pub open spec fn sp_directive(e: EntryV, t: Seq<char>, line_no: usize) -> Result<EntryV, (usize, Seq<char>)> {
    let rest = t.drop_first();
    let name_end = first_where(rest, |c: char| !is_name_char(c));
    let name = rest.take(name_end);
    let arg = trim(rest.skip(name_end));
    if name.len() == 0 {
        Err((line_no, "malformed directive: "@ + t))
    } else if name == "count"@ {
        if arg.len() == 0 {
            Err((line_no, "@count needs a key list"@))
        } else {
            Ok(EntryV { count: Some(arg), ..e })
        }
    } else if name == "arity"@ {
        match spec_parse_u32(arg) {
            Some(n) => Ok(EntryV { arity: Some(n), ..e }),
            None => Err((line_no, "@arity needs a non-negative integer, got \""@ + arg + "\""@)),
        }
    } else if directive_bit(name) != 0u8 {
        Ok(EntryV { flags: e.flags.with_bits(directive_bit(name)), ..e })
    } else {
        Err((line_no, "unknown directive @"@ + name))
    }
}

/// Parse `lines` from index `i`, appending entries to `acc`; the error value
/// is the 1-based line to report and the message.
pub open spec fn sp_source(lines: Seq<Seq<char>>, i: int, acc: Seq<EntryV>) -> Result<Seq<EntryV>, (usize, Seq<char>)>
    decreases lines.len() - i,
{
    if i < 0 || i >= lines.len() {
        Ok(acc)
    } else {
        let raw = lines[i];
        let line_no = (i + 1) as usize;
        match spec_fence(raw) {
            Some(sr) => {
                if sr.len() == 0 {
                    Err((line_no, "closing fence without an open block"@))
                } else {
                    match sp_block(lines, i, sr) {
                        Err(l) => Err(l),
                        Ok((ev, next)) => if next <= i {
                            Err((line_no, Seq::empty()))
                        } else {
                            sp_source(lines, next, acc.push(ev))
                        },
                    }
                }
            },
            None => {
                let t = trim(raw);
                if is_blank_or_comment(t) {
                    sp_source(lines, i + 1, acc)
                } else if t[0] != '@' {
                    Err((line_no, "unexpected text: "@ + t))
                } else if acc.len() == 0 {
                    Err((line_no, "directive before any entry"@))
                } else {
                    match sp_directive(acc.last(), t, line_no) {
                        Ok(e2) => sp_source(lines, i + 1, acc.update(acc.len() - 1, e2)),
                        Err(l) => Err(l),
                    }
                }
            },
        }
    }
}

/// The entries a `.steno` source denotes, or the 1-based line and message of
/// the first error.
pub open spec fn spec_parse_source(src: Seq<char>) -> Result<Seq<EntryV>, (usize, Seq<char>)> {
    sp_source(split_lines(src), 0, Seq::empty())
}


/// The models of a vector of character vectors.
pub open spec fn lines_view(ls: Seq<Vec<char>>) -> Seq<Seq<char>> {
    ls.map_values(|l: Vec<char>| l@)
}

/// Split `v` into lines as `str::lines` does.
#[verifier::spinoff_prover]
#[verifier::rlimit(40)]
pub(crate) fn lines_of(v: &Vec<char>) -> (r: Vec<Vec<char>>)
    ensures
        lines_view(r@) == split_lines(v@),
{
    let ghost s = v@;
    let mut out: Vec<Vec<char>> = Vec::new();
    let mut start: usize = 0;
    assert(s.skip(0) == s);
    while start < v.len()
        invariant
            s == v@,
            start <= v@.len(),
            lines_view(out@) + split_lines(s.skip(start as int)) == split_lines(s),
        decreases v.len() - start,
    {
        let ghost t = s.skip(start as int);
        let mut p = start;
        while p < v.len() && v[p] != '\n'
            invariant
                start <= p <= v@.len(),
                forall|j: int| start <= j < p ==> v@[j] != '\n',
            decreases v.len() - p,
        {
            p = p + 1;
        }
        proof {
            assert forall|j: int| 0 <= j < p - start implies !((|c: char| c == '\n')(#[trigger] t[j])) by {
                assert(t[j] == v@[j + start]);
            }
            if p < v.len() {
                assert(t[p - start] == v@[p as int]);
            }
            lemma_first_where_unique(t, |c: char| c == '\n', p - start);
        }
        let mut end = p;
        if p < v.len() && end > start && v[end - 1] == '\r' {
            end = end - 1;
        }
        let line = sub_vec(v.as_slice(), start, end);
        proof {
            assert(t.take(p - start) == v@.subrange(start as int, p as int));
            if p < v.len() {
                assert(line@ == strip_cr(t.take(p - start)));
            } else {
                assert(line@ == t);
            }
        }
        let ghost before = out@;
        out.push(line);
        proof {
            assert(lines_view(out@) == lines_view(before).push(line@));
            if p < v.len() {
                assert(t.skip(p - start + 1) == s.skip(p + 1));
                assert(split_lines(t) == seq![line@] + split_lines(s.skip(p + 1)));
                assert(lines_view(out@) + split_lines(s.skip(p + 1)) == lines_view(before) + (seq![line@] + split_lines(s.skip(p + 1))));
            } else {
                assert(t.take(p - start) == t);
                assert(split_lines(t) == seq![line@]);
                assert(s.skip(p as int).len() == 0);
                assert(split_lines(s.skip(p as int)) == Seq::<Seq<char>>::empty());
                assert(lines_view(out@) + split_lines(s.skip(p as int)) == lines_view(before) + seq![line@]);
            }
        }
        if p < v.len() {
            start = p + 1;
        } else {
            start = p;
        }
    }
    proof {
        assert(s.skip(start as int).len() == 0);
        assert(lines_view(out@) + Seq::<Seq<char>>::empty() == lines_view(out@));
    }
    out
}

/// For a fence line (4+ backticks), the bounds of the trimmed text after
/// the backticks.
fn fence_stroke(l: &Vec<char>) -> (r: Option<(usize, usize)>)
    ensures
        match spec_fence(l@) {
            Some(x) => r matches Some((a, b)) && a <= b <= l@.len() && l@.subrange(a as int, b as int) == x,
            None => r is None,
        },
{
    let mut k: usize = 0;
    while k < l.len() && l[k] == '`'
        invariant
            k <= l@.len(),
            forall|j: int| 0 <= j < k ==> l@[j] == '`',
        decreases l.len() - k,
    {
        k = k + 1;
    }
    proof {
        assert forall|j: int| 0 <= j < k implies !((|c: char| c != '`')(#[trigger] l@[j])) by {}
        lemma_first_where_unique(l@, |c: char| c != '`', k as int);
    }
    if k >= 4 {
        let (a, b) = trim_bounds(l.as_slice(), k, l.len());
        proof {
            assert(l@.subrange(k as int, l@.len() as int) == l@.skip(k as int));
        }
        Some((a, b))
    } else {
        None
    }
}

/// The line is a closing fence.
fn is_closer_line(l: &Vec<char>) -> (b: bool)
    ensures
        b == is_closer(l@),
{
    match fence_stroke(l) {
        Some((a, b)) => {
            proof {
                if a == b {
                    assert(l@.subrange(a as int, b as int) == Seq::<char>::empty());
                }
            }
            a == b
        },
        None => false,
    }
}

/// Collect a block's content lines up to its closing fence: the joined text
/// and the index after the closer, or `None` when the block is
/// unterminated.
fn block_text(lines: &Vec<Vec<char>>, open_idx: usize) -> (r: Option<(String, usize)>)
    requires
        open_idx < lines@.len(),
    ensures
        ({
            let ls = lines_view(lines@);
            let k = closer_from(ls, open_idx + 1);
            if k < ls.len() {
                r matches Some((t, n)) && n == k + 1 && t@ == join_lines(ls.subrange(open_idx + 1, k))
            } else {
                r is None
            }
        }),
{
    let ghost ls = lines_view(lines@);
    let n = lines.len();
    let mut text = String::new();
    let mut i = open_idx + 1;
    proof {
        assert(ls.subrange(open_idx + 1, i as int) == Seq::<Seq<char>>::empty());
    }
    while i < lines.len()
        invariant
            ls == lines_view(lines@),
            open_idx < i <= lines@.len(),
            closer_from(ls, i as int) == closer_from(ls, open_idx + 1),
            text@ == join_lines(ls.subrange(open_idx + 1, i as int)),
        decreases lines.len() - i,
    {
        assert(ls[i as int] == lines@[i as int]@);
        if is_closer_line(&lines[i]) {
            return Some((text, i + 1));
        }
        let ghost prev = ls.subrange(open_idx + 1, i as int);
        if i > open_idx + 1 {
            text.push('\n');
        }
        let cl = &lines[i];
        let mut j: usize = 0;
        let ghost t0 = text@;
        while j < cl.len()
            invariant
                j <= cl@.len(),
                text@ == t0 + cl@.take(j as int),
            decreases cl.len() - j,
        {
            text.push(cl[j]);
            j = j + 1;
            assert(cl@.take(j as int) == cl@.take((j - 1) as int).push(cl@[j - 1]));
        }
        proof {
            assert(cl@.take(j as int) == cl@);
            let next = ls.subrange(open_idx + 1, i + 1);
            assert(next.drop_last() == prev);
            assert(next.last() == cl@);
            if i > open_idx + 1 {
                assert(next.len() > 1);
            } else {
                assert(next.len() == 1);
                assert(prev.len() == 0);
            }
        }
        i = i + 1;
    }
    None
}

/// One step of `entry_strokes`: the segment `s[start..p]` ends at a `/` or
/// at the end.
proof fn lemma_entry_strokes_step(s: Seq<char>, start: int, p: int)
    requires
        0 <= start <= p <= s.len(),
        forall|j: int| start <= j < p ==> s[j] != '/',
        p < s.len() ==> s[p] == '/',
    ensures
        ({
            let piece = trim(s.subrange(start, p));
            let rest = if p < s.len() { entry_strokes(s.skip(p + 1)) } else { Seq::empty() };
            entry_strokes(s.skip(start)) == (if piece.len() > 0 { seq![piece] + rest } else { rest })
        }),
{
    let t = s.skip(start);
    assert forall|j: int| 0 <= j < p - start implies !((|c: char| c == '/')(#[trigger] t[j])) by {
        assert(t[j] == s[j + start]);
    }
    if p < s.len() {
        assert(t[p - start] == s[p]);
        assert(t.skip(p - start + 1) == s.skip(p + 1));
    }
    lemma_first_where_unique(t, |c: char| c == '/', p - start);
    assert(t.take(p - start) == s.subrange(start, p));
}

/// Append the nonempty trimmed `/`-segments of `sr` to a new vector.
#[verifier::spinoff_prover]
#[verifier::rlimit(50)]
fn split_strokes(sr: &Vec<char>) -> (r: Vec<String>)
    ensures
        strs_view(r@) == entry_strokes(sr@),
{
    let ghost s = sr@;
    let mut out: Vec<String> = Vec::new();
    let mut start: usize = 0;
    let mut done = false;
    assert(s.skip(0) == s);
    while !done
        invariant
            s == sr@,
            start <= sr@.len(),
            !done ==> strs_view(out@) + entry_strokes(s.skip(start as int)) == entry_strokes(s),
            done ==> strs_view(out@) == entry_strokes(s),
        decreases sr@.len() - start + (if done { 0int } else { 1int }),
    {
        let mut p = start;
        while p < sr.len() && sr[p] != '/'
            invariant
                start <= p <= sr@.len(),
                forall|j: int| start <= j < p ==> sr@[j] != '/',
            decreases sr.len() - p,
        {
            p = p + 1;
        }
        let (a, b) = trim_bounds(sr.as_slice(), start, p);
        proof {
            lemma_entry_strokes_step(s, start as int, p as int);
        }
        let ghost before = out@;
        if a < b {
            out.push(string_of_range(sr.as_slice(), a, b));
            proof {
                assert(strs_view(out@) == strs_view(before).push(sr@.subrange(a as int, b as int)));
            }
        }
        proof {
            let piece = sr@.subrange(a as int, b as int);
            if p < sr.len() {
                if piece.len() > 0 {
                    assert(strs_view(out@) + entry_strokes(s.skip(p + 1)) == strs_view(before) + (seq![piece] + entry_strokes(s.skip(p + 1))));
                } else {
                    assert(strs_view(out@) == strs_view(before));
                }
            } else {
                if piece.len() > 0 {
                    assert(strs_view(out@) == strs_view(before) + seq![piece]);
                } else {
                    assert(strs_view(before) + Seq::<Seq<char>>::empty() == strs_view(before));
                }
            }
        }
        if p < sr.len() {
            start = p + 1;
        } else {
            done = true;
        }
    }
    out
}


/// The first closing fence at or after `j` is not before `j`.
proof fn lemma_closer_from_bounds(ls: Seq<Seq<char>>, j: int)
    requires
        0 <= j <= ls.len(),
    ensures
        j <= closer_from(ls, j) <= ls.len(),
    decreases ls.len() - j,
{
    if j < ls.len() && !is_closer(ls[j]) {
        lemma_closer_from_bounds(ls, j + 1);
    }
}

/// The entry a block opened at `open_idx` yields (with the index after its
/// closer), or the 1-based line and message of its error.
pub open spec fn sp_block(ls: Seq<Seq<char>>, open_idx: int, sr: Seq<char>) -> Result<(EntryV, int), (usize, Seq<char>)> {
    let line_no = (open_idx + 1) as usize;
    let k = closer_from(ls, open_idx + 1);
    if k >= ls.len() || k <= open_idx {
        Err((line_no, "unterminated block for \""@ + sr + "\""@))
    } else {
        let text = join_lines(ls.subrange(open_idx + 1, k));
        match spec_parse_template(text) {
            None => Err(((line_no + 1) as usize, template_error(text))),
            Some(tpl) => Ok(
                (
                    EntryV {
                        stroke: entry_strokes(sr),
                        stroke_raw: sr,
                        template: tpl,
                        raw: text,
                        count: None,
                        arity: None,
                        flags: EntryFlags::spec_none(),
                        line: line_no,
                    },
                    k + 1,
                ),
            ),
        }
    }
}

/// Every entry of `acc` is recorded at the 1-based line of the fence that
/// opened it, among the first `upto` lines, in increasing line order.
pub open spec fn entries_at_fences(ls: Seq<Seq<char>>, acc: Seq<EntryV>, upto: int) -> bool {
    &&& forall|k: int|
        0 <= k < acc.len() ==> 1 <= (#[trigger] acc[k]).line <= upto && spec_fence(ls[acc[k].line - 1]) == Some(
            acc[k].stroke_raw,
        )
    &&& forall|j: int, k: int| 0 <= j < k < acc.len() ==> (#[trigger] acc[j]).line < (#[trigger] acc[k]).line
}

/// A directive keeps the entry's line and stroke.
proof fn lemma_directive_keeps(e: EntryV, t: Seq<char>, line_no: usize)
    ensures
        sp_directive(e, t, line_no) matches Ok(e2) ==> e2.line == e.line && e2.stroke_raw == e.stroke_raw,
        sp_directive(e, t, line_no) matches Err((l, _)) ==> l == line_no,
{
}

/// The parse from line `i` on keeps every entry at its fence line and
/// reports an error on a line of the source.
#[verifier::spinoff_prover]
proof fn lemma_sp_source_lines(ls: Seq<Seq<char>>, i: int, acc: Seq<EntryV>)
    requires
        0 <= i <= ls.len(),
        ls.len() < usize::MAX,
        entries_at_fences(ls, acc, i),
    ensures
        sp_source(ls, i, acc) matches Ok(es) ==> entries_at_fences(ls, es, ls.len() as int),
        sp_source(ls, i, acc) matches Err((l, _)) ==> 1 <= l <= ls.len(),
    decreases ls.len() - i,
{
    if i < ls.len() {
        let raw = ls[i];
        match spec_fence(raw) {
            Some(sr) => {
                if sr.len() > 0 {
                    lemma_closer_from_bounds(ls, i + 1);
                    match sp_block(ls, i, sr) {
                        Err(_) => {},
                        Ok((ev, next)) => {
                            if next > i {
                                let acc2 = acc.push(ev);
                                assert(ev.line == i + 1 && ev.stroke_raw == sr);
                                assert(entries_at_fences(ls, acc2, next)) by {
                                    assert forall|k: int| 0 <= k < acc2.len() implies 1 <= (#[trigger] acc2[k]).line
                                        <= next && spec_fence(ls[acc2[k].line - 1]) == Some(acc2[k].stroke_raw) by {
                                        if k < acc.len() {
                                            assert(acc2[k] == acc[k]);
                                        }
                                    }
                                    assert forall|j: int, k: int| 0 <= j < k < acc2.len() implies (#[trigger] acc2[j]).line
                                        < (#[trigger] acc2[k]).line by {
                                        assert(acc2[j] == acc[j]);
                                        if k < acc.len() {
                                            assert(acc2[k] == acc[k]);
                                        }
                                    }
                                }
                                lemma_sp_source_lines(ls, next, acc2);
                            }
                        },
                    }
                }
            },
            None => {
                let t = trim(raw);
                if is_blank_or_comment(t) {
                    lemma_sp_source_lines(ls, i + 1, acc);
                } else if t[0] == '@' && acc.len() > 0 {
                    let line_no = (i + 1) as usize;
                    lemma_directive_keeps(acc.last(), t, line_no);
                    match sp_directive(acc.last(), t, line_no) {
                        Ok(e2) => {
                            let acc2 = acc.update(acc.len() - 1, e2);
                            assert(entries_at_fences(ls, acc2, i + 1)) by {
                                assert forall|k: int| 0 <= k < acc2.len() implies 1 <= (#[trigger] acc2[k]).line
                                    <= i + 1 && spec_fence(ls[acc2[k].line - 1]) == Some(acc2[k].stroke_raw) by {
                                    if k < acc.len() - 1 {
                                        assert(acc2[k] == acc[k]);
                                    } else {
                                        assert(acc[k] == acc.last());
                                    }
                                }
                                assert forall|j: int, k: int| 0 <= j < k < acc2.len() implies (#[trigger] acc2[j]).line
                                    < (#[trigger] acc2[k]).line by {
                                    assert(acc2[j] == acc[j]);
                                    if k < acc.len() - 1 {
                                        assert(acc2[k] == acc[k]);
                                    } else {
                                        assert(acc[k] == acc.last());
                                    }
                                }
                            }
                            lemma_sp_source_lines(ls, i + 1, acc2);
                        },
                        Err(_) => {},
                    }
                }
            },
        }
    }
}

/// A parse error names a line of the source; every parsed entry records the
/// 1-based line of its opening fence, whose stroke text it carries, and the
/// entries come in increasing line order.
pub proof fn law_parse_source_lines(src: Seq<char>)
    requires
        split_lines(src).len() < usize::MAX,
    ensures
        spec_parse_source(src) matches Err((l, _)) ==> 1 <= l <= split_lines(src).len(),
        spec_parse_source(src) matches Ok(es) ==> entries_at_fences(split_lines(src), es, split_lines(src).len() as int),
{
    lemma_sp_source_lines(split_lines(src), 0, Seq::empty());
}

/// Parse one fenced block whose opening fence is line `open_idx`, with the
/// stroke text at `[a, b)` of that line. Returns the entry and the index of
/// the first line after the closing fence.
fn parse_block(lines: &Vec<Vec<char>>, open_idx: usize, a: usize, b: usize) -> (r: Result<(Entry, usize), StenoError>)
    requires
        open_idx < lines@.len(),
        a <= b <= lines@[open_idx as int]@.len(),
    ensures
        match sp_block(lines_view(lines@), open_idx as int, lines@[open_idx as int]@.subrange(a as int, b as int)) {
            Ok((ev, n)) => r matches Ok((e, m)) && entry_view(e) == ev && m == n,
            Err((l, msg)) => r matches Err(er) && er.spec_line() == l && er.spec_message() == msg,
        },
{
    let ghost ls = lines_view(lines@);
    let n = lines.len();
    let line_no = open_idx + 1;
    let stroke_raw = string_of_range(lines[open_idx].as_slice(), a, b);
    proof {
        lemma_closer_from_bounds(ls, open_idx + 1);
    }
    match block_text(lines, open_idx) {
        None => {
            let m = concat3("unterminated block for \"", stroke_raw.as_str(), "\"");
            Err(StenoError::new(m, line_no))
        },
        Some((text, next)) => {
            let sr = sub_vec(lines[open_idx].as_slice(), a, b);
            let stroke = split_strokes(&sr);
            match parse_template(text.as_str(), line_no + 1) {
                Err(e) => Err(e),
                Ok(template) => {
                    let entry = Entry {
                        stroke,
                        stroke_raw,
                        template,
                        raw: text,
                        count: None,
                        arity: None,
                        flags: EntryFlags::none(),
                        line: line_no,
                    };
                    Ok((entry, next))
                },
            }
        },
    }
}

/// A directive name character, computed.
fn name_char(c: char) -> (b: bool)
    ensures
        b == is_name_char(c),
{
    ('a' <= c && c <= 'z') || ('A' <= c && c <= 'Z') || ('0' <= c && c <= '9') || c == '_'
}

/// Parse `t[a..b]` as an `@arity` value.
fn parse_arity(t: &Vec<char>, a: usize, b: usize) -> (r: Option<u32>)
    requires
        a <= b <= t@.len(),
    ensures
        r == spec_parse_u32(t@.subrange(a as int, b as int)),
{
    let ghost s = t@.subrange(a as int, b as int);
    let mut lo = a;
    if lo < b && t[lo] == '+' {
        lo = lo + 1;
    }
    proof {
        let body = if s.len() > 0 && s[0] == '+' { s.drop_first() } else { s };
        assert(body == t@.subrange(lo as int, b as int));
    }
    if lo == b {
        return None;
    }
    let mut j = lo;
    while j < b && '0' <= t[j] && t[j] <= '9'
        invariant
            lo <= j <= b <= t@.len(),
            forall|k: int| lo <= k < j ==> is_digit(#[trigger] t@[k]),
        decreases b - j,
    {
        j = j + 1;
    }
    let ghost body = t@.subrange(lo as int, b as int);
    if j < b {
        proof {
            assert(!is_digit(body[j - lo]));
        }
        return None;
    }
    proof {
        assert forall|k: int| 0 <= k < body.len() implies is_digit(#[trigger] body[k]) by {
            assert(body[k] == t@[k + lo]);
        }
    }
    match digits_value_upto(t.as_slice(), lo, b, 0xffff_ffff) {
        Some(v) => Some(v as u32),
        None => None,
    }
}

/// Parse and apply one `@`-directive line `t` (trimmed) to `e`.
fn apply_directive(e: &mut Entry, t: &Vec<char>, line_no: usize) -> (r: Result<(), StenoError>)
    requires
        t@.len() > 0,
        t@[0] == '@',
    ensures
        match sp_directive(entry_view(*old(e)), t@, line_no) {
            Ok(e2) => r is Ok && entry_view(*final(e)) == e2,
            Err((l, msg)) => r matches Err(er) && er.spec_line() == l && er.spec_message() == msg && entry_view(*final(e))
                == entry_view(*old(e)),
        },
{
    let n = t.len();
    let mut k: usize = 1;
    while k < n && name_char(t[k])
        invariant
            1 <= k <= n,
            n == t@.len(),
            forall|j: int| 1 <= j < k ==> is_name_char(#[trigger] t@[j]),
        decreases n - k,
    {
        k = k + 1;
    }
    let ghost rest = t@.drop_first();
    proof {
        assert forall|j: int| 0 <= j < k - 1 implies !((|c: char| !is_name_char(c))(#[trigger] rest[j])) by {
            assert(rest[j] == t@[j + 1]);
        }
        if k < n {
            assert(rest[k - 1] == t@[k as int]);
        }
        lemma_first_where_unique(rest, |c: char| !is_name_char(c), k - 1);
        assert(rest.take(k - 1) == t@.subrange(1, k as int));
        assert(rest.skip(k - 1) == t@.subrange(k as int, n as int));
    }
    if k == 1 {
        let shown = string_of(t.as_slice());
        let m = concat3("malformed directive: ", shown.as_str(), "");
        proof {
            reveal_strlit("");
            assert(m@ =~= "malformed directive: "@ + t@);
        }
        return Err(StenoError::new(m, line_no));
    }
    let name = string_of_range(t.as_slice(), 1, k);
    let (a, b) = trim_bounds(t.as_slice(), k, n);
    if crate::text::str_eq(name.as_str(), "count") {
        if a == b {
            proof {
                assert(t@.subrange(a as int, b as int).len() == 0);
            }
            return Err(StenoError::new(copy_str("@count needs a key list"), line_no));
        }
        e.count = Some(string_of_range(t.as_slice(), a, b));
        return Ok(());
    }
    if crate::text::str_eq(name.as_str(), "arity") {
        match parse_arity(t, a, b) {
            Some(v) => {
                e.arity = Some(v);
                return Ok(());
            },
            None => {
                let arg = string_of_range(t.as_slice(), a, b);
                let m = concat3("@arity needs a non-negative integer, got \"", arg.as_str(), "\"");
                return Err(StenoError::new(m, line_no));
            },
        }
    }
    if e.flags.set_named(name.as_str()) {
        return Ok(());
    }
    let m = concat3("unknown directive @", name.as_str(), "");
    proof {
        reveal_strlit("");
        assert(m@ =~= "unknown directive @"@ + name@);
    }
    Err(StenoError::new(m, line_no))
}

/// A trimmed line that is blank or a comment.
pub open spec fn is_blank_or_comment(t: Seq<char>) -> bool {
    t.len() == 0 || (t.len() >= 2 && t[0] == '/' && t[1] == '/') || t[0] == '#'
}

/// Handle one non-fence line: skip blanks and comments, apply a directive to
/// the last entry, or reject stray text. Returns the next line index.
fn parse_plain_line(raw: &Vec<char>, line_no: usize, i: usize, entries: &mut Vec<Entry>) -> (r: Result<usize, StenoError>)
    requires
        i < usize::MAX,
    ensures
        ({
            let t = trim(raw@);
            let es = entries_view(old(entries)@);
            if is_blank_or_comment(t) {
                r == Ok::<usize, StenoError>((i + 1) as usize) && entries_view(final(entries)@) == es
            } else if t[0] != '@' {
                r matches Err(er) && er.spec_line() == line_no && er.spec_message() == "unexpected text: "@ + t
            } else if es.len() == 0 {
                r matches Err(er) && er.spec_line() == line_no && er.spec_message() == "directive before any entry"@
            } else {
                match sp_directive(es.last(), t, line_no) {
                    Ok(e2) => r == Ok::<usize, StenoError>((i + 1) as usize) && entries_view(final(entries)@) == es.update(es.len() - 1, e2),
                    Err((l, msg)) => r matches Err(er) && er.spec_line() == l && er.spec_message() == msg,
                }
            }
        }),
{
    let (lo, hi) = trim_bounds(raw.as_slice(), 0, raw.len());
    proof {
        assert(raw@.subrange(0, raw@.len() as int) == raw@);
    }
    let t = sub_vec(raw.as_slice(), lo, hi);
    if t.len() == 0 || (t.len() >= 2 && t[0] == '/' && t[1] == '/') || t[0] == '#' {
        return Ok(i + 1);
    }
    if t[0] != '@' {
        let shown = string_of(t.as_slice());
        let m = concat3("unexpected text: ", shown.as_str(), "");
        proof {
            reveal_strlit("");
            assert(m@ =~= "unexpected text: "@ + t@);
        }
        return Err(StenoError::new(m, line_no));
    }
    match entries.pop() {
        None => Err(StenoError::new(copy_str("directive before any entry"), line_no)),
        Some(mut last) => {
            let ghost rest = entries@;
            let res = apply_directive(&mut last, &t, line_no);
            entries.push(last);
            proof {
                let es = entries_view(old(entries)@);
                assert(old(entries)@ == rest.push(old(entries)@.last()));
                assert(entries_view(entries@) == entries_view(rest).push(entry_view(last)));
                assert(es == entries_view(rest).push(entry_view(old(entries)@.last())));
                assert(es.last() == entry_view(old(entries)@.last()));
            }
            match res {
                Ok(()) => Ok(i + 1),
                Err(er) => Err(er),
            }
        },
    }
}

/// Parse a whole `.steno` source into entries.
///
/// Fails (with the 1-based line) on unterminated blocks, stray fences or
/// text, malformed directives, or any template parse error.
pub fn parse_source(src: &str) -> (r: Result<Vec<Entry>, StenoError>)
    ensures
        match spec_parse_source(src@) {
            Ok(es) => r matches Ok(v) && entries_view(v@) == es,
            Err((l, msg)) => r matches Err(e) && e.spec_line() == l && e.spec_message() == msg,
        },
{
    let chars = chars_of(src);
    let lines = lines_of(&chars);
    let ghost ls = lines_view(lines@);
    let n = lines.len();
    let mut entries: Vec<Entry> = Vec::new();
    let mut i: usize = 0;
    proof {
        assert(entries_view(entries@) == Seq::<EntryV>::empty());
    }
    while i < n
        invariant
            ls == lines_view(lines@),
            n == lines@.len(),
            i <= n,
            sp_source(ls, i as int, entries_view(entries@)) == spec_parse_source(src@),
        decreases n - i,
    {
        let line_no = i + 1;
        assert(ls[i as int] == lines@[i as int]@);
        match fence_stroke(&lines[i]) {
            Some((a, b)) => {
                if a == b {
                    proof {
                        assert(lines@[i as int]@.subrange(a as int, b as int).len() == 0);
                    }
                    return Err(StenoError::new(copy_str("closing fence without an open block"), line_no));
                }
                match parse_block(&lines, i, a, b) {
                    Ok((entry, next)) => {
                        let ghost before = entries@;
                        entries.push(entry);
                        proof {
                            assert(entries_view(entries@) == entries_view(before).push(entry_view(entry)));
                        }
                        i = next;
                    },
                    Err(e) => {
                        return Err(e);
                    },
                }
            },
            None => {
                match parse_plain_line(&lines[i], line_no, i, &mut entries) {
                    Ok(next) => {
                        i = next;
                    },
                    Err(e) => {
                        return Err(e);
                    },
                }
            },
        }
    }
    Ok(entries)
}

} // verus!
