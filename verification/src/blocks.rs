//! Smart emitter for pre-formatted multi-line blocks (the `@literal` data
//! structures). A smart editor auto-closes every `{`, auto-indents each line,
//! and block-expands `{`+Enter — so instead of typing literal `\t` and `}`
//! (which the editor would double / reflow), we drive it structurally:
//!
//! * type only the OPENING / content lines (every `}`-only line is
//!   auto-supplied)
//! * Enter after a line ending in `{` block-expands one level deeper
//! * Enter between siblings keeps the level
//! * to drop K levels, walk Down×K onto the outermost auto-`}`, End, Enter
//! * a line that *starts* with `}` (e.g. `} else {`) appends onto that auto-`}`
//!
//! Indentation is the editor's, so the result uses its indent unit (4 spaces),
//! not the template's tabs.
use vstd::prelude::*;
use crate::editor::{events_view, Event, EventV, KeyName};
use crate::parse::{cv, lemma_cv, strs_view, Chunk, ChunkV};
use crate::text::{push_str, split_on, split_string, string_of_range, chars_of};

verus! {

broadcast use vstd::seq_lib::group_seq_properties;

/// The raw text of a literal block template (tabs, newlines, braces).
pub open spec fn struct_text_spec(cs: Seq<ChunkV>) -> Seq<char>
    decreases cs.len(),
{
    if cs.len() == 0 {
        Seq::empty()
    } else {
        let prev = struct_text_spec(cs.drop_last());
        match cs.last() {
            ChunkV::Lit(s) => prev + s,
            ChunkV::Brace(open) => prev.push(if open { '{' } else { '}' }),
            ChunkV::Newline => prev.push('\n'),
            ChunkV::BodyBreak => prev.push('\n'),
            ChunkV::Tab => prev.push('\t'),
            _ => prev,
        }
    }
}

/// Render a literal block template to its raw text (tabs, newlines, braces).
pub fn struct_text(template: &Vec<Chunk>) -> (r: String)
    ensures
        r@ == struct_text_spec(cv(template)),
{
    let ghost cs = cv(template);
    proof {
        lemma_cv(template);
        assert(cs.take(0) == Seq::<ChunkV>::empty());
    }
    let mut out = String::new();
    let mut i: usize = 0;
    while i < template.len()
        invariant
            cs == cv(template),
            cs.len() == template@.len(),
            forall|j: int| 0 <= j < template@.len() ==> #[trigger] cs[j] == template@[j]@,
            i <= template@.len(),
            out@ == struct_text_spec(cs.take(i as int)),
        decreases template.len() - i,
    {
        proof {
            assert(cs.take(i + 1).drop_last() == cs.take(i as int));
            assert(cs.take(i + 1).last() == cs[i as int]);
        }
        match &template[i] {
            Chunk::Lit(text) => push_str(&mut out, text.as_str()),
            Chunk::Brace { open } => out.push(if *open { '{' } else { '}' }),
            Chunk::Newline | Chunk::BodyBreak => out.push('\n'),
            Chunk::Tab => out.push('\t'),
            _ => {},
        }
        i = i + 1;
    }
    assert(cs.take(i as int) == cs);
    out
}

/// Model of a content line: its tab depth and content.
pub struct SLineV {
    pub depth: nat,
    pub content: Seq<char>,
}

/// The number of leading tabs of `s`.
pub open spec fn tab_depth(s: Seq<char>) -> nat
    decreases s.len(),
{
    if s.len() > 0 && s[0] == '\t' {
        1 + tab_depth(s.drop_first())
    } else {
        0
    }
}

/// The content lines of a block text: each line split into depth and
/// content, dropping blank and `}`-only lines (the editor supplies those
/// closers).
pub open spec fn slines_of(lines: Seq<Seq<char>>) -> Seq<SLineV>
    decreases lines.len(),
{
    if lines.len() == 0 {
        Seq::empty()
    } else {
        let prev = slines_of(lines.drop_last());
        let raw = lines.last();
        let d = tab_depth(raw);
        let content = raw.skip(d as int);
        if content.len() == 0 || content == seq!['}'] {
            prev
        } else {
            prev.push(SLineV { depth: d, content })
        }
    }
}

/// The content lines of a literal block template.
pub open spec fn struct_lines_spec(cs: Seq<ChunkV>) -> Seq<SLineV> {
    slines_of(split_on(struct_text_spec(cs), '\n'))
}

/// A non-blank, non-closer-only line: its tab depth and content.
struct SLine {
    /// Number of leading tabs.
    depth: usize,
    /// Content after the leading tabs.
    content: Vec<char>,
}

/// The model of a content line.
spec fn sline_view(l: SLine) -> SLineV {
    SLineV { depth: l.depth as nat, content: l.content@ }
}

/// The models of a sequence of content lines.
spec fn slines_view(v: Seq<SLine>) -> Seq<SLineV> {
    v.map_values(|l: SLine| sline_view(l))
}

proof fn lemma_tab_depth(s: Seq<char>, k: int)
    requires
        0 <= k <= s.len(),
        forall|j: int| 0 <= j < k ==> s[j] == '\t',
        k < s.len() ==> s[k] != '\t',
    ensures
        tab_depth(s) == k,
    decreases k,
{
    if k > 0 {
        assert forall|j: int| 0 <= j < k - 1 implies s.drop_first()[j] == '\t' by {
            assert(s.drop_first()[j] == s[j + 1]);
        }
        if k < s.len() {
            assert(s.drop_first()[k - 1] == s[k]);
        }
        lemma_tab_depth(s.drop_first(), k - 1);
    }
}

/// Split into (tab-depth, content) lines, dropping blanks and `}`-only lines
/// (those closers are auto-supplied by the editor).
fn struct_lines(template: &Vec<Chunk>) -> (r: Vec<SLine>)
    ensures
        slines_view(r@) == struct_lines_spec(cv(template)),
{
    let text = struct_text(template);
    let raws = split_string(text.as_str(), '\n');
    let ghost ls = strs_view(raws@);
    let mut lines: Vec<SLine> = Vec::new();
    let mut i: usize = 0;
    assert(ls.take(0) == Seq::<Seq<char>>::empty());
    while i < raws.len()
        invariant
            i <= raws@.len(),
            ls == strs_view(raws@),
            ls == split_on(struct_text_spec(cv(template)), '\n'),
            slines_view(lines@) == slines_of(ls.take(i as int)),
        decreases raws.len() - i,
    {
        let chars = chars_of(raws[i].as_str());
        let n = chars.len();
        let mut d: usize = 0;
        while d < n && chars[d] == '\t'
            invariant
                d <= n,
                n == chars@.len(),
                forall|j: int| 0 <= j < d ==> chars@[j] == '\t',
            decreases n - d,
        {
            d = d + 1;
        }
        proof {
            lemma_tab_depth(chars@, d as int);
            assert(ls.take(i + 1).drop_last() == ls.take(i as int));
            assert(ls.take(i + 1).last() == chars@);
        }
        let content = crate::text::sub_vec(chars.as_slice(), d, n);
        assert(content@ == chars@.skip(d as int));
        let closer_only = content.len() == 1 && content[0] == '}';
        proof {
            if content@.len() == 1 {
                if content@[0] == '}' {
                    assert(content@ =~= seq!['}']);
                } else {
                    assert(content@[0] != seq!['}'][0]);
                }
            } else {
                assert(content@ != seq!['}']);
            }
        }
        if !(content.len() == 0 || closer_only) {
            let ghost before = slines_view(lines@);
            let l = SLine { depth: d, content };
            lines.push(l);
            proof {
                assert(slines_view(lines@) == before.push(sline_view(l)));
            }
        }
        i = i + 1;
    }
    assert(ls.take(i as int) == ls);
    lines
}

/// The navigation between the previous line and one at `depth`.
pub open spec fn nav_spec(depth: nat, prev_depth: nat, prev_opens: bool, closer: bool) -> Seq<EventV> {
    if closer {
        (if prev_depth > depth {
            seq![EventV::Key(KeyName::Down, (prev_depth - depth) as usize)]
        } else {
            Seq::empty()
        }) + seq![EventV::Key(KeyName::End, 1)]
    } else if !prev_opens && depth < prev_depth {
        seq![
            EventV::Key(KeyName::Down, (prev_depth - depth) as usize),
            EventV::Key(KeyName::End, 1),
            EventV::Key(KeyName::Enter, 1),
        ]
    } else {
        seq![EventV::Key(KeyName::Enter, 1)]
    }
}

/// The line begins with `}` (e.g. `} else {`).
pub open spec fn starts_closer(c: Seq<char>) -> bool {
    c.len() > 0 && c[0] == '}'
}

/// The line ends with `{`.
pub open spec fn ends_opener(c: Seq<char>) -> bool {
    c.len() > 0 && c.last() == '{'
}

/// The events for the first `k` content lines.
pub open spec fn emit_lines(ls: Seq<SLineV>, k: nat) -> Seq<EventV>
    decreases k,
{
    if k == 0 || k > ls.len() {
        Seq::empty()
    } else {
        let line = ls[k - 1];
        let closer = starts_closer(line.content);
        let navs = if k > 1 {
            nav_spec(line.depth, ls[k - 2].depth, ends_opener(ls[k - 2].content), closer)
        } else {
            Seq::empty()
        };
        let text = if closer {
            line.content.skip(1)
        } else {
            line.content
        };
        emit_lines(ls, (k - 1) as nat) + navs + seq![EventV::Text(text)]
    }
}

/// The keystroke IR for a literal block.
pub open spec fn emit_struct_spec(cs: Seq<ChunkV>) -> Seq<EventV> {
    emit_lines(struct_lines_spec(cs), struct_lines_spec(cs).len())
}

/// Build a `Key` event.
fn key(k: KeyName, n: usize) -> (e: Event)
    ensures
        crate::editor::event_view(e) == EventV::Key(k, n),
{
    Event::Key { key: k, n }
}

/// Emit the navigation between the previous line and `line`. The three
/// same-result branches (descend after an opener, sibling at the same level,
/// deeper-without-opener) collapse to the trailing `Enter`.
fn nav(out: &mut Vec<Event>, depth: usize, prev_depth: usize, prev_opens: bool, closer: bool)
    ensures
        events_view(final(out)@) == events_view(old(out)@) + nav_spec(depth as nat, prev_depth as nat, prev_opens, closer),
{
    let ghost o0 = events_view(out@);
    if closer {
        if prev_depth > depth {
            out.push(key(KeyName::Down, prev_depth - depth));
        }
        out.push(key(KeyName::End, 1));
    } else if !prev_opens && depth < prev_depth {
        out.push(key(KeyName::Down, prev_depth - depth));
        out.push(key(KeyName::End, 1));
        out.push(key(KeyName::Enter, 1));
    } else {
        out.push(key(KeyName::Enter, 1));
    }
    assert(events_view(out@) =~= o0 + nav_spec(depth as nat, prev_depth as nat, prev_opens, closer));
}

/// Emit the keystroke IR for an `@literal` block under a smart auto-indent
/// editor.
pub fn emit_struct(template: &Vec<Chunk>) -> (r: Vec<Event>)
    ensures
        events_view(r@) == emit_struct_spec(cv(template)),
{
    let lines = struct_lines(template);
    let ghost ls = slines_view(lines@);
    let mut out: Vec<Event> = Vec::new();
    let mut prev_depth: usize = 0;
    let mut prev_opens = false;
    let mut i: usize = 0;
    assert(events_view(out@) == Seq::<EventV>::empty());
    while i < lines.len()
        invariant
            i <= lines@.len(),
            ls == slines_view(lines@),
            events_view(out@) == emit_lines(ls, i as nat),
            i > 0 ==> prev_depth == ls[i - 1].depth && prev_opens == ends_opener(ls[i - 1].content),
        decreases lines.len() - i,
    {
        let line = &lines[i];
        assert(ls[i as int] == sline_view(*line));
        let c = &line.content;
        let n = c.len();
        let closer = n > 0 && c[0] == '}';
        if i > 0 {
            nav(&mut out, line.depth, prev_depth, prev_opens, closer);
        }
        let text = if closer {
            crate::text::string_of_range(c.as_slice(), 1, n)
        } else {
            crate::text::string_of(c.as_slice())
        };
        proof {
            if closer {
                assert(c@.subrange(1, n as int) == c@.skip(1));
            }
        }
        let ghost before = events_view(out@);
        out.push(Event::Text(text));
        proof {
            assert(events_view(out@) == before.push(EventV::Text(text@)));
        }
        prev_depth = line.depth;
        prev_opens = n > 0 && c[n - 1] == '{';
        i = i + 1;
    }
    out
}

} // verus!
