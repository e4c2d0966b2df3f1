//! Passes C + D + E — turn a typed entry into a Plover dictionary value.
//!
//! The editor model lives in [`crate::editor`]: build a keystroke IR, interpret
//! it under a [`Behaviors`] preset, then serialize. A "profile" is just a
//! preset:
//!
//! * plain — a dumb editor: every closer typed, cursor walks back from the
//!   document end.
//! * smart — auto-close + type-over + block-expand: emit only what the
//!   editor won't supply (interior closers stay via type-over, the trailing run
//!   of auto-closers drops), movement computed against the result buffer.
//!
//! Non-terminal (type-append intermediate) strokes are identical in both:
//! strip all brackets, no newlines, no movement.
use vstd::prelude::*;
use crate::blocks::{emit_struct, emit_struct_spec};
use crate::editor::interpret::{interpret, run_spec};
use crate::editor::movement::{movement_error, movement_events, movement_spec};
use crate::editor::serialize::{serialize, serialize_spec};
use crate::editor::{events_view, Behaviors, Event, EventV, KeyName};
use crate::error::RenderError;
use crate::expand::{typed_view, typeds_view, TypedEntry, TypedV};
use crate::json_out::{
    changed_keys, distinct_keys, first_seen, insert_all, keys_of, last_value, law_insert_all, lookup, map_insert, OrderedMap,
};
use crate::parse::{chunk_kind, cv, lemma_cv, Chunk, ChunkV, LITERAL};
use crate::text::{chars_of, concat3, copy_str, push_str};

pub mod plain;
pub mod smart;

verus! {

broadcast use vstd::seq_lib::group_seq_properties;

/// One of the auto-supplied closers `)` `]` `}`.
pub open spec fn spec_is_closer(ch: char) -> bool {
    ch == ')' || ch == ']' || ch == '}'
}

/// One of the auto-pairing quote characters.
pub open spec fn spec_is_quote(ch: char) -> bool {
    ch == '`' || ch == '"' || ch == '\''
}

/// A delimiter stripped from a non-terminal partial.
pub open spec fn spec_is_bracket(ch: char) -> bool {
    ch == '(' || ch == ')' || ch == '[' || ch == ']' || ch == '<' || ch == '>' || ch == '{' || ch == '}'
}

/// `s` without any bracket.
pub open spec fn strip_brackets_spec(s: Seq<char>) -> Seq<char>
    decreases s.len(),
{
    if s.len() == 0 {
        Seq::empty()
    } else {
        let prev = strip_brackets_spec(s.drop_last());
        if spec_is_bracket(s.last()) {
            prev
        } else {
            prev.push(s.last())
        }
    }
}

/// True for any delimiter stripped from a non-terminal partial.
pub fn is_bracket(ch: char) -> (b: bool)
    ensures
        b == spec_is_bracket(ch),
{
    ch == '(' || ch == ')' || ch == '[' || ch == ']' || ch == '<' || ch == '>' || ch == '{' || ch == '}'
}

/// Append `s` without its brackets to `out`.
pub fn push_stripped(out: &mut String, s: &str)
    ensures
        final(out)@ == old(out)@ + strip_brackets_spec(s@),
{
    let c = chars_of(s);
    let ghost o0 = out@;
    let mut i: usize = 0;
    assert(c@.take(0) == Seq::<char>::empty());
    while i < c.len()
        invariant
            i <= c@.len(),
            c@ == s@,
            out@ == o0 + strip_brackets_spec(c@.take(i as int)),
        decreases c.len() - i,
    {
        proof {
            assert(c@.take(i + 1).drop_last() == c@.take(i as int));
            assert(c@.take(i + 1).last() == c@[i as int]);
        }
        if !is_bracket(c[i]) {
            out.push(c[i]);
        }
        i = i + 1;
    }
    assert(c@.take(i as int) == c@);
}

/// An intermediate keystroke token before coalescing into events.
pub enum Tok {
    /// One typed character.
    Ch(char),
    /// An Enter key.
    Enter,
    /// A landing mark `%n`.
    Mark(u32),
}

/// The characters of `s` as tokens.
pub open spec fn char_toks(s: Seq<char>) -> Seq<Tok> {
    Seq::new(s.len(), |i: int| ch_tok(s[i]))
}

/// The keystroke tokens of a resolved template (`None` on a chunk that should
/// have been resolved before rendering).
pub open spec fn tokens_spec(cs: Seq<ChunkV>, one_liner: bool) -> Option<Seq<Tok>>
    decreases cs.len(),
{
    if cs.len() == 0 {
        Some(Seq::empty())
    } else {
        match tokens_spec(cs.drop_last(), one_liner) {
            None => None,
            Some(prev) => match cs.last() {
                ChunkV::Lit(s) => Some(prev + char_toks(s)),
                ChunkV::Brace(open) => Some(prev.push(Tok::Ch(if open { '{' } else { '}' }))),
                ChunkV::BodyBreak => if one_liner {
                    Some(prev)
                } else {
                    Some(prev.push(Tok::Enter))
                },
                ChunkV::Newline => Some(prev.push(Tok::Enter)),
                ChunkV::Tab => Some(prev.push(Tok::Ch('\t'))),
                ChunkV::Landing(n) => Some(prev.push(Tok::Mark(n))),
                _ => None,
            },
        }
    }
}

/// The token typing `c`.
pub open spec fn ch_tok(c: char) -> Tok {
    Tok::Ch(c)
}

/// The token typing `c`.
fn make_ch(c: char) -> (t: Tok)
    ensures
        t == ch_tok(c),
{
    Tok::Ch(c)
}

/// The characters of `s` as tokens.
fn char_tok_vec(s: &str) -> (r: Vec<Tok>)
    ensures
        r@ == char_toks(s@),
{
    let c = chars_of(s);
    let mut out: Vec<Tok> = Vec::new();
    let mut k: usize = 0;
    let n = c.len();
    while k < n
        invariant
            k <= n,
            n == c@.len(),
            c@ == s@,
            out@.len() == k,
            forall|j: int| 0 <= j < k ==> #[trigger] out@[j] == ch_tok(c@[j]),
        decreases n - k,
    {
        let t = make_ch(c[k]);
        out.push(t);
        k = k + 1;
    }
    assert(out@ =~= char_toks(s@));
    out
}

/// The message for a chunk that should have been resolved before rendering.
pub open spec fn unresolved_msg(c: ChunkV) -> Seq<char> {
    "unresolved chunk \""@ + chunk_kind(c) + "\" reached the renderer"@
}

/// Why a template has no keystrokes: its first chunk without any.
pub open spec fn tokens_error(cs: Seq<ChunkV>, one_liner: bool) -> Seq<char>
    decreases cs.len(),
{
    if cs.len() == 0 {
        Seq::empty()
    } else if tokens_spec(cs.drop_last(), one_liner) is None {
        tokens_error(cs.drop_last(), one_liner)
    } else {
        unresolved_msg(cs.last())
    }
}

/// Once a prefix has failed, the whole template fails for the same reason.
proof fn lemma_tokens_error_prefix(cs: Seq<ChunkV>, one_liner: bool, i: int)
    requires
        0 <= i <= cs.len(),
        tokens_spec(cs.take(i), one_liner) is None,
    ensures
        tokens_spec(cs, one_liner) is None,
        tokens_error(cs, one_liner) == tokens_error(cs.take(i), one_liner),
    decreases cs.len() - i,
{
    if i < cs.len() {
        assert(cs.take(i + 1).drop_last() == cs.take(i));
        lemma_tokens_error_prefix(cs, one_liner, i + 1);
    } else {
        assert(cs.take(i) == cs);
    }
}

/// Turn a resolved template into keystroke tokens.
fn tokenize(template: &Vec<Chunk>, one_liner: bool) -> (r: Result<Vec<Tok>, RenderError>)
    ensures
        match tokens_spec(cv(template), one_liner) {
            Some(t) => r matches Ok(v) && v@ == t,
            None => r matches Err(e) && e.spec_message() == tokens_error(cv(template), one_liner),
        },
{
    let ghost cs = cv(template);
    proof {
        lemma_cv(template);
        assert(cs.take(0) == Seq::<ChunkV>::empty());
    }
    let mut toks: Vec<Tok> = Vec::new();
    let mut i: usize = 0;
    while i < template.len()
        invariant
            cs == cv(template),
            cs.len() == template@.len(),
            forall|j: int| 0 <= j < template@.len() ==> #[trigger] cs[j] == template@[j]@,
            i <= template@.len(),
            tokens_spec(cs.take(i as int), one_liner) == Some(toks@),
        decreases template.len() - i,
    {
        proof {
            assert(cs.take(i + 1).drop_last() == cs.take(i as int));
            assert(cs.take(i + 1).last() == cs[i as int]);
        }
        match &template[i] {
            Chunk::Lit(text) => {
                let mut v = char_tok_vec(text.as_str());
                toks.append(&mut v);
            },
            Chunk::Brace { open } => toks.push(Tok::Ch(if *open { '{' } else { '}' })),
            Chunk::BodyBreak => {
                if !one_liner {
                    toks.push(Tok::Enter);
                }
            },
            Chunk::Newline => toks.push(Tok::Enter),
            Chunk::Tab => toks.push(Tok::Ch('\t')),
            Chunk::Landing(n) => toks.push(Tok::Mark(*n)),
            other => {
                proof {
                    lemma_tokens_error_prefix(cs, one_liner, i + 1);
                }
                let m = concat3("unresolved chunk \"", other.kind_name(), "\" reached the renderer");
                return Err(RenderError::new(m));
            },
        }
        i = i + 1;
    }
    assert(cs.take(i as int) == cs);
    Ok(toks)
}

/// The tokens with the trailing run of auto-closers dropped (marks kept and
/// skipped over; the scan stops at the first other token).
pub open spec fn drop_trailing_spec(toks: Seq<Tok>) -> Seq<Tok>
    decreases toks.len(),
{
    if toks.len() == 0 {
        toks
    } else {
        match toks.last() {
            Tok::Mark(_) => drop_trailing_spec(toks.drop_last()).push(toks.last()),
            Tok::Ch(c) => if spec_is_closer(c) || spec_is_quote(c) {
                drop_trailing_spec(toks.drop_last())
            } else {
                toks
            },
            Tok::Enter => toks,
        }
    }
}

/// Drop the trailing run of auto-closers (the editor supplies them); marks are
/// skipped, and the scan stops at the first real token.
fn drop_trailing_closers(input: Vec<Tok>) -> (r: Vec<Tok>)
    ensures
        r@ == drop_trailing_spec(input@),
{
    let ghost orig = input@;
    let mut toks = input;
    let mut i = toks.len();
    while i > 0
        invariant
            i <= toks@.len(),
            orig == input@,
            drop_trailing_spec(orig) == drop_trailing_spec(toks@.take(i as int)) + toks@.skip(i as int),
            forall|j: int| i <= j < toks@.len() ==> toks@[j] is Mark,
        decreases i,
    {
        let ghost t = toks@[i - 1];
        proof {
            assert(toks@.take(i as int).drop_last() == toks@.take(i - 1));
            assert(toks@.take(i as int).last() == t);
        }
        match &toks[i - 1] {
            Tok::Mark(_) => {
                proof {
                    assert(drop_trailing_spec(toks@.take(i as int)) == drop_trailing_spec(toks@.take(i - 1)).push(t));
                    assert(toks@.skip(i - 1) == seq![t] + toks@.skip(i as int));
                    assert(drop_trailing_spec(toks@.take(i - 1)).push(t) + toks@.skip(i as int) == drop_trailing_spec(toks@.take(i - 1)) + (seq![t] + toks@.skip(i as int)));
                }
                i = i - 1;
            },
            Tok::Ch(ch) => {
                let ch = *ch;
                if spec_is_closer_exec(ch) || crate::editor::is_quote(ch) {
                    let ghost before = toks@;
                    assert(drop_trailing_spec(toks@.take(i as int)) == drop_trailing_spec(toks@.take(i - 1)));
                    toks.remove(i - 1);
                    proof {
                        assert(toks@.take(i - 1) == before.take(i - 1));
                        assert(toks@.skip(i - 1) == before.skip(i as int));
                        assert forall|j: int| i - 1 <= j < toks@.len() implies toks@[j] is Mark by {
                            assert(toks@[j] == before[j + 1]);
                        }
                    }
                    i = i - 1;
                } else {
                    proof {
                        assert(drop_trailing_spec(toks@.take(i as int)) == toks@.take(i as int));
                        assert(toks@.take(i as int) + toks@.skip(i as int) == toks@);
                    }
                    return toks;
                }
            },
            Tok::Enter => {
                proof {
                    assert(drop_trailing_spec(toks@.take(i as int)) == toks@.take(i as int));
                    assert(toks@.take(i as int) + toks@.skip(i as int) == toks@);
                }
                return toks;
            },
        }
    }
    proof {
        assert(toks@.take(0) == Seq::<Tok>::empty());
        assert(toks@.skip(0) == toks@);
    }
    toks
}

/// True for the auto-supplied closers `)` `]` `}`.
fn spec_is_closer_exec(ch: char) -> (b: bool)
    ensures
        b == spec_is_closer(ch),
{
    ch == ')' || ch == ']' || ch == '}'
}

/// The pending run flushed as a text event, if nonempty.
pub open spec fn flush_spec(evs: Seq<EventV>, run: Seq<char>) -> Seq<EventV> {
    if run.len() > 0 {
        evs.push(EventV::Text(run))
    } else {
        evs
    }
}

/// Coalescing state after the first tokens: events and the pending run.
pub open spec fn coalesce_fold(toks: Seq<Tok>) -> (Seq<EventV>, Seq<char>)
    decreases toks.len(),
{
    if toks.len() == 0 {
        (Seq::empty(), Seq::empty())
    } else {
        let (evs, run) = coalesce_fold(toks.drop_last());
        match toks.last() {
            Tok::Ch(c) => (evs, run.push(c)),
            Tok::Enter => (flush_spec(evs, run).push(EventV::Key(KeyName::Enter, 1)), Seq::empty()),
            Tok::Mark(n) => (flush_spec(evs, run).push(EventV::Mark(n)), Seq::empty()),
        }
    }
}

/// Adjacent character tokens coalesced into text events.
pub open spec fn coalesce_spec(toks: Seq<Tok>) -> Seq<EventV> {
    flush_spec(coalesce_fold(toks).0, coalesce_fold(toks).1)
}

/// Flush a pending character run into a text event.
fn flush_run(run: &mut String, events: &mut Vec<Event>)
    ensures
        events_view(final(events)@) == flush_spec(events_view(old(events)@), old(run)@),
        final(run)@ == Seq::<char>::empty(),
{
    if !run.as_str().is_empty() {
        let mut taken = String::new();
        std::mem::swap(&mut taken, run);
        let ghost before = events@;
        events.push(Event::Text(taken));
        assert(events_view(events@) == events_view(before).push(EventV::Text(taken@)));
    } else {
        *run = String::new();
    }
}

/// Coalesce adjacent character tokens into text events.
fn coalesce(toks: &Vec<Tok>) -> (r: Vec<Event>)
    ensures
        events_view(r@) == coalesce_spec(toks@),
{
    let mut events: Vec<Event> = Vec::new();
    let mut run = String::new();
    let mut i: usize = 0;
    assert(toks@.take(0) == Seq::<Tok>::empty());
    while i < toks.len()
        invariant
            i <= toks@.len(),
            (events_view(events@), run@) == coalesce_fold(toks@.take(i as int)),
        decreases toks.len() - i,
    {
        proof {
            assert(toks@.take(i + 1).drop_last() == toks@.take(i as int));
            assert(toks@.take(i + 1).last() == toks@[i as int]);
        }
        match &toks[i] {
            Tok::Ch(c) => run.push(*c),
            Tok::Enter => {
                flush_run(&mut run, &mut events);
                let ghost before = events@;
                events.push(Event::Key { key: KeyName::Enter, n: 1 });
                assert(events_view(events@) == events_view(before).push(EventV::Key(KeyName::Enter, 1)));
            },
            Tok::Mark(n) => {
                flush_run(&mut run, &mut events);
                let ghost before = events@;
                events.push(Event::Mark(*n));
                assert(events_view(events@) == events_view(before).push(EventV::Mark(*n)));
            },
        }
        i = i + 1;
    }
    assert(toks@.take(i as int) == toks@);
    flush_run(&mut run, &mut events);
    events
}

/// The content keystrokes of a terminal template under `b`.
pub open spec fn emit_content_spec(cs: Seq<ChunkV>, one_liner: bool, b: Behaviors) -> Option<Seq<EventV>> {
    match tokens_spec(cs, one_liner) {
        None => None,
        Some(t) => Some(coalesce_spec(if b.auto_close { drop_trailing_spec(t) } else { t })),
    }
}

/// The content keystrokes for a terminal entry under the given behaviors.
fn emit_content(template: &Vec<Chunk>, one_liner: bool, b: Behaviors) -> (r: Result<Vec<Event>, RenderError>)
    ensures
        match emit_content_spec(cv(template), one_liner, b) {
            Some(evs) => r matches Ok(v) && events_view(v@) == evs,
            None => r matches Err(e) && e.spec_message() == tokens_error(cv(template), one_liner),
        },
{
    let mut toks = match tokenize(template, one_liner) {
        Ok(t) => t,
        Err(e) => {
            return Err(e);
        },
    };
    if b.auto_close {
        toks = drop_trailing_closers(toks);
    }
    Ok(coalesce(&toks))
}

/// The bracket-stripped partial text of a non-terminal template.
pub open spec fn non_terminal_spec(cs: Seq<ChunkV>) -> Seq<char>
    decreases cs.len(),
{
    if cs.len() == 0 {
        Seq::empty()
    } else {
        let prev = non_terminal_spec(cs.drop_last());
        match cs.last() {
            ChunkV::Lit(t) => prev + strip_brackets_spec(t),
            ChunkV::Tab => prev.push('\t'),
            _ => prev,
        }
    }
}

/// Non-terminal: bracket-stripped partial, no newlines, no movement.
fn non_terminal_text(template: &Vec<Chunk>) -> (r: String)
    ensures
        r@ == non_terminal_spec(cv(template)),
{
    let ghost cs = cv(template);
    proof {
        lemma_cv(template);
        assert(cs.take(0) == Seq::<ChunkV>::empty());
    }
    let mut text = String::new();
    let mut i: usize = 0;
    while i < template.len()
        invariant
            cs == cv(template),
            cs.len() == template@.len(),
            forall|j: int| 0 <= j < template@.len() ==> #[trigger] cs[j] == template@[j]@,
            i <= template@.len(),
            text@ == non_terminal_spec(cs.take(i as int)),
        decreases template.len() - i,
    {
        proof {
            assert(cs.take(i + 1).drop_last() == cs.take(i as int));
            assert(cs.take(i + 1).last() == cs[i as int]);
        }
        match &template[i] {
            Chunk::Lit(t) => push_stripped(&mut text, t.as_str()),
            Chunk::Tab => text.push('\t'),
            _ => {},
        }
        i = i + 1;
    }
    assert(cs.take(i as int) == cs);
    text
}

/// Content keystrokes, then (when `%0` landed somewhere) the movement from
/// the resting cursor back to it.
pub open spec fn content_move_spec(e: TypedV, b: Behaviors) -> Option<Seq<EventV>> {
    match emit_content_spec(e.template, e.one_liner, b) {
        None => None,
        Some(evs) => {
            let st = run_spec(evs, b);
            match st.1 {
                None => Some(evs),
                Some(t) => match movement_spec(st.0.buffer, st.0.cursor, t) {
                    None => None,
                    Some(m) => Some(evs + m),
                },
            }
        },
    }
}

/// Why a terminal entry has no keystroke stream: a chunk without
/// keystrokes, else a `%0` the cursor cannot walk back to.
pub open spec fn content_error(e: TypedV, b: Behaviors) -> Seq<char> {
    match emit_content_spec(e.template, e.one_liner, b) {
        None => tokens_error(e.template, e.one_liner),
        Some(evs) => {
            let st = run_spec(evs, b);
            movement_error(st.0.buffer, st.0.cursor, st.1->0)
        },
    }
}

/// The full keystroke stream a profile types for one entry.
pub open spec fn entry_events_spec(e: TypedV, b: Behaviors) -> Option<Seq<EventV>> {
    if !e.terminal {
        Some(seq![EventV::Text(non_terminal_spec(e.template))])
    } else if b.auto_close && e.source.flags.has(LITERAL) {
        Some(emit_struct_spec(e.template))
    } else {
        content_move_spec(e, b)
    }
}

/// Content keystrokes plus the movement that lands the cursor on `%0`.
fn content_and_move(entry: &TypedEntry, b: Behaviors) -> (r: Result<Vec<Event>, RenderError>)
    ensures
        match content_move_spec(typed_view(*entry), b) {
            Some(evs) => r matches Ok(v) && events_view(v@) == evs,
            None => r matches Err(e) && e.spec_message() == content_error(typed_view(*entry), b),
        },
{
    let mut events = match emit_content(&entry.template, entry.one_liner, b) {
        Ok(v) => v,
        Err(e) => {
            return Err(e);
        },
    };
    let state = interpret(events.as_slice(), b);
    if let Some(target) = state.target {
        match movement_events(state.buffer.as_str(), state.rest, target) {
            Ok(mut m) => {
                let ghost a = events@;
                let ghost c = m@;
                events.append(&mut m);
                assert(events_view(events@) =~= events_view(a) + events_view(c));
            },
            Err(e) => {
                return Err(e);
            },
        }
    }
    Ok(events)
}

/// The full keystroke stream a profile types for one entry.
fn entry_events(entry: &TypedEntry, b: Behaviors) -> (r: Result<Vec<Event>, RenderError>)
    ensures
        match entry_events_spec(typed_view(*entry), b) {
            Some(evs) => r matches Ok(v) && events_view(v@) == evs,
            None => r matches Err(e) && e.spec_message() == content_error(typed_view(*entry), b),
        },
{
    if !entry.terminal {
        let mut v: Vec<Event> = Vec::new();
        let t = non_terminal_text(&entry.template);
        v.push(Event::Text(t));
        assert(events_view(v@) == seq![EventV::Text(t@)]);
        return Ok(v);
    }
    if b.auto_close && entry.source.flags.literal() {
        return Ok(emit_struct(&entry.template));
    }
    content_and_move(entry, b)
}

/// The Plover value a keystroke stream becomes: serialized, wrapped in `{^}`
/// affixes.
pub open spec fn wrap_spec(evs: Seq<EventV>) -> Seq<char> {
    "{^}"@ + serialize_spec(evs) + "{^}"@
}

/// Wrap a serialized keystroke stream in the Plover `{^}` affixes.
fn wrap(stroke: &str, events: &Vec<Event>) -> (r: (String, String))
    ensures
        r.0@ == stroke@,
        r.1@ == wrap_spec(events_view(events@)),
{
    let s = serialize(events.as_slice());
    let v = concat3("{^}", s.as_str(), "{^}");
    (copy_str(stroke), v)
}

/// The `(key, value)` a profile renders one entry to.
pub open spec fn render_spec(e: TypedV, b: Behaviors) -> Option<(Seq<char>, Seq<char>)> {
    match entry_events_spec(e, b) {
        None => None,
        Some(evs) => Some((e.stroke, wrap_spec(evs))),
    }
}

/// Render one entry under the behaviors `b`.
pub fn render_with(entry: &TypedEntry, b: Behaviors) -> (r: Result<(String, String), RenderError>)
    ensures
        match render_spec(typed_view(*entry), b) {
            Some(kv) => r matches Ok(p) && p.0@ == kv.0 && p.1@ == kv.1,
            None => r matches Err(e) && e.spec_message() == content_error(typed_view(*entry), b),
        },
{
    match entry_events(entry, b) {
        Ok(evs) => Ok(wrap(entry.stroke.as_str(), &evs)),
        Err(e) => Err(e),
    }
}

/// A built dictionary and the strokes that collided with a different value.
pub struct BuildResult {
    /// Stroke → Plover value, in insertion order.
    pub dict: OrderedMap,
    /// Strokes that appeared twice with DIFFERENT values.
    pub collisions: Vec<String>,
}

/// The dictionary and collisions after rendering the first entries: each
/// key binds its latest value, and a key whose new value differs from the
/// one already bound is recorded as a collision.
pub open spec fn build_fold(es: Seq<TypedV>, b: Behaviors) -> Option<(Seq<(Seq<char>, Seq<char>)>, Seq<Seq<char>>)>
    decreases es.len(),
{
    if es.len() == 0 {
        Some((Seq::empty(), Seq::empty()))
    } else {
        match (build_fold(es.drop_last(), b), render_spec(es.last(), b)) {
            (Some((d, cols)), Some((k, v))) => {
                let collide = lookup(d, k) matches Some(p) && p != v;
                Some((map_insert(d, k, v), if collide { cols.push(k) } else { cols }))
            },
            _ => None,
        }
    }
}

/// Why a dictionary cannot be built: the first entry that fails to render.
pub open spec fn build_error(es: Seq<TypedV>, b: Behaviors) -> Seq<char>
    decreases es.len(),
{
    if es.len() == 0 {
        Seq::empty()
    } else if build_fold(es.drop_last(), b) is None {
        build_error(es.drop_last(), b)
    } else {
        content_error(es.last(), b)
    }
}

proof fn lemma_build_none(es: Seq<TypedV>, b: Behaviors, j: int)
    requires
        0 <= j <= es.len(),
        build_fold(es.take(j), b) is None,
    ensures
        build_fold(es, b) is None,
        build_error(es, b) == build_error(es.take(j), b),
    decreases es.len() - j,
{
    if j < es.len() {
        assert(es.take(j + 1).drop_last() == es.take(j));
        lemma_build_none(es, b, j + 1);
    } else {
        assert(es.take(j) == es);
    }
}

/// Every entry renders under `b`.
pub open spec fn all_render(es: Seq<TypedV>, b: Behaviors) -> bool {
    forall|i: int| 0 <= i < es.len() ==> (#[trigger] render_spec(es[i], b)) is Some
}

/// The `(key, value)` of every entry, in entry order.
pub open spec fn rendered(es: Seq<TypedV>, b: Behaviors) -> Seq<(Seq<char>, Seq<char>)> {
    Seq::new(es.len(), |i: int| render_spec(es[i], b).unwrap())
}

proof fn lemma_build_fold_pairs(es: Seq<TypedV>, b: Behaviors)
    ensures
        build_fold(es, b) == (if all_render(es, b) {
            Some((insert_all(rendered(es, b)), changed_keys(rendered(es, b))))
        } else {
            None::<(Seq<(Seq<char>, Seq<char>)>, Seq<Seq<char>>)>
        }),
    decreases es.len(),
{
    if es.len() > 0 {
        let q = es.drop_last();
        lemma_build_fold_pairs(q, b);
        if all_render(es, b) {
            assert forall|i: int| 0 <= i < q.len() implies (#[trigger] render_spec(q[i], b)) is Some by {
                assert(q[i] == es[i]);
                assert(render_spec(es[i], b) is Some);
            }
            assert(render_spec(es[es.len() - 1], b) is Some);
            let rs = rendered(es, b);
            assert(rs.drop_last() =~= rendered(q, b));
            law_insert_all(rendered(q, b));
            let kv = render_spec(es.last(), b).unwrap();
            assert(rs.last() == kv);
            assert(insert_all(rs) == map_insert(insert_all(rendered(q, b)), kv.0, kv.1));
            assert(lookup(insert_all(rendered(q, b)), kv.0) == last_value(rendered(q, b), kv.0));
        } else {
            let i = choose|i: int| 0 <= i < es.len() && !((#[trigger] render_spec(es[i], b)) is Some);
            if i < q.len() {
                assert(q[i] == es[i]);
            }
        }
    }
}

proof fn lemma_build_first_error(es: Seq<TypedV>, b: Behaviors, k: int)
    requires
        0 <= k < es.len(),
        render_spec(es[k], b) is None,
        forall|j: int| 0 <= j < k ==> (#[trigger] render_spec(es[j], b)) is Some,
    ensures
        build_error(es, b) == content_error(es[k], b),
    decreases es.len(),
{
    let q = es.drop_last();
    lemma_build_fold_pairs(q, b);
    if k < q.len() {
        assert(q[k] == es[k]);
        assert forall|j: int| 0 <= j < k implies (#[trigger] render_spec(q[j], b)) is Some by {
            assert(q[j] == es[j]);
            assert(render_spec(es[j], b) is Some);
        }
        assert(!all_render(q, b));
        lemma_build_first_error(q, b, k);
    } else {
        assert forall|i: int| 0 <= i < q.len() implies (#[trigger] render_spec(q[i], b)) is Some by {
            assert(q[i] == es[i]);
            assert(render_spec(es[i], b) is Some);
        }
    }
}

/// Building a dictionary succeeds exactly when every entry renders. Then
/// its keys are the rendered keys in order of first appearance, each key
/// holds the value of the last entry that renders to it, and the
/// collisions list, in entry order, the key of each entry whose value
/// differs from the one its key held just before. Otherwise it fails with
/// the error of the first entry that does not render.
pub proof fn law_build_dict(es: Seq<TypedV>, b: Behaviors)
    ensures
        forall|k: int|
            0 <= k < es.len() && (#[trigger] render_spec(es[k], b)) is None && (forall|j: int|
                0 <= j < k ==> (#[trigger] render_spec(es[j], b)) is Some) ==> build_error(es, b) == content_error(
                es[k],
                b,
            ),
        build_fold(es, b) is Some <==> all_render(es, b),
        build_fold(es, b) matches Some((d, cols)) ==> {
            &&& distinct_keys(d)
            &&& keys_of(d) == first_seen(keys_of(rendered(es, b)))
            &&& forall|k: Seq<char>| #[trigger] lookup(d, k) == last_value(rendered(es, b), k)
            &&& cols == changed_keys(rendered(es, b))
        },
{
    lemma_build_fold_pairs(es, b);
    law_insert_all(rendered(es, b));
    assert forall|k: int|
        0 <= k < es.len() && (#[trigger] render_spec(es[k], b)) is None && (forall|j: int|
            0 <= j < k ==> (#[trigger] render_spec(es[j], b)) is Some) implies build_error(es, b) == content_error(
            es[k],
            b,
        ) by {
        lemma_build_first_error(es, b, k);
    }
}

/// Render many entries into a dictionary, flagging value collisions.
///
/// Fails on the first entry that fails to render.
pub fn build_dict(entries: &Vec<TypedEntry>, b: Behaviors) -> (r: Result<BuildResult, RenderError>)
    ensures
        match build_fold(typeds_view(entries@), b) {
            Some((d, cols)) => r matches Ok(res) && res.dict.wf() && res.dict@ == d && crate::parse::strs_view(res.collisions@) == cols,
            None => r matches Err(e) && e.spec_message() == build_error(typeds_view(entries@), b),
        },
{
    let ghost es = typeds_view(entries@);
    let mut dict = OrderedMap::new();
    let mut collisions: Vec<String> = Vec::new();
    let mut i: usize = 0;
    assert(es.take(0) == Seq::<TypedV>::empty());
    while i < entries.len()
        invariant
            i <= entries@.len(),
            es == typeds_view(entries@),
            dict.wf(),
            build_fold(es.take(i as int), b) == Some((dict@, crate::parse::strs_view(collisions@))),
        decreases entries.len() - i,
    {
        proof {
            assert(es.take(i + 1).drop_last() == es.take(i as int));
            assert(es.take(i + 1).last() == typed_view(entries@[i as int]));
        }
        let (key, value) = match render_with(&entries[i], b) {
            Ok(kv) => kv,
            Err(e) => {
                proof {
                    lemma_build_none(es, b, i + 1);
                }
                return Err(e);
            },
        };
        let k2 = copy_str(key.as_str());
        let v2 = copy_str(value.as_str());
        let prev = dict.insert(key, value);
        let collide = match &prev {
            Some(p) => !crate::text::str_eq(p.as_str(), v2.as_str()),
            None => false,
        };
        if collide {
            let ghost before = collisions@;
            collisions.push(k2);
            assert(crate::parse::strs_view(collisions@) == crate::parse::strs_view(before).push(k2@));
        }
        i = i + 1;
    }
    assert(es.take(i as int) == es);
    Ok(BuildResult { dict, collisions })
}

/// A non-terminal (type-append intermediate) entry renders to the same
/// value in every profile: its bracket-stripped partial, no newlines, no
/// movement, `@literal` entries included.
pub proof fn law_non_terminal_profile_independent(e: TypedV, b: Behaviors)
    requires
        !e.terminal,
    ensures
        render_spec(e, b) == render_spec(e, crate::editor::plain_spec()),
        render_spec(e, b) == Some((e.stroke, wrap_spec(seq![EventV::Text(non_terminal_spec(e.template))]))),
{
}

/// The landing marks among `toks`, in order.
pub open spec fn marks_in(toks: Seq<Tok>) -> Seq<Tok>
    decreases toks.len(),
{
    if toks.len() == 0 {
        toks
    } else if toks.last() is Mark {
        marks_in(toks.drop_last()).push(toks.last())
    } else {
        marks_in(toks.drop_last())
    }
}

/// A token the auto-closing editor supplies itself: one of the closers
/// `)` `]` `}` or one of the quotes `` ` `` `"` `'`.
pub open spec fn editor_supplied(t: Tok) -> bool {
    t matches Tok::Ch(c) && (c == ')' || c == ']' || c == '}' || c == '`' || c == '"' || c == '\'')
}

proof fn lemma_drop_trailing_split(toks: Seq<Tok>) -> (k: int)
    ensures
        0 <= k <= toks.len(),
        drop_trailing_spec(toks) == toks.take(k) + marks_in(toks.skip(k)),
        forall|j: int| k <= j < toks.len() ==> (#[trigger] toks[j]) is Mark || editor_supplied(toks[j]),
        k > 0 ==> !(toks[k - 1] is Mark) && !editor_supplied(toks[k - 1]),
    decreases toks.len(),
{
    if toks.len() == 0 {
        assert(toks.take(0) =~= toks);
        assert(marks_in(toks.skip(0)) == Seq::<Tok>::empty());
        0
    } else {
        let q = toks.drop_last();
        let t = toks.last();
        let keep_all = match t {
            Tok::Mark(_) => false,
            Tok::Ch(c) => !(spec_is_closer(c) || spec_is_quote(c)),
            Tok::Enter => true,
        };
        if keep_all {
            let k = toks.len() as int;
            assert(toks.take(k) =~= toks);
            assert(toks.skip(k) =~= Seq::<Tok>::empty());
            assert(marks_in(toks.skip(k)) == Seq::<Tok>::empty());
            assert(toks[k - 1] == t);
            k
        } else {
            let k = lemma_drop_trailing_split(q);
            assert(toks.skip(k).drop_last() =~= q.skip(k));
            assert(toks.skip(k).last() == t);
            assert(toks.take(k) =~= q.take(k));
            assert forall|j: int| k <= j < toks.len() implies (#[trigger] toks[j]) is Mark || editor_supplied(toks[j]) by {
                if j < q.len() {
                    assert(toks[j] == q[j]);
                }
            }
            if k > 0 {
                assert(toks[k - 1] == q[k - 1]);
            }
            if t is Mark {
                assert(drop_trailing_spec(toks) =~= toks.take(k) + marks_in(toks.skip(k)));
            }
            k
        }
    }
}

/// Dropping the trailing auto-closers removes only characters the
/// auto-closing editor supplies itself (`)` `]` `}` and the quotes) from the
/// end of the keystrokes, keeps the landing marks among them in order, and
/// stops at the first other token: some prefix is kept whole, everything
/// after it is a mark or an editor-supplied character, and the last token
/// of the kept prefix is neither.
pub proof fn law_drop_trailing_only_editor_supplied(toks: Seq<Tok>)
    ensures
        exists|k: int|
            {
                &&& 0 <= k <= toks.len()
                &&& drop_trailing_spec(toks) == toks.take(k) + marks_in(toks.skip(k))
                &&& forall|j: int|
                    k <= j < toks.len() ==> ((#[trigger] toks[j]) is Mark || (toks[j] matches Tok::Ch(c) && (c == ')'
                        || c == ']' || c == '}' || c == '`' || c == '"' || c == '\'')))
                &&& k > 0 ==> !(toks[k - 1] is Mark)
                &&& k > 0 ==> !(toks[k - 1] matches Tok::Ch(c) && (c == ')' || c == ']' || c == '}' || c == '`' || c
                    == '"' || c == '\''))
            },
{
    let k = lemma_drop_trailing_split(toks);
    assert(0 <= k <= toks.len() && drop_trailing_spec(toks) == toks.take(k) + marks_in(toks.skip(k)));
}

/// The text a non-terminal template spells before anything is stripped:
/// its literal text in order, with a tab for each tab chunk.
pub open spec fn partial_source(cs: Seq<ChunkV>) -> Seq<char>
    decreases cs.len(),
{
    if cs.len() == 0 {
        Seq::empty()
    } else {
        let prev = partial_source(cs.drop_last());
        match cs.last() {
            ChunkV::Lit(t) => prev + t,
            ChunkV::Tab => prev.push('\t'),
            _ => prev,
        }
    }
}

/// A character a non-terminal partial keeps: anything but the delimiters
/// `(` `)` `[` `]` `<` `>` `{` `}`.
pub open spec fn kept_in_partial(c: char) -> bool {
    !(c == '(' || c == ')' || c == '[' || c == ']' || c == '<' || c == '>' || c == '{' || c == '}')
}

proof fn lemma_strip_is_filter(t: Seq<char>)
    ensures
        strip_brackets_spec(t) == t.filter(|c: char| kept_in_partial(c)),
    decreases t.len(),
{
    reveal(Seq::filter);
    if t.len() > 0 {
        lemma_strip_is_filter(t.drop_last());
    }
}

/// A non-terminal partial is its template's literal text (a tab per tab
/// chunk) with exactly the delimiters `(` `)` `[` `]` `<` `>` `{` `}`
/// removed: every other character is kept, in order, and no delimiter is
/// left.
pub proof fn law_non_terminal_strips_delimiters(cs: Seq<ChunkV>)
    ensures
        non_terminal_spec(cs) == partial_source(cs).filter(|c: char| kept_in_partial(c)),
        forall|i: int|
            0 <= i < non_terminal_spec(cs).len() ==> !(#[trigger] non_terminal_spec(cs)[i] == '(' || non_terminal_spec(
                cs,
            )[i] == ')' || non_terminal_spec(cs)[i] == '[' || non_terminal_spec(cs)[i] == ']' || non_terminal_spec(
                cs,
            )[i] == '<' || non_terminal_spec(cs)[i] == '>' || non_terminal_spec(cs)[i] == '{' || non_terminal_spec(
                cs,
            )[i] == '}'),
    decreases cs.len(),
{
    broadcast use vstd::seq_lib::group_filter_ensures;
    if cs.len() > 0 {
        let q = cs.drop_last();
        law_non_terminal_strips_delimiters(q);
        let p = partial_source(q);
        match cs.last() {
            ChunkV::Lit(t) => {
                lemma_strip_is_filter(t);
                Seq::filter_distributes_over_add(p, t, |c: char| kept_in_partial(c));
            },
            ChunkV::Tab => {
                reveal(Seq::filter);
                assert(p.push('\t').drop_last() =~= p);
            },
            _ => {},
        }
    }
    let r = non_terminal_spec(cs);
    assert forall|i: int| 0 <= i < r.len() implies kept_in_partial(#[trigger] r[i]) by {
        partial_source(cs).lemma_filter_pred(|c: char| kept_in_partial(c), i);
    }
}

} // verus!
