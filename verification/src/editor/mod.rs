//! The editor model, separated from rendering so each editor behavior is an
//! independent, testable knob.
//!
//! ```text
//!   interpret(events, behaviors) -> EditorState   (how an editor reacts)
//!   movement_events(buffer, from, to) -> Event[]  (indent-independent moves)
//!   serialize(events)            -> Plover value string
//! ```
//!
//! A "profile" is just a [`Behaviors`] preset: `plain` = a dumb editor (all
//! features off), `smart` = auto-close + type-over + block-expand,
//! `smart_indent` adds auto-indent (so multi-level blocks need no literal
//! `\t` and no typed closers).
use vstd::prelude::*;

pub mod interpret;
pub mod landing;
pub mod movement;
pub mod serialize;
pub mod sim;

verus! {

/// A special (non-text) key the editor understands.
#[derive(Debug, Clone, Copy, PartialEq, Eq, Structural)]
pub enum KeyName {
    /// Cursor up one line.
    Up,
    /// Cursor down one line.
    Down,
    /// Cursor left one column.
    Left,
    /// Cursor right one column.
    Right,
    /// Cursor to line start.
    Home,
    /// Cursor to line end.
    End,
    /// Delete backward (a whole indent level inside leading indentation).
    BackSpace,
    /// Insert one indent unit.
    Tab,
    /// Newline (auto-indents / block-expands under `auto_indent`).
    Enter,
}

/// The Plover name of a key.
pub open spec fn key_name(k: KeyName) -> Seq<char> {
    match k {
        KeyName::Up => "Up"@,
        KeyName::Down => "Down"@,
        KeyName::Left => "Left"@,
        KeyName::Right => "Right"@,
        KeyName::Home => "Home"@,
        KeyName::End => "End"@,
        KeyName::BackSpace => "BackSpace"@,
        KeyName::Tab => "Tab"@,
        KeyName::Enter => "Enter"@,
    }
}

impl KeyName {
    /// The Plover key name, as it appears inside a `{#...}` group.
    pub fn name(self) -> (r: &'static str)
        ensures
            r@ == key_name(self),
    {
        match self {
            KeyName::Up => "Up",
            KeyName::Down => "Down",
            KeyName::Left => "Left",
            KeyName::Right => "Right",
            KeyName::Home => "Home",
            KeyName::End => "End",
            KeyName::BackSpace => "BackSpace",
            KeyName::Tab => "Tab",
            KeyName::Enter => "Enter",
        }
    }
}

/// One keystroke-IR event.
#[derive(Debug)]
pub enum Event {
    /// Literal characters typed (may trigger auto-close).
    Text(String),
    /// A special key, repeated `n` times.
    Key {
        /// Which key.
        key: KeyName,
        /// Repeat count.
        n: usize,
    },
    /// Record the cursor as landing `%n` (types nothing).
    Mark(u32),
}

/// Model of an event.
pub enum EventV {
    /// Typed characters.
    Text(Seq<char>),
    /// A special key and its repeat count.
    Key(KeyName, usize),
    /// A landing mark.
    Mark(u32),
}

/// The model of an event.
pub open spec fn event_view(e: Event) -> EventV {
    match e {
        Event::Text(s) => EventV::Text(s@),
        Event::Key { key, n } => EventV::Key(key, n),
        Event::Mark(m) => EventV::Mark(m),
    }
}

/// The models of a sequence of events.
pub open spec fn events_view(v: Seq<Event>) -> Seq<EventV> {
    v.map_values(|e: Event| event_view(e))
}

impl Event {
    /// A copy of this event.
    pub fn copy(&self) -> (r: Event)
        ensures
            event_view(r) == event_view(*self),
    {
        match self {
            Event::Text(s) => Event::Text(crate::text::copy_str(s.as_str())),
            Event::Key { key, n } => Event::Key { key: *key, n: *n },
            Event::Mark(m) => Event::Mark(*m),
        }
    }
}

/// The knobs that define an editor profile.
#[derive(Debug, Clone, Copy)]
pub struct Behaviors {
    /// Typing `(` `[` `{` (and quotes) inserts the matching closer.
    pub auto_close: bool,
    /// Typing a closer while the cursor sits on the matching auto-closer steps
    /// over it.
    pub type_over: bool,
    /// A new line is auto-indented to the current brace depth, and Enter
    /// between empty braces block-expands onto three lines; Backspace inside
    /// leading indentation deletes a whole `indent_unit` level.
    pub auto_indent: bool,
    /// One indentation level — VS Code's default is four spaces.
    pub indent_unit: &'static str,
}

/// One indentation level (four spaces, VS Code default).
pub const INDENT_UNIT: &'static str = "    ";

/// The dumb-editor profile.
pub open spec fn plain_spec() -> Behaviors {
    Behaviors { auto_close: false, type_over: false, auto_indent: false, indent_unit: INDENT_UNIT }
}

/// The auto-close + type-over + block-expand profile.
pub open spec fn smart_spec() -> Behaviors {
    Behaviors { auto_close: true, type_over: true, auto_indent: false, indent_unit: INDENT_UNIT }
}

/// The smart profile plus auto-indent.
pub open spec fn smart_indent_spec() -> Behaviors {
    Behaviors { auto_close: true, type_over: true, auto_indent: true, indent_unit: INDENT_UNIT }
}

impl Behaviors {
    /// A dumb editor: no auto-close, no type-over, no auto-indent.
    pub fn plain() -> (b: Behaviors)
        ensures
            !b.auto_close,
            !b.type_over,
            !b.auto_indent,
            b.indent_unit@ == seq![' ', ' ', ' ', ' '],
            b == plain_spec(),
    {
        proof {
            reveal_strlit("    ");
        }
        Behaviors { auto_close: false, type_over: false, auto_indent: false, indent_unit: INDENT_UNIT }
    }

    /// Auto-close + type-over + block-expand, but no auto-indent.
    pub fn smart() -> (b: Behaviors)
        ensures
            b.auto_close,
            b.type_over,
            !b.auto_indent,
            b.indent_unit@ == seq![' ', ' ', ' ', ' '],
            b == smart_spec(),
    {
        proof {
            reveal_strlit("    ");
        }
        Behaviors { auto_close: true, type_over: true, auto_indent: false, indent_unit: INDENT_UNIT }
    }

    /// `smart` plus auto-indent.
    pub fn smart_indent() -> (b: Behaviors)
        ensures
            b.auto_close,
            b.type_over,
            b.auto_indent,
            b.indent_unit@ == seq![' ', ' ', ' ', ' '],
            b == smart_indent_spec(),
    {
        proof {
            reveal_strlit("    ");
        }
        Behaviors { auto_close: true, type_over: true, auto_indent: true, indent_unit: INDENT_UNIT }
    }
}

/// The auto-supplied closer for an opener, if any.
pub open spec fn spec_auto_close_of(ch: char) -> Option<char> {
    if ch == '(' {
        Some(')')
    } else if ch == '[' {
        Some(']')
    } else if ch == '{' {
        Some('}')
    } else {
        None
    }
}

/// The auto-supplied closer for an opener, if any.
pub fn auto_close_of(ch: char) -> (r: Option<char>)
    ensures
        r == spec_auto_close_of(ch),
{
    if ch == '(' {
        Some(')')
    } else if ch == '[' {
        Some(']')
    } else if ch == '{' {
        Some('}')
    } else {
        None
    }
}

/// One of the three auto-supplied closers.
pub open spec fn spec_is_auto_close(ch: char) -> bool {
    ch == ')' || ch == ']' || ch == '}'
}

/// True for the three auto-supplied closers.
pub fn is_auto_close(ch: char) -> (b: bool)
    ensures
        b == spec_is_auto_close(ch),
{
    ch == ')' || ch == ']' || ch == '}'
}

/// One of the three auto-pairing quote characters.
pub open spec fn spec_is_quote(ch: char) -> bool {
    ch == '`' || ch == '"' || ch == '\''
}

/// True for the three auto-pairing quote characters.
pub fn is_quote(ch: char) -> (b: bool)
    ensures
        b == spec_is_quote(ch),
{
    ch == '`' || ch == '"' || ch == '\''
}

/// `s` ends with an open bracket (so the next line indents deeper).
pub open spec fn spec_ends_with_opener(s: Seq<char>) -> bool {
    s.len() > 0 && (s.last() == '(' || s.last() == '[' || s.last() == '{')
}

/// True if `s` ends with an open bracket (so the next line indents deeper).
pub fn ends_with_opener(s: &[char]) -> (b: bool)
    ensures
        b == spec_ends_with_opener(s@),
{
    let n = s.len();
    if n == 0 {
        return false;
    }
    let c = s[n - 1];
    c == '(' || c == '[' || c == '{'
}

/// The result of running a keystroke stream through an editor.
#[derive(Debug)]
pub struct EditorState {
    /// Final buffer contents.
    pub buffer: String,
    /// Final cursor offset (where the last keystroke left it).
    pub rest: usize,
    /// `%0`'s offset, or `None`.
    pub target: Option<usize>,
}

} // verus!
