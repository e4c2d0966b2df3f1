//! Serialize a keystroke stream to a Plover value string, and the text escaper
//! it uses.
use vstd::prelude::*;
use super::sim::at;
use super::{event_view, events_view, key_name, Event, EventV, KeyName};
use crate::text::{chars_of, push_str};

verus! {

broadcast use vstd::seq_lib::group_seq_properties;

/// End of the run of spaces starting at `i`.
pub open spec fn space_end(c: Seq<char>, i: int) -> int
    decreases c.len() - i,
{
    if 0 <= i < c.len() && c[i] == ' ' {
        space_end(c, i + 1)
    } else {
        i
    }
}

/// `s` repeated `n` times.
pub open spec fn repeat_str(s: Seq<char>, n: nat) -> Seq<char>
    decreases n,
{
    if n == 0 {
        Seq::empty()
    } else {
        repeat_str(s, (n - 1) as nat) + s
    }
}

/// The escape of the space run starting at `i`: a lone internal space with a
/// real character on both sides stays a space; any other run becomes one
/// `{^ ^}` per space (Plover would eat it otherwise).
pub open spec fn space_run_text(c: Seq<char>, i: int) -> Seq<char> {
    let j = space_end(c, i);
    let run = j - i;
    let before = if i > 0 { at(c, i - 1) } else { None };
    let after = at(c, j);
    let safe = run == 1 && (before matches Some(x) && x != '\n') && (after matches Some(y) && y != '\n');
    if safe {
        seq![' ']
    } else {
        repeat_str("{^ ^}"@, run as nat)
    }
}

/// The escape of one non-space character.
pub open spec fn escaped_char(ch: char) -> Seq<char> {
    if ch == '{' {
        seq!['\\', '{']
    } else if ch == '}' {
        seq!['\\', '}']
    } else if ch == '\n' {
        seq!['\\', 'n']
    } else if ch == '\t' {
        seq!['\\', 't']
    } else {
        seq![ch]
    }
}

/// The escape of `c[i..]`.
pub open spec fn escape_from(c: Seq<char>, i: int) -> Seq<char>
    decreases c.len() - i,
{
    if i < 0 || i >= c.len() {
        Seq::empty()
    } else if c[i] == ' ' {
        let j = space_end(c, i);
        if j <= i || j > c.len() {
            Seq::empty()
        } else {
            space_run_text(c, i) + escape_from(c, j)
        }
    } else {
        escaped_char(c[i]) + escape_from(c, i + 1)
    }
}

/// Literal text escaped for a Plover value.
pub open spec fn escape_spec(s: Seq<char>) -> Seq<char> {
    escape_from(s, 0)
}

proof fn lemma_space_end(c: Seq<char>, i: int, k: int)
    requires
        0 <= i <= k <= c.len(),
        forall|j: int| i <= j < k ==> c[j] == ' ',
        k < c.len() ==> c[k] != ' ',
    ensures
        space_end(c, i) == k,
    decreases k - i,
{
    if i < k {
        lemma_space_end(c, i + 1, k);
    }
}

/// Escape a run of spaces, returning the index just past the run.
fn escape_space_run(chars: &Vec<char>, start: usize, out: &mut String) -> (j: usize)
    requires
        start < chars@.len(),
        chars@[start as int] == ' ',
    ensures
        j == space_end(chars@, start as int),
        start < j <= chars@.len(),
        final(out)@ == old(out)@ + space_run_text(chars@, start as int),
{
    let n = chars.len();
    let mut j = start;
    while j < n && chars[j] == ' '
        invariant
            start <= j <= n,
            n == chars@.len(),
            forall|k: int| start <= k < j ==> chars@[k] == ' ',
        decreases n - j,
    {
        j = j + 1;
    }
    proof {
        lemma_space_end(chars@, start as int, j as int);
    }
    let run = j - start;
    let before = if start > 0 {
        Some(chars[start - 1])
    } else {
        None
    };
    let after = if j < n {
        Some(chars[j])
    } else {
        None
    };
    let safe = run == 1 && (match before {
        Some(c) => c != '\n',
        None => false,
    }) && (match after {
        Some(c) => c != '\n',
        None => false,
    });
    if safe {
        out.push(' ');
    } else {
        let ghost o0 = out@;
        let mut k: usize = 0;
        while k < run
            invariant
                k <= run,
                out@ == o0 + repeat_str("{^ ^}"@, k as nat),
            decreases run - k,
        {
            push_str(out, "{^ ^}");
            k = k + 1;
        }
    }
    j
}

/// Append one non-space character, escaping the Plover-significant ones.
fn push_escaped_char(ch: char, out: &mut String)
    ensures
        final(out)@ == old(out)@ + escaped_char(ch),
{
    if ch == '{' {
        out.push('\\');
        out.push('{');
    } else if ch == '}' {
        out.push('\\');
        out.push('}');
    } else if ch == '\n' {
        out.push('\\');
        out.push('n');
    } else if ch == '\t' {
        out.push('\\');
        out.push('t');
    } else {
        out.push(ch);
    }
}

/// Escape literal text for a Plover value (spaces at boundaries need `{^ ^}`).
pub fn escape_text(s: &str) -> (r: String)
    ensures
        r@ == escape_spec(s@),
{
    let chars = chars_of(s);
    let mut out = String::new();
    let mut i: usize = 0;
    let n = chars.len();
    while i < n
        invariant
            i <= n,
            n == chars@.len(),
            escape_spec(chars@) == out@ + escape_from(chars@, i as int),
        decreases n - i,
    {
        let ch = chars[i];
        if ch == ' ' {
            let ghost o0 = out@;
            let j = escape_space_run(&chars, i, &mut out);
            proof {
                assert(o0 + (space_run_text(chars@, i as int) + escape_from(chars@, j as int)) == out@ + escape_from(chars@, j as int));
            }
            i = j;
        } else {
            let ghost o0 = out@;
            push_escaped_char(ch, &mut out);
            proof {
                assert(o0 + (escaped_char(ch) + escape_from(chars@, i + 1)) == out@ + escape_from(chars@, i + 1));
            }
            i = i + 1;
        }
    }
    assert(out@ + Seq::<char>::empty() == out@);
    out
}

/// Model of the serializer: finished output, pending text, pending keys.
pub struct SerV {
    /// Finished output.
    pub out: Seq<char>,
    /// Pending typed characters.
    pub text: Seq<char>,
    /// Pending key names.
    pub group: Seq<Seq<char>>,
}

/// Key names joined by single spaces.
pub open spec fn join_space(g: Seq<Seq<char>>) -> Seq<char>
    decreases g.len(),
{
    if g.len() == 0 {
        Seq::empty()
    } else if g.len() == 1 {
        g[0]
    } else {
        join_space(g.drop_last()) + seq![' '] + g.last()
    }
}

/// Flush the pending text span.
pub open spec fn flush_text_spec(s: SerV) -> SerV {
    if s.text.len() > 0 {
        SerV { out: s.out + escape_spec(s.text), text: Seq::empty(), ..s }
    } else {
        s
    }
}

/// Flush the pending key group as a `{#...}` token.
pub open spec fn flush_group_spec(s: SerV) -> SerV {
    if s.group.len() > 0 {
        SerV { out: s.out + "{#"@ + join_space(s.group) + "}"@, group: Seq::empty(), ..s }
    } else {
        s
    }
}

/// Fold one event into the serializer.
pub open spec fn push_event_spec(s: SerV, ev: EventV) -> SerV {
    match ev {
        EventV::Mark(_) => s,
        EventV::Text(t) => {
            let s1 = flush_group_spec(s);
            SerV { text: s1.text + t, ..s1 }
        },
        EventV::Key(k, n) => if k == KeyName::Enter {
            let s1 = flush_group_spec(s);
            SerV { text: s1.text + repeat_str(seq!['\n'], n as nat), ..s1 }
        } else {
            let s1 = flush_text_spec(s);
            SerV { group: s1.group + Seq::new(n as nat, |i: int| key_name(k)), ..s1 }
        },
    }
}

/// The serializer after a stream of events.
pub open spec fn fold_spec(evs: Seq<EventV>) -> SerV
    decreases evs.len(),
{
    if evs.len() == 0 {
        SerV { out: Seq::empty(), text: Seq::empty(), group: Seq::empty() }
    } else {
        push_event_spec(fold_spec(evs.drop_last()), evs.last())
    }
}

/// The Plover value a stream of events serializes to.
pub open spec fn serialize_spec(evs: Seq<EventV>) -> Seq<char> {
    flush_group_spec(flush_text_spec(fold_spec(evs))).out
}

/// Accumulator that batches typed text and `{#...}` key groups.
struct Serializer {
    /// Finished output.
    out: String,
    /// Pending typed characters (with real `\n` for Enter).
    text: String,
    /// Pending `{#...}` key names.
    group: Vec<&'static str>,
}

impl Serializer {
    /// The model of this accumulator.
    spec fn view(&self) -> SerV {
        SerV { out: self.out@, text: self.text@, group: self.group@.map_values(|s: &'static str| s@) }
    }

    /// Flush the pending text span (escaped as a whole).
    fn flush_text(&mut self)
        ensures
            final(self).view() == flush_text_spec(old(self).view()),
    {
        if !self.text.as_str().is_empty() {
            let e = escape_text(self.text.as_str());
            push_str(&mut self.out, e.as_str());
            self.text = String::new();
        }
    }

    /// Flush the pending key group as a `{#...}` token.
    fn flush_group(&mut self)
        ensures
            final(self).view() == flush_group_spec(old(self).view()),
    {
        let ghost g = self.view().group;
        if self.group.len() > 0 {
            push_str(&mut self.out, "{#");
            let ghost o0 = self.out@;
            let mut i: usize = 0;
            while i < self.group.len()
                invariant
                    i <= self.group@.len(),
                    self.group@ == old(self).group@,
                    self.text@ == old(self).text@,
                    o0 == old(self).out@ + "{#"@,
                    g == self.group@.map_values(|s: &'static str| s@),
                    self.out@ == o0 + join_space(g.take(i as int)),
                decreases self.group.len() - i,
            {
                let ghost before = self.out@;
                if i > 0 {
                    self.out.push(' ');
                }
                push_str(&mut self.out, self.group[i]);
                proof {
                    let t = g.take(i + 1);
                    assert(t.drop_last() == g.take(i as int));
                    assert(t.last() == self.group@[i as int]@);
                    if i == 0 {
                        assert(g.take(0) == Seq::<Seq<char>>::empty());
                    }
                }
                i = i + 1;
            }
            assert(g.take(i as int) == g);
            push_str(&mut self.out, "}");
            self.group = Vec::new();
            assert(self.group@.map_values(|s: &'static str| s@) == Seq::<Seq<char>>::empty());
        }
    }

    /// Fold one event into the accumulator.
    fn push_event(&mut self, ev: &Event)
        ensures
            final(self).view() == push_event_spec(old(self).view(), event_view(*ev)),
    {
        match ev {
            Event::Mark(_) => {},
            Event::Text(s) => {
                self.flush_group();
                push_str(&mut self.text, s.as_str());
            },
            Event::Key { key, n } => {
                if *key == KeyName::Enter {
                self.flush_group();
                let ghost t0 = self.text@;
                let ghost mid = self.view();
                let mut i: usize = 0;
                while i < *n
                    invariant
                        i <= *n,
                        self.out@ == mid.out,
                        self.view().group == mid.group,
                        self.text@ == t0 + repeat_str(seq!['\n'], i as nat),
                    decreases *n - i,
                {
                    self.text.push('\n');
                    i = i + 1;
                }
                return;
                }
                self.flush_text();
                let ghost g0 = self.view().group;
                let ghost mid = self.view();
                let name = key.name();
                let mut i: usize = 0;
                while i < *n
                    invariant
                        i <= *n,
                        self.out@ == mid.out,
                        self.text@ == mid.text,
                        name@ == key_name(*key),
                        self.view().group == g0 + Seq::new(i as nat, |j: int| key_name(*key)),
                    decreases *n - i,
                {
                    let ghost before = self.view().group;
                    self.group.push(name);
                    proof {
                        assert(self.view().group == before.push(name@));
                        assert(g0 + Seq::new((i + 1) as nat, |j: int| key_name(*key)) == (g0 + Seq::new(i as nat, |j: int| key_name(*key))).push(key_name(*key)));
                    }
                    i = i + 1;
                }
            },
        }
    }

    /// Emit the final string.
    fn finish(self) -> (r: String)
        ensures
            r@ == flush_group_spec(flush_text_spec(self.view())).out,
    {
        let mut s = self;
        s.flush_text();
        s.flush_group();
        s.out
    }
}

/// Serialize a keystroke stream to a Plover value.
///
/// No surrounding `{^}` affixes. Typed characters and newlines accumulate into
/// one escaped span; marks are invisible; navigation keys emit a `{#...}` group
/// and break the span.
pub fn serialize(events: &[Event]) -> (r: String)
    ensures
        r@ == serialize_spec(events_view(events@)),
{
    let mut ser = Serializer { out: String::new(), text: String::new(), group: Vec::new() };
    assert(ser.view().group == Seq::<Seq<char>>::empty());
    let mut i: usize = 0;
    while i < events.len()
        invariant
            i <= events@.len(),
            ser.view() == fold_spec(events_view(events@.take(i as int))),
        decreases events.len() - i,
    {
        proof {
            assert(events_view(events@.take(i + 1)).drop_last() == events_view(events@.take(i as int)));
            assert(events_view(events@.take(i + 1)).last() == event_view(events@[i as int]));
        }
        ser.push_event(&events[i]);
        i = i + 1;
    }
    assert(events@.take(i as int) == events@);
    ser.finish()
}

} // verus!
