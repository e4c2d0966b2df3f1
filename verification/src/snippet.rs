//! Snippet target — render a [`TypedEntry`] to an LSP snippet body for
//! editor-side expansion (Neovim's built-in `vim.snippet`, VS Code, etc.).
//!
//! Unlike [`crate::render`] (which bakes cursor movement into Plover
//! keystrokes), the editor's snippet engine owns cursor placement via
//! tabstops. So there is no movement math, no closer-dropping, and no
//! plain/smart split.
//!
//! Landings map to LSP tabstops renumbered to tab order: the lowest landing
//! becomes `${1}` and ascends, and the HIGHEST landing becomes `${0}` (LSP's
//! final exit). Non-terminal strokes emit the same bracket-stripped partial
//! text they do in the plain profile, with no tabstops.
use vstd::prelude::*;
use crate::error::SnippetError;
use crate::expand::{typed_view, typeds_view, TypedEntry, TypedV};
use crate::json_out::{
    changed_keys, distinct_keys, first_seen, insert_all, keys_of, last_value, law_insert_all, lookup, map_insert, OrderedMap,
};
use crate::parse::{chunk_kind, cv, lemma_cv, strs_view, Chunk, ChunkV};
use crate::render::strip_brackets_spec;
use crate::text::{chars_of, concat3, copy_str, decimal, push_decimal, push_str};

verus! {

broadcast use vstd::seq_lib::group_seq_properties;

/// Sentinel pair wrapping the keyset token Plover types (so the plugin can
/// find it without colliding with ordinary text).
pub const SENTINEL_OPEN: &'static str = "@@";
/// Closing sentinel (see [`SENTINEL_OPEN`]).
pub const SENTINEL_CLOSE: &'static str = "@@";

/// A character escaped in snippet text.
pub open spec fn needs_escape(ch: char) -> bool {
    ch == '\\' || ch == '$' || ch == '}'
}

/// Literal text escaped for an LSP snippet body.
pub open spec fn esc_spec(s: Seq<char>) -> Seq<char>
    decreases s.len(),
{
    if s.len() == 0 {
        Seq::empty()
    } else {
        let prev = esc_spec(s.drop_last());
        if needs_escape(s.last()) {
            prev + seq!['\\', s.last()]
        } else {
            prev.push(s.last())
        }
    }
}

/// Append `s` escaped for an LSP snippet body (tabstops are emitted raw).
fn push_esc(out: &mut String, s: &[char])
    ensures
        final(out)@ == old(out)@ + esc_spec(s@),
{
    let ghost o0 = out@;
    let mut i: usize = 0;
    assert(s@.take(0) == Seq::<char>::empty());
    while i < s.len()
        invariant
            i <= s@.len(),
            out@ == o0 + esc_spec(s@.take(i as int)),
        decreases s.len() - i,
    {
        let ch = s[i];
        proof {
            assert(s@.take(i + 1).drop_last() == s@.take(i as int));
            assert(s@.take(i + 1).last() == ch);
        }
        if ch == '\\' || ch == '$' || ch == '}' {
            out.push('\\');
        }
        out.push(ch);
        i = i + 1;
    }
    assert(s@.take(i as int) == s@);
}

/// The bracket-free characters of `s`.
fn stripped(s: &str) -> (r: Vec<char>)
    ensures
        r@ == strip_brackets_spec(s@),
{
    let c = chars_of(s);
    let mut out: Vec<char> = Vec::new();
    let mut i: usize = 0;
    assert(c@.take(0) == Seq::<char>::empty());
    while i < c.len()
        invariant
            i <= c@.len(),
            c@ == s@,
            out@ == strip_brackets_spec(c@.take(i as int)),
        decreases c.len() - i,
    {
        proof {
            assert(c@.take(i + 1).drop_last() == c@.take(i as int));
            assert(c@.take(i + 1).last() == c@[i as int]);
        }
        if !crate::render::is_bracket(c[i]) {
            out.push(c[i]);
        }
        i = i + 1;
    }
    assert(c@.take(i as int) == c@);
    out
}

/// The landing indices of a template, each once, ascending: a strictly
/// increasing sequence holding exactly the template's landing values.
pub open spec fn is_sorted_landings(r: Seq<u32>, cs: Seq<ChunkV>) -> bool {
    &&& forall|i: int, j: int| 0 <= i < j < r.len() ==> r[i] < r[j]
    &&& forall|x: u32| r.contains(x) <==> exists|k: int| 0 <= k < cs.len() && cs[k] == ChunkV::Landing(x)
}

/// LSP tabstop index for a landing: the highest is 0 (the final exit), the
/// rest 1..k ascending; 0 for a value not among the landings.
pub open spec fn tab_index_spec(n: u32, sorted: Seq<u32>) -> int {
    if sorted.len() > 0 && sorted.last() == n {
        0
    } else if sorted.contains(n) {
        sorted.index_of(n) + 1
    } else {
        0
    }
}

/// Insert `x` into the strictly increasing `v`, keeping it so.
fn insert_sorted(v: &mut Vec<u32>, x: u32)
    requires
        forall|i: int, j: int| 0 <= i < j < old(v)@.len() ==> old(v)@[i] < old(v)@[j],
    ensures
        forall|i: int, j: int| 0 <= i < j < final(v)@.len() ==> final(v)@[i] < final(v)@[j],
        forall|y: u32| final(v)@.contains(y) <==> (old(v)@.contains(y) || y == x),
{
    let mut i: usize = 0;
    while i < v.len() && v[i] < x
        invariant
            i <= v@.len(),
            forall|k: int| 0 <= k < i ==> v@[k] < x,
        decreases v.len() - i,
    {
        i = i + 1;
    }
    if i < v.len() && v[i] == x {
        return;
    }
    let ghost before = v@;
    v.insert(i, x);
    proof {
        assert forall|y: u32| v@.contains(y) <==> (before.contains(y) || y == x) by {
            if v@.contains(y) {
                let k = choose|k: int| 0 <= k < v@.len() && v@[k] == y;
                if k < i {
                    assert(before[k] == y);
                } else if k > i {
                    assert(before[k - 1] == y);
                }
            }
            if before.contains(y) {
                let k = choose|k: int| 0 <= k < before.len() && before[k] == y;
                if k < i {
                    assert(v@[k] == y);
                } else {
                    assert(v@[k + 1] == y);
                }
            }
            if y == x {
                assert(v@[i as int] == x);
            }
        }
    }
}

/// The unique landing indices in a template, ascending.
fn sorted_landings(template: &Vec<Chunk>) -> (r: Vec<u32>)
    ensures
        is_sorted_landings(r@, cv(template)),
{
    let ghost cs = cv(template);
    proof {
        lemma_cv(template);
    }
    let mut out: Vec<u32> = Vec::new();
    let mut i: usize = 0;
    while i < template.len()
        invariant
            cs == cv(template),
            cs.len() == template@.len(),
            forall|j: int| 0 <= j < template@.len() ==> #[trigger] cs[j] == template@[j]@,
            i <= template@.len(),
            forall|a: int, b: int| 0 <= a < b < out@.len() ==> out@[a] < out@[b],
            forall|x: u32| out@.contains(x) <==> exists|k: int| 0 <= k < i && cs[k] == ChunkV::Landing(x),
        decreases template.len() - i,
    {
        if let Chunk::Landing(n) = &template[i] {
            let ghost before = out@;
            insert_sorted(&mut out, *n);
            proof {
                assert forall|x: u32| out@.contains(x) <==> exists|k: int| 0 <= k < i + 1 && cs[k] == ChunkV::Landing(x) by {
                    if x == *n {
                        assert(cs[i as int] == ChunkV::Landing(x));
                    }
                    if exists|k: int| 0 <= k < i + 1 && cs[k] == ChunkV::Landing(x) {
                        let k = choose|k: int| 0 <= k < i + 1 && cs[k] == ChunkV::Landing(x);
                        if k < i {
                            assert(before.contains(x));
                        }
                    }
                }
            }
        } else {
            proof {
                assert forall|x: u32| out@.contains(x) <==> exists|k: int| 0 <= k < i + 1 && cs[k] == ChunkV::Landing(x) by {
                    if exists|k: int| 0 <= k < i + 1 && cs[k] == ChunkV::Landing(x) {
                        let k = choose|k: int| 0 <= k < i + 1 && cs[k] == ChunkV::Landing(x);
                        assert(k != i);
                    }
                }
            }
        }
        i = i + 1;
    }
    out
}

/// LSP tabstop index for a landing: highest → 0 (exit), the rest 1..k
/// ascending.
fn tab_index(n: u32, sorted: &Vec<u32>) -> (r: u32)
    requires
        forall|i: int, j: int| 0 <= i < j < sorted@.len() ==> sorted@[i] < sorted@[j],
    ensures
        r as int == tab_index_spec(n, sorted@),
{
    let len = sorted.len();
    if len > 0 && sorted[len - 1] == n {
        return 0;
    }
    let mut i: usize = 0;
    while i < len
        invariant
            i <= len,
            len == sorted@.len(),
            forall|a: int, b: int| 0 <= a < b < sorted@.len() ==> sorted@[a] < sorted@[b],
            !(len > 0 && sorted@[len - 1] == n),
            forall|k: int| 0 <= k < i ==> sorted@[k] != n,
        decreases len - i,
    {
        if sorted[i] == n {
            proof {
                assert(sorted@.contains(n));
                assert(sorted@.index_of(n) == i) by {
                    assert(sorted@[i as int] == n);
                    let k = sorted@.index_of(n);
                    assert(sorted@[k] == n);
                    if k < i {
                        assert(sorted@[k] != n);
                    } else if k > i {
                        assert(sorted@[i as int] < sorted@[k]);
                    }
                }
            }
            if i + 1 <= 0xffff_ffff {
                return (i + 1) as u32;
            }
            proof {
                assert(false) by {
                    assert(sorted@[i as int] <= u32::MAX);
                    lemma_strict_bound(sorted@, i as int);
                }
            }
            return 0;
        }
        i = i + 1;
    }
    assert(!sorted@.contains(n));
    0
}

/// In a strictly increasing `u32` sequence, index `i` holds at least `i`.
proof fn lemma_strict_bound(s: Seq<u32>, i: int)
    requires
        0 <= i < s.len(),
        forall|a: int, b: int| 0 <= a < b < s.len() ==> s[a] < s[b],
    ensures
        s[i] >= i,
    decreases i,
{
    if i > 0 {
        lemma_strict_bound(s, i - 1);
    }
}

/// One rendered snippet.
pub struct SnippetEntry {
    /// Stable id: the Plover-emitted token (sentinel-wrapped) and table key.
    pub key_id: String,
    /// LSP snippet syntax body.
    pub body: String,
    /// Whether this is a terminal construct.
    pub terminal: bool,
}

/// The body of a non-terminal partial: escaped bracket-stripped literals and
/// tabs; braces, breaks and landings dropped; `None` on an unresolved chunk.
pub open spec fn non_terminal_body(cs: Seq<ChunkV>) -> Option<Seq<char>>
    decreases cs.len(),
{
    if cs.len() == 0 {
        Some(Seq::empty())
    } else {
        match non_terminal_body(cs.drop_last()) {
            None => None,
            Some(prev) => match cs.last() {
                ChunkV::Lit(t) => Some(prev + esc_spec(strip_brackets_spec(t))),
                ChunkV::Tab => Some(prev.push('\t')),
                ChunkV::Brace(_) => Some(prev),
                ChunkV::Newline => Some(prev),
                ChunkV::BodyBreak => Some(prev),
                ChunkV::Landing(_) => Some(prev),
                _ => None,
            },
        }
    }
}

/// An LSP tabstop `${index}`.
pub open spec fn tabstop(index: int) -> Seq<char> {
    seq!['$', '{'] + decimal(index as nat) + seq!['}']
}

/// The body of a terminal construct: escaped literals, braces (`}` escaped),
/// breaks (unless one-liner), tabs, and landings as tabstops; `None` on an
/// unresolved chunk.
pub open spec fn terminal_body(cs: Seq<ChunkV>, one_liner: bool, sorted: Seq<u32>) -> Option<Seq<char>>
    decreases cs.len(),
{
    if cs.len() == 0 {
        Some(Seq::empty())
    } else {
        match terminal_body(cs.drop_last(), one_liner, sorted) {
            None => None,
            Some(prev) => match cs.last() {
                ChunkV::Lit(t) => Some(prev + esc_spec(t)),
                ChunkV::Brace(open) => Some(
                    if open {
                        prev.push('{')
                    } else {
                        prev + seq!['\\', '}']
                    },
                ),
                ChunkV::BodyBreak => Some(
                    if one_liner {
                        prev
                    } else {
                        prev.push('\n')
                    },
                ),
                ChunkV::Newline => Some(prev.push('\n')),
                ChunkV::Tab => Some(prev.push('\t')),
                ChunkV::Landing(n) => Some(prev + tabstop(tab_index_spec(n, sorted))),
                _ => None,
            },
        }
    }
}

/// The snippet one entry renders to: `(key, body, terminal)`.
pub open spec fn snippet_spec(e: TypedV) -> Option<(Seq<char>, Seq<char>, bool)> {
    if e.terminal {
        let sorted = choose|r: Seq<u32>| is_sorted_landings(r, e.template);
        match terminal_body(e.template, e.one_liner, sorted) {
            Some(b) => Some((e.stroke, b, true)),
            None => None,
        }
    } else {
        match non_terminal_body(e.template) {
            Some(b) => Some((e.stroke, b, false)),
            None => None,
        }
    }
}

/// Two strictly increasing sequences with the same elements are equal.
proof fn lemma_sorted_tail(a: Seq<u32>, b: Seq<u32>)
    requires
        forall|i: int, j: int| 0 <= i < j < a.len() ==> a[i] < a[j],
        forall|i: int, j: int| 0 <= i < j < b.len() ==> b[i] < b[j],
        forall|x: u32| a.contains(x) <==> b.contains(x),
    ensures
        a == b,
    decreases a.len() + b.len(),
{
    if a.len() == 0 || b.len() == 0 {
        if a.len() > 0 {
            assert(a.contains(a[0]));
        }
        if b.len() > 0 {
            assert(b.contains(b[0]));
        }
        assert(a =~= b);
    } else {
        assert(b.contains(a[0]));
        assert(a.contains(b[0]));
        let ka = choose|k: int| 0 <= k < b.len() && b[k] == a[0];
        let kb = choose|k: int| 0 <= k < a.len() && a[k] == b[0];
        if kb > 0 {
            assert(a[0] < a[kb]);
        }
        if ka > 0 {
            assert(b[0] < b[ka]);
        }
        let a2 = a.drop_first();
        let b2 = b.drop_first();
        assert forall|x: u32| a2.contains(x) <==> b2.contains(x) by {
            if a2.contains(x) {
                let k = choose|k: int| 0 <= k < a2.len() && a2[k] == x;
                assert(a[k + 1] == x);
                assert(a[0] < a[k + 1]);
                assert(b.contains(x));
                let j = choose|j: int| 0 <= j < b.len() && b[j] == x;
                assert(j != 0);
                assert(b2[j - 1] == x);
            }
            if b2.contains(x) {
                let k = choose|k: int| 0 <= k < b2.len() && b2[k] == x;
                assert(b[k + 1] == x);
                assert(b[0] < b[k + 1]);
                assert(a.contains(x));
                let j = choose|j: int| 0 <= j < a.len() && a[j] == x;
                assert(j != 0);
                assert(a2[j - 1] == x);
            }
        }
        lemma_sorted_tail(a2, b2);
        assert(a =~= b);
    }
}

/// Chunks the snippet renderer handles; any other should have been resolved
/// by expansion.
pub open spec fn snippet_resolved(c: ChunkV) -> bool {
    c is Lit || c is Tab || c is Brace || c is Newline || c is BodyBreak || c is Landing
}

/// Every chunk of `cs` is one the snippet renderer handles.
pub open spec fn all_resolved(cs: Seq<ChunkV>) -> bool {
    forall|j: int| 0 <= j < cs.len() ==> snippet_resolved(#[trigger] cs[j])
}

/// Why a template cannot become a snippet: its first unresolved chunk.
pub open spec fn snippet_error(cs: Seq<ChunkV>) -> Seq<char>
    decreases cs.len(),
{
    if cs.len() == 0 {
        Seq::empty()
    } else if !all_resolved(cs.drop_last()) {
        snippet_error(cs.drop_last())
    } else {
        "unresolved chunk \""@ + chunk_kind(cs.last()) + "\" reached the snippet renderer"@
    }
}

/// Once a prefix holds an unresolved chunk, the template's error is the
/// prefix's.
proof fn lemma_snippet_error_prefix(cs: Seq<ChunkV>, i: int)
    requires
        0 <= i <= cs.len(),
        !all_resolved(cs.take(i)),
    ensures
        snippet_error(cs) == snippet_error(cs.take(i)),
    decreases cs.len() - i,
{
    if i < cs.len() {
        assert(cs.take(i + 1).drop_last() == cs.take(i));
        assert(!all_resolved(cs.take(i + 1))) by {
            let j = choose|j: int| 0 <= j < cs.take(i).len() && !snippet_resolved(#[trigger] cs.take(i)[j]);
            assert(cs.take(i + 1)[j] == cs.take(i)[j]);
        }
        lemma_snippet_error_prefix(cs, i + 1);
    } else {
        assert(cs.take(i) == cs);
    }
}

/// The error at an unresolved chunk `i` after resolved ones.
proof fn lemma_snippet_error_at(cs: Seq<ChunkV>, i: int)
    requires
        0 <= i < cs.len(),
        forall|j: int| 0 <= j < i ==> snippet_resolved(#[trigger] cs[j]),
        !snippet_resolved(cs[i]),
    ensures
        snippet_error(cs) == "unresolved chunk \""@ + chunk_kind(cs[i]) + "\" reached the snippet renderer"@,
{
    let p = cs.take(i + 1);
    assert(p.drop_last() == cs.take(i));
    assert(all_resolved(cs.take(i))) by {
        assert forall|j: int| 0 <= j < cs.take(i).len() implies snippet_resolved(#[trigger] cs.take(i)[j]) by {
            assert(cs.take(i)[j] == cs[j]);
        }
    }
    assert(p.last() == cs[i]);
    if i + 1 < cs.len() {
        assert(!all_resolved(p)) by {
            assert(p[i] == cs[i]);
        }
        lemma_snippet_error_prefix(cs, i + 1);
    } else {
        assert(p == cs);
    }
}

/// Render a non-terminal "pre-function" partial: strip brackets, no
/// tabstops.
fn render_non_terminal(entry: &TypedEntry) -> (r: Result<SnippetEntry, SnippetError>)
    ensures
        match non_terminal_body(cv(&entry.template)) {
            Some(b) => r matches Ok(s) && s.key_id@ == entry.stroke@ && s.body@ == b && !s.terminal,
            None => r matches Err(e) && e.spec_message() == snippet_error(cv(&entry.template)),
        },
{
    let ghost cs = cv(&entry.template);
    proof {
        lemma_cv(&entry.template);
        assert(cs.take(0) == Seq::<ChunkV>::empty());
    }
    let mut body = String::new();
    let mut i: usize = 0;
    while i < entry.template.len()
        invariant
            cs == cv(&entry.template),
            cs.len() == entry.template@.len(),
            forall|j: int| 0 <= j < entry.template@.len() ==> #[trigger] cs[j] == entry.template@[j]@,
            i <= entry.template@.len(),
            non_terminal_body(cs.take(i as int)) == Some(body@),
            forall|j: int| 0 <= j < i ==> snippet_resolved(#[trigger] cs[j]),
        decreases entry.template.len() - i,
    {
        proof {
            assert(cs.take(i + 1).drop_last() == cs.take(i as int));
            assert(cs.take(i + 1).last() == cs[i as int]);
        }
        match &entry.template[i] {
            Chunk::Lit(t) => {
                let s = stripped(t.as_str());
                push_esc(&mut body, s.as_slice());
            },
            Chunk::Tab => body.push('\t'),
            Chunk::Brace { .. } | Chunk::Newline | Chunk::BodyBreak | Chunk::Landing(_) => {},
            other => {
                proof {
                    if non_terminal_body(cs) is Some {
                        lemma_nt_prefix(cs, i + 1);
                    }
                    lemma_snippet_error_at(cs, i as int);
                }
                return Err(unresolved(other));
            },
        }
        i = i + 1;
    }
    assert(cs.take(i as int) == cs);
    Ok(SnippetEntry { key_id: copy_str(entry.stroke.as_str()), body, terminal: false })
}

proof fn lemma_nt_prefix(cs: Seq<ChunkV>, i: int)
    requires
        0 <= i <= cs.len(),
        non_terminal_body(cs) is Some,
    ensures
        non_terminal_body(cs.take(i)) is Some,
    decreases cs.len() - i,
{
    if i < cs.len() {
        assert(cs.take(i + 1).drop_last() == cs.take(i));
        lemma_nt_prefix(cs, i + 1);
    } else {
        assert(cs.take(i) == cs);
    }
}

proof fn lemma_t_prefix(cs: Seq<ChunkV>, one_liner: bool, sorted: Seq<u32>, i: int)
    requires
        0 <= i <= cs.len(),
        terminal_body(cs, one_liner, sorted) is Some,
    ensures
        terminal_body(cs.take(i), one_liner, sorted) is Some,
    decreases cs.len() - i,
{
    if i < cs.len() {
        assert(cs.take(i + 1).drop_last() == cs.take(i));
        lemma_t_prefix(cs, one_liner, sorted, i + 1);
    } else {
        assert(cs.take(i) == cs);
    }
}

/// Render a terminal construct with landings mapped to tabstops.
fn render_terminal(entry: &TypedEntry) -> (r: Result<SnippetEntry, SnippetError>)
    ensures
        forall|sorted: Seq<u32>| is_sorted_landings(sorted, cv(&entry.template)) ==>
            match terminal_body(cv(&entry.template), entry.one_liner, sorted) {
                Some(b) => r matches Ok(s) && s.key_id@ == entry.stroke@ && s.body@ == b && s.terminal,
                None => r matches Err(e) && e.spec_message() == snippet_error(cv(&entry.template)),
            },
{
    let sorted = sorted_landings(&entry.template);
    let ghost cs = cv(&entry.template);
    proof {
        lemma_cv(&entry.template);
        assert(cs.take(0) == Seq::<ChunkV>::empty());
        assert forall|s2: Seq<u32>| is_sorted_landings(s2, cs) implies s2 == sorted@ by {
            lemma_sorted_tail(s2, sorted@);
        }
    }
    let mut body = String::new();
    let mut i: usize = 0;
    while i < entry.template.len()
        invariant
            cs == cv(&entry.template),
            cs.len() == entry.template@.len(),
            forall|j: int| 0 <= j < entry.template@.len() ==> #[trigger] cs[j] == entry.template@[j]@,
            forall|a: int, b: int| 0 <= a < b < sorted@.len() ==> sorted@[a] < sorted@[b],
            forall|s2: Seq<u32>| #[trigger] is_sorted_landings(s2, cs) ==> s2 == sorted@,
            i <= entry.template@.len(),
            terminal_body(cs.take(i as int), entry.one_liner, sorted@) == Some(body@),
            forall|j: int| 0 <= j < i ==> snippet_resolved(#[trigger] cs[j]),
        decreases entry.template.len() - i,
    {
        proof {
            assert(cs.take(i + 1).drop_last() == cs.take(i as int));
            assert(cs.take(i + 1).last() == cs[i as int]);
        }
        match &entry.template[i] {
            Chunk::Lit(t) => {
                let c = chars_of(t.as_str());
                push_esc(&mut body, c.as_slice());
            },
            Chunk::Brace { open } => push_brace(*open, &mut body),
            Chunk::BodyBreak => {
                if !entry.one_liner {
                    body.push('\n');
                }
            },
            Chunk::Newline => body.push('\n'),
            Chunk::Tab => body.push('\t'),
            Chunk::Landing(n) => push_tabstop(tab_index(*n, &sorted), &mut body),
            other => {
                proof {
                    if terminal_body(cs, entry.one_liner, sorted@) is Some {
                        lemma_t_prefix(cs, entry.one_liner, sorted@, i + 1);
                    }
                    lemma_snippet_error_at(cs, i as int);
                }
                return Err(unresolved(other));
            },
        }
        i = i + 1;
    }
    assert(cs.take(i as int) == cs);
    Ok(SnippetEntry { key_id: copy_str(entry.stroke.as_str()), body, terminal: true })
}

/// Append an LSP tabstop `${index}` to `body`.
fn push_tabstop(index: u32, body: &mut String)
    ensures
        final(body)@ == old(body)@ + tabstop(index as int),
{
    body.push('$');
    body.push('{');
    push_decimal(body, index as u64);
    body.push('}');
}

/// Append a brace: a lone `{` is literal in LSP; `}` must be escaped.
fn push_brace(open: bool, body: &mut String)
    ensures
        final(body)@ == (if open { old(body)@.push('{') } else { old(body)@ + seq!['\\', '}'] }),
{
    if open {
        body.push('{');
    } else {
        body.push('\\');
        body.push('}');
    }
}

/// Error for an unresolved chunk reaching the snippet renderer.
fn unresolved(chunk: &Chunk) -> (e: SnippetError)
    ensures
        e.spec_message() == "unresolved chunk \""@ + chunk_kind(chunk@) + "\" reached the snippet renderer"@,
{
    SnippetError::new(concat3("unresolved chunk \"", chunk.kind_name(), "\" reached the snippet renderer"))
}

/// Render one expanded+typed entry to an LSP snippet.
///
/// Fails if the template still holds an unresolved chunk.
pub fn render_snippet(entry: &TypedEntry) -> (r: Result<SnippetEntry, SnippetError>)
    ensures
        match snippet_spec(typed_view(*entry)) {
            Some((k, b, t)) => r matches Ok(s) && s.key_id@ == k && s.body@ == b && s.terminal == t,
            None => r matches Err(e) && e.spec_message() == snippet_error(cv(&entry.template)),
        },
{
    if entry.terminal {
        let r = render_terminal(entry);
        proof {
            let cs = cv(&entry.template);
            let sorted = choose|r: Seq<u32>| is_sorted_landings(r, cs);
            lemma_sorted_exists(cs);
        }
        r
    } else {
        render_non_terminal(entry)
    }
}

/// Some sorted landing sequence exists for every template.
proof fn lemma_sorted_exists(cs: Seq<ChunkV>)
    ensures
        exists|r: Seq<u32>| is_sorted_landings(r, cs),
{
    let r = sorted_landings_ghost(cs);
}

/// A witness sorted landing sequence, built by insertion.
proof fn sorted_landings_ghost(cs: Seq<ChunkV>) -> (r: Seq<u32>)
    ensures
        is_sorted_landings(r, cs),
    decreases cs.len(),
{
    if cs.len() == 0 {
        Seq::empty()
    } else {
        let prev = sorted_landings_ghost(cs.drop_last());
        let r = match cs.last() {
            ChunkV::Landing(x) => ghost_insert(prev, x),
            _ => prev,
        };
        assert forall|x: u32| r.contains(x) <==> exists|k: int| 0 <= k < cs.len() && cs[k] == ChunkV::Landing(x) by {
            if exists|k: int| 0 <= k < cs.len() && cs[k] == ChunkV::Landing(x) {
                let k = choose|k: int| 0 <= k < cs.len() && cs[k] == ChunkV::Landing(x);
                if k < cs.len() - 1 {
                    assert(cs.drop_last()[k] == ChunkV::Landing(x));
                }
            }
            if prev.contains(x) {
                let k = choose|k: int| 0 <= k < cs.drop_last().len() && cs.drop_last()[k] == ChunkV::Landing(x);
                assert(cs[k] == ChunkV::Landing(x));
            }
        }
        r
    }
}

/// `x` inserted into the strictly increasing `v`.
proof fn ghost_insert(v: Seq<u32>, x: u32) -> (r: Seq<u32>)
    requires
        forall|i: int, j: int| 0 <= i < j < v.len() ==> v[i] < v[j],
    ensures
        forall|i: int, j: int| 0 <= i < j < r.len() ==> r[i] < r[j],
        forall|y: u32| r.contains(y) <==> (v.contains(y) || y == x),
    decreases v.len(),
{
    if v.contains(x) {
        v
    } else if v.len() == 0 {
        assert(seq![x].contains(x) && seq![x][0] == x);
        seq![x]
    } else if x < v[0] {
        let r = seq![x] + v;
        assert forall|y: u32| r.contains(y) <==> (v.contains(y) || y == x) by {
            if r.contains(y) {
                let k = choose|k: int| 0 <= k < r.len() && r[k] == y;
                if k > 0 {
                    assert(v[k - 1] == y);
                }
            }
            if v.contains(y) {
                let k = choose|k: int| 0 <= k < v.len() && v[k] == y;
                assert(r[k + 1] == y);
            }
            if y == x {
                assert(r[0] == x);
            }
        }
        r
    } else {
        let t = ghost_insert(v.drop_first(), x);
        let r = seq![v[0]] + t;
        assert forall|i: int, j: int| 0 <= i < j < r.len() implies r[i] < r[j] by {
            if i == 0 {
                assert(t.contains(r[j]));
                if r[j] != x {
                    assert(v.drop_first().contains(r[j]));
                    let k = choose|k: int| 0 <= k < v.drop_first().len() && v.drop_first()[k] == r[j];
                    assert(v[k + 1] == r[j]);
                }
            }
        }
        assert forall|y: u32| r.contains(y) <==> (v.contains(y) || y == x) by {
            if r.contains(y) {
                let k = choose|k: int| 0 <= k < r.len() && r[k] == y;
                if k > 0 {
                    assert(t[k - 1] == y);
                    assert(t.contains(y));
                    if y != x {
                        assert(v.drop_first().contains(y));
                        let q = choose|q: int| 0 <= q < v.drop_first().len() && v.drop_first()[q] == y;
                        assert(v[q + 1] == y);
                    }
                } else {
                    assert(v[0] == y);
                }
            }
            if v.contains(y) {
                let k = choose|k: int| 0 <= k < v.len() && v[k] == y;
                if k > 0 {
                    assert(v.drop_first()[k - 1] == y);
                    assert(t.contains(y));
                    let q = choose|q: int| 0 <= q < t.len() && t[q] == y;
                    assert(r[q + 1] == y);
                } else {
                    assert(r[0] == y);
                }
            }
            if y == x {
                assert(t.contains(x));
                let q = choose|q: int| 0 <= q < t.len() && t[q] == x;
                assert(r[q + 1] == x);
            }
        }
        r
    }
}

/// Both nvim artifacts built from the typed entries.
pub struct SnippetBuild {
    /// Plover dictionary: stroke → sentinel-wrapped token to type.
    pub plover_keys: OrderedMap,
    /// Snippet table: `key_id` → LSP body.
    pub snippets: OrderedMap,
    /// Strokes that mapped to two different bodies.
    pub collisions: Vec<String>,
}

/// Both artifacts after the first entries: the stroke → token map, the
/// key → body table, and the keys whose body changed.
pub open spec fn snippet_fold(es: Seq<TypedV>) -> Option<
    (Seq<(Seq<char>, Seq<char>)>, Seq<(Seq<char>, Seq<char>)>, Seq<Seq<char>>),
>
    decreases es.len(),
{
    if es.len() == 0 {
        Some((Seq::empty(), Seq::empty(), Seq::empty()))
    } else {
        match (snippet_fold(es.drop_last()), snippet_spec(es.last())) {
            (Some((pk, sn, cols)), Some((k, b, _))) => {
                let collide = lookup(sn, k) matches Some(p) && p != b;
                Some(
                    (
                        map_insert(pk, es.last().stroke, "@@"@ + k + "@@"@),
                        map_insert(sn, k, b),
                        if collide {
                            cols.push(k)
                        } else {
                            cols
                        },
                    ),
                )
            },
            _ => None,
        }
    }
}

/// Every entry renders to a snippet.
pub open spec fn all_snippets(es: Seq<TypedV>) -> bool {
    forall|i: int| 0 <= i < es.len() ==> (#[trigger] snippet_spec(es[i])) is Some
}

/// Each entry's key and snippet body, in entry order.
pub open spec fn body_pairs(es: Seq<TypedV>) -> Seq<(Seq<char>, Seq<char>)> {
    Seq::new(es.len(), |i: int| (snippet_spec(es[i]).unwrap().0, snippet_spec(es[i]).unwrap().1))
}

/// Each entry's stroke and the sentinel-wrapped key it types, in entry order.
pub open spec fn token_pairs(es: Seq<TypedV>) -> Seq<(Seq<char>, Seq<char>)> {
    Seq::new(es.len(), |i: int| (es[i].stroke, "@@"@ + snippet_spec(es[i]).unwrap().0 + "@@"@))
}

proof fn lemma_snippet_fold_pairs(es: Seq<TypedV>)
    ensures
        snippet_fold(es) == (if all_snippets(es) {
            Some((insert_all(token_pairs(es)), insert_all(body_pairs(es)), changed_keys(body_pairs(es))))
        } else {
            None::<(Seq<(Seq<char>, Seq<char>)>, Seq<(Seq<char>, Seq<char>)>, Seq<Seq<char>>)>
        }),
    decreases es.len(),
{
    if es.len() > 0 {
        let q = es.drop_last();
        lemma_snippet_fold_pairs(q);
        if all_snippets(es) {
            assert forall|i: int| 0 <= i < q.len() implies (#[trigger] snippet_spec(q[i])) is Some by {
                assert(q[i] == es[i]);
                assert(snippet_spec(es[i]) is Some);
            }
            assert(snippet_spec(es[es.len() - 1]) is Some);
            assert(token_pairs(es).drop_last() =~= token_pairs(q));
            assert(body_pairs(es).drop_last() =~= body_pairs(q));
            law_insert_all(body_pairs(q));
            let kb = snippet_spec(es.last()).unwrap();
            assert(body_pairs(es).last() == (kb.0, kb.1));
            assert(lookup(insert_all(body_pairs(q)), kb.0) == last_value(body_pairs(q), kb.0));
        } else {
            let i = choose|i: int| 0 <= i < es.len() && !((#[trigger] snippet_spec(es[i])) is Some);
            if i < q.len() {
                assert(q[i] == es[i]);
            }
        }
    }
}

proof fn lemma_snippet_first_error(es: Seq<TypedV>, k: int)
    requires
        0 <= k < es.len(),
        snippet_spec(es[k]) is None,
        forall|j: int| 0 <= j < k ==> (#[trigger] snippet_spec(es[j])) is Some,
    ensures
        build_snippet_error(es) == snippet_error(es[k].template),
    decreases es.len(),
{
    let q = es.drop_last();
    lemma_snippet_fold_pairs(q);
    if k < q.len() {
        assert(q[k] == es[k]);
        assert forall|j: int| 0 <= j < k implies (#[trigger] snippet_spec(q[j])) is Some by {
            assert(q[j] == es[j]);
            assert(snippet_spec(es[j]) is Some);
        }
        assert(!all_snippets(q));
        lemma_snippet_first_error(q, k);
    } else {
        assert forall|i: int| 0 <= i < q.len() implies (#[trigger] snippet_spec(q[i])) is Some by {
            assert(q[i] == es[i]);
            assert(snippet_spec(es[i]) is Some);
        }
    }
}

/// Building the snippet artifacts succeeds exactly when every entry renders.
/// Then the Plover map binds each stroke, in order of first appearance, to
/// the wrapped key of its last entry; the snippet table binds each key, in
/// order of first appearance, to the body of the last entry with that key;
/// and the collisions list, in entry order, the key of each entry whose
/// body differs from the one its key held just before. Otherwise it fails
/// with the error of the first entry that does not render.
pub proof fn law_build_snippets(es: Seq<TypedV>)
    ensures
        forall|k: int|
            0 <= k < es.len() && (#[trigger] snippet_spec(es[k])) is None && (forall|j: int|
                0 <= j < k ==> (#[trigger] snippet_spec(es[j])) is Some) ==> build_snippet_error(es)
                == snippet_error(es[k].template),
        snippet_fold(es) is Some <==> all_snippets(es),
        snippet_fold(es) matches Some((pk, sn, cols)) ==> {
            &&& distinct_keys(pk)
            &&& keys_of(pk) == first_seen(keys_of(token_pairs(es)))
            &&& forall|k: Seq<char>| #[trigger] lookup(pk, k) == last_value(token_pairs(es), k)
            &&& distinct_keys(sn)
            &&& keys_of(sn) == first_seen(keys_of(body_pairs(es)))
            &&& forall|k: Seq<char>| #[trigger] lookup(sn, k) == last_value(body_pairs(es), k)
            &&& cols == changed_keys(body_pairs(es))
        },
{
    lemma_snippet_fold_pairs(es);
    law_insert_all(token_pairs(es));
    law_insert_all(body_pairs(es));
    assert forall|k: int|
        0 <= k < es.len() && (#[trigger] snippet_spec(es[k])) is None && (forall|j: int|
            0 <= j < k ==> (#[trigger] snippet_spec(es[j])) is Some) implies build_snippet_error(es)
            == snippet_error(es[k].template) by {
        lemma_snippet_first_error(es, k);
    }
}

/// Why the artifacts cannot be built: the first entry that fails to render.
pub open spec fn build_snippet_error(es: Seq<TypedV>) -> Seq<char>
    decreases es.len(),
{
    if es.len() == 0 {
        Seq::empty()
    } else if snippet_fold(es.drop_last()) is None {
        build_snippet_error(es.drop_last())
    } else {
        snippet_error(es.last().template)
    }
}

proof fn lemma_snippet_none(es: Seq<TypedV>, j: int)
    requires
        0 <= j <= es.len(),
        snippet_fold(es.take(j)) is None,
    ensures
        snippet_fold(es) is None,
        build_snippet_error(es) == build_snippet_error(es.take(j)),
    decreases es.len() - j,
{
    if j < es.len() {
        assert(es.take(j + 1).drop_last() == es.take(j));
        lemma_snippet_none(es, j + 1);
    } else {
        assert(es.take(j) == es);
    }
}

/// Build both artifacts from the typed entries.
///
/// Fails on the first entry that fails to render.
pub fn build_snippets(entries: &Vec<TypedEntry>) -> (r: Result<SnippetBuild, SnippetError>)
    ensures
        match snippet_fold(typeds_view(entries@)) {
            Some((pk, sn, cols)) => r matches Ok(b) && b.plover_keys.wf() && b.snippets.wf() && b.plover_keys@ == pk
                && b.snippets@ == sn && strs_view(b.collisions@) == cols,
            None => r matches Err(e) && e.spec_message() == build_snippet_error(typeds_view(entries@)),
        },
{
    let ghost es = typeds_view(entries@);
    let mut plover_keys = OrderedMap::new();
    let mut snippets = OrderedMap::new();
    let mut collisions: Vec<String> = Vec::new();
    let mut i: usize = 0;
    assert(es.take(0) == Seq::<TypedV>::empty());
    proof {
        reveal_strlit("@@");
    }
    while i < entries.len()
        invariant
            i <= entries@.len(),
            es == typeds_view(entries@),
            plover_keys.wf(),
            snippets.wf(),
            snippet_fold(es.take(i as int)) == Some((plover_keys@, snippets@, strs_view(collisions@))),
        decreases entries.len() - i,
    {
        let e = &entries[i];
        proof {
            assert(es.take(i + 1).drop_last() == es.take(i as int));
            assert(es.take(i + 1).last() == typed_view(*e));
        }
        let s = match render_snippet(e) {
            Ok(s) => s,
            Err(er) => {
                proof {
                    lemma_snippet_none(es, i + 1);
                }
                return Err(er);
            },
        };
        let SnippetEntry { key_id, body, .. } = s;
        let b2 = copy_str(body.as_str());
        let k2 = copy_str(key_id.as_str());
        let token = concat3(SENTINEL_OPEN, key_id.as_str(), SENTINEL_CLOSE);
        let prev = snippets.insert(key_id, body);
        let collide = match &prev {
            Some(p) => !crate::text::str_eq(p.as_str(), b2.as_str()),
            None => false,
        };
        if collide {
            let ghost before = collisions@;
            collisions.push(k2);
            assert(strs_view(collisions@) == strs_view(before).push(k2@));
        }
        plover_keys.insert(copy_str(e.stroke.as_str()), token);
        i = i + 1;
    }
    assert(es.take(i as int) == es);
    Ok(SnippetBuild { plover_keys, snippets, collisions })
}

/// The inline nvim value of a terminal snippet body: the sentinel-wrapped
/// body between `{^}` glue affixes.
pub fn wrap_inline_body(body: &str) -> (r: String)
    ensures
        r@ == "{^}"@ + SENTINEL_OPEN@ + body@ + SENTINEL_CLOSE@ + "{^}"@,
{
    let mut r = concat3("{^}", SENTINEL_OPEN, body);
    push_str(&mut r, SENTINEL_CLOSE);
    push_str(&mut r, "{^}");
    r
}

/// Tabstops number the landings one for one: distinct landings get
/// distinct tabstops, all below the number of landings; the highest landing
/// is the exit `0`, and with more than one landing the lowest is `1`.
pub proof fn law_tab_index_distinct(sorted: Seq<u32>, a: u32, b: u32)
    requires
        forall|i: int, j: int| 0 <= i < j < sorted.len() ==> sorted[i] < sorted[j],
        sorted.contains(a),
        sorted.contains(b),
        a != b,
    ensures
        tab_index_spec(a, sorted) != tab_index_spec(b, sorted),
        0 <= tab_index_spec(a, sorted) < sorted.len(),
        tab_index_spec(sorted.last(), sorted) == 0,
        sorted.len() > 1 ==> tab_index_spec(sorted[0], sorted) == 1,
{
    let ia = sorted.index_of(a);
    let ib = sorted.index_of(b);
    assert(0 <= ia < sorted.len() && sorted[ia] == a);
    assert(0 <= ib < sorted.len() && sorted[ib] == b);
    if sorted.len() > 1 {
        let f = sorted[0];
        assert(sorted.contains(f));
        let i0 = sorted.index_of(f);
        assert(sorted[i0] == f);
        if i0 != 0 {
            assert(sorted[0] < sorted[i0]);
        }
        assert(sorted[0] < sorted[sorted.len() - 1]);
    }
}

/// Landings below the highest take the tabstops `1, 2, ...` in ascending
/// order of their values: the landing at position `i` of the ascending list
/// gets tabstop `i + 1`, so a lower landing always gets a lower tabstop,
/// and the highest landing is the exit `0`.
pub proof fn law_tab_index_ascending(sorted: Seq<u32>, i: int, j: int)
    requires
        forall|p: int, q: int| 0 <= p < q < sorted.len() ==> sorted[p] < sorted[q],
        0 <= i < sorted.len() - 1,
        0 <= j < sorted.len() - 1,
    ensures
        tab_index_spec(sorted[i], sorted) == i + 1,
        sorted[i] < sorted[j] <==> tab_index_spec(sorted[i], sorted) < tab_index_spec(sorted[j], sorted),
        tab_index_spec(sorted[sorted.len() - 1], sorted) == 0,
{
    lemma_tab_at(sorted, i);
    lemma_tab_at(sorted, j);
    if i < j {
        assert(sorted[i] < sorted[j]);
    } else if j < i {
        assert(sorted[j] < sorted[i]);
    }
}

/// The landing at position `i` (not the last) of the ascending list gets
/// tabstop `i + 1`.
proof fn lemma_tab_at(sorted: Seq<u32>, i: int)
    requires
        forall|p: int, q: int| 0 <= p < q < sorted.len() ==> sorted[p] < sorted[q],
        0 <= i < sorted.len() - 1,
    ensures
        tab_index_spec(sorted[i], sorted) == i + 1,
{
    let n = sorted[i];
    assert(sorted[i] < sorted[sorted.len() - 1]);
    assert(sorted.contains(n));
    let k = sorted.index_of(n);
    assert(sorted[k] == n);
    if k < i {
        assert(sorted[k] < sorted[i]);
    } else if k > i {
        assert(sorted[i] < sorted[k]);
    }
}

} // verus!
