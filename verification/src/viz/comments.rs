//! Scans the raw source for explicit category markers, section markers and
//! description markers. Ordinary `#`/`//` comments stay inert prose. A line
//! matching `^##\s+(.+)$` (so neither `##>` nor `###`) starts a category that
//! applies to every entry until the next category line; a line matching
//! `^##>\s+(.+)$` starts a section that sub-divides the current category
//! until the next section or category line; a line matching `^###\s+(.+)$`
//! describes only the fenced entry that follows it (blank lines in between
//! are allowed, any other content clears it). Labels are trimmed, and a
//! label that is all whitespace makes no marker.
use std::collections::HashMap;
use vstd::prelude::*;
use crate::parse::source::{lines_of, lines_view, split_lines};
use crate::text::{chars_of, is_whitespace, is_ws, string_of_range, trim, trim_bounds, trim_start};

verus! {

broadcast use {vstd::seq_lib::group_seq_properties, vstd::std_specs::hash::group_hash_axioms};

/// One marker and the 1-based line it appears on.
pub struct Marker {
    /// 1-based source line the marker appears on.
    pub line: usize,
    /// The marker's label, trimmed.
    pub label: String,
}

/// Model of a marker.
pub struct MarkerV {
    pub line: usize,
    pub label: Seq<char>,
}

/// The model of a marker.
pub open spec fn marker_view(m: Marker) -> MarkerV {
    MarkerV { line: m.line, label: m.label@ }
}

/// The models of a list of markers.
pub open spec fn markers_view(v: Seq<Marker>) -> Seq<MarkerV> {
    v.map_values(|m: Marker| marker_view(m))
}

/// The text of a line that opens with `prefix` at its first column, then at
/// least one whitespace character, then text that is not all whitespace:
/// that text, trimmed. `None` for any other line.
pub open spec fn marked_text(line: Seq<char>, prefix: Seq<char>) -> Option<Seq<char>> {
    let k = prefix.len() as int;
    if k < line.len() && line.take(k) == prefix && is_ws(line[k]) && trim(line.skip(k)).len() > 0 {
        Some(trim(line.skip(k)))
    } else {
        None
    }
}

/// The label of a category line (`^##\s+(.+)$`), trimmed. A `###` or `##>`
/// line is none, as the character after `##` is not whitespace.
pub open spec fn marker_label_spec(line: Seq<char>) -> Option<Seq<char>> {
    marked_text(line, seq!['#', '#'])
}

/// The label of a section line (`^##>\s+(.+)$`), trimmed.
pub open spec fn section_label_spec(line: Seq<char>) -> Option<Seq<char>> {
    marked_text(line, seq!['#', '#', '>'])
}

/// The markers among the first `n` lines, with their 1-based line numbers;
/// `sections` picks `##>` markers, otherwise `##` markers.
pub open spec fn markers_of(ls: Seq<Seq<char>>, sections: bool, n: nat) -> Seq<MarkerV>
    decreases n,
{
    if n == 0 || n > ls.len() {
        Seq::empty()
    } else {
        let prev = markers_of(ls, sections, (n - 1) as nat);
        let found = if sections {
            section_label_spec(ls[n - 1])
        } else {
            marker_label_spec(ls[n - 1])
        };
        match found {
            Some(l) => prev.push(MarkerV { line: n as usize, label: l }),
            None => prev,
        }
    }
}

/// The text after `prefix` on `line`, as `marked_text` describes it.
#[verifier::spinoff_prover]
fn marked_text_of(line: &Vec<char>, prefix: &Vec<char>) -> (r: Option<String>)
    ensures
        r matches Some(s) ==> marked_text(line@, prefix@) == Some(s@),
        r is None ==> marked_text(line@, prefix@) is None,
{
    let n = line.len();
    let k = prefix.len();
    if k >= n {
        return None;
    }
    let mut i: usize = 0;
    while i < k
        invariant
            i <= k < n,
            n == line@.len(),
            k == prefix@.len(),
            forall|j: int| 0 <= j < i ==> line@[j] == prefix@[j],
        decreases k - i,
    {
        if line[i] != prefix[i] {
            assert(line@.take(k as int)[i as int] != prefix@[i as int]);
            return None;
        }
        i = i + 1;
    }
    assert(line@.take(k as int) =~= prefix@);
    if !is_whitespace(line[k]) {
        return None;
    }
    assert(line@.skip(k as int) =~= line@.subrange(k as int, n as int));
    let (c, d) = trim_bounds(line.as_slice(), k, n);
    if c == d {
        return None;
    }
    Some(string_of_range(line.as_slice(), c, d))
}

/// The `## label` of a line, if it is one.
fn marker_label(line: &Vec<char>) -> (r: Option<String>)
    ensures
        r matches Some(s) ==> marker_label_spec(line@) == Some(s@),
        r is None ==> marker_label_spec(line@) is None,
{
    let prefix: Vec<char> = vec!['#', '#'];
    assert(prefix@ =~= seq!['#', '#']);
    marked_text_of(line, &prefix)
}

/// The `##> label` of a line, if it is one.
fn section_label(line: &Vec<char>) -> (r: Option<String>)
    ensures
        r matches Some(s) ==> section_label_spec(line@) == Some(s@),
        r is None ==> section_label_spec(line@) is None,
{
    let prefix: Vec<char> = vec!['#', '#', '>'];
    assert(prefix@ =~= seq!['#', '#', '>']);
    marked_text_of(line, &prefix)
}

/// The markers of one kind, in file order.
fn scan_kind(src: &str, sections: bool) -> (r: Vec<Marker>)
    ensures
        markers_view(r@) == markers_of(split_lines(src@), sections, split_lines(src@).len()),
{
    let cs = chars_of(src);
    let lines = lines_of(&cs);
    let ghost ls = lines_view(lines@);
    let mut out: Vec<Marker> = Vec::new();
    let mut i: usize = 0;
    while i < lines.len()
        invariant
            i <= lines@.len(),
            ls == lines_view(lines@),
            ls == split_lines(src@),
            markers_view(out@) == markers_of(ls, sections, i as nat),
        decreases lines.len() - i,
    {
        let found = if sections {
            section_label(&lines[i])
        } else {
            marker_label(&lines[i])
        };
        assert(ls[i as int] == lines@[i as int]@);
        match found {
            Some(label) => {
                let ghost before = markers_view(out@);
                let m = Marker { line: i + 1, label };
                let ghost mv = marker_view(m);
                out.push(m);
                assert(markers_view(out@) == before.push(mv));
            },
            None => {},
        }
        i = i + 1;
    }
    out
}

/// Every `## label` line of `src`, in file order.
pub fn scan(src: &str) -> (r: Vec<Marker>)
    ensures
        markers_view(r@) == markers_of(split_lines(src@), false, split_lines(src@).len()),
{
    scan_kind(src, false)
}

/// Every `##> label` section line of `src`, in file order.
pub fn scan_sections(src: &str) -> (r: Vec<Marker>)
    ensures
        markers_view(r@) == markers_of(split_lines(src@), true, split_lines(src@).len()),
{
    scan_kind(src, true)
}

/// The last marker before `line`, if any.
pub open spec fn last_before(ms: Seq<MarkerV>, line: usize) -> Option<MarkerV>
    decreases ms.len(),
{
    if ms.len() == 0 {
        None
    } else if ms.last().line < line {
        Some(ms.last())
    } else {
        last_before(ms.drop_last(), line)
    }
}

/// The label of the last marker before `line`, or `Uncategorized`.
pub open spec fn label_for_spec(ms: Seq<MarkerV>, line: usize) -> Seq<char> {
    match last_before(ms, line) {
        Some(m) => m.label,
        None => "Uncategorized"@,
    }
}

/// The active section at `line`: the last section marker before it, when
/// no category marker comes between them.
pub open spec fn section_for_spec(secs: Seq<MarkerV>, cats: Seq<MarkerV>, line: usize) -> Option<Seq<char>> {
    match last_before(secs, line) {
        None => None,
        Some(s) => {
            let cat_line: usize = match last_before(cats, line) {
                Some(c) => c.line,
                None => 0,
            };
            if s.line > cat_line {
                Some(s.label)
            } else {
                None
            }
        },
    }
}

/// Index of the last marker before `line`.
fn last_before_index(ms: &Vec<Marker>, line: usize) -> (r: Option<usize>)
    ensures
        match last_before(markers_view(ms@), line) {
            Some(m) => r matches Some(i) && i < ms@.len() && marker_view(ms@[i as int]) == m,
            None => r is None,
        },
{
    let ghost mv = markers_view(ms@);
    let mut i = ms.len();
    while i > 0
        invariant
            i <= ms@.len(),
            mv == markers_view(ms@),
            last_before(mv, line) == last_before(mv.take(i as int), line),
        decreases i,
    {
        assert(mv.take(i as int).drop_last() == mv.take(i - 1));
        if ms[i - 1].line < line {
            return Some(i - 1);
        }
        i = i - 1;
    }
    None
}

/// The label whose marker most closely precedes `entry_line`, or
/// `"Uncategorized"` if none does.
pub fn label_for(markers: &Vec<Marker>, entry_line: usize) -> (r: &str)
    ensures
        r@ == label_for_spec(markers_view(markers@), entry_line),
{
    match last_before_index(markers, entry_line) {
        Some(i) => markers[i].label.as_str(),
        None => {
            proof {
                reveal_strlit("Uncategorized");
            }
            "Uncategorized"
        },
    }
}

/// The active section label for `entry_line`, or `None`. A section applies
/// until the next section or the next category marker.
pub fn section_for<'a>(sections: &'a Vec<Marker>, categories: &Vec<Marker>, entry_line: usize) -> (r: Option<&'a str>)
    ensures
        match section_for_spec(markers_view(sections@), markers_view(categories@), entry_line) {
            Some(l) => r matches Some(s) && s@ == l,
            None => r is None,
        },
{
    let si = match last_before_index(sections, entry_line) {
        Some(i) => i,
        None => {
            return None;
        },
    };
    let cat_line: usize = match last_before_index(categories, entry_line) {
        Some(j) => categories[j].line,
        None => 0,
    };
    if sections[si].line > cat_line {
        Some(sections[si].label.as_str())
    } else {
        None
    }
}

/// The text of a description line (`^###\s+(.+)$`), trimmed.
pub open spec fn desc_text_spec(line: Seq<char>) -> Option<Seq<char>> {
    marked_text(line, seq!['#', '#', '#'])
}

/// A fence-open line: four backticks followed by something.
pub open spec fn is_fence_open_spec(t: Seq<char>) -> bool {
    t.len() > 4 && t[0] == '`' && t[1] == '`' && t[2] == '`' && t[3] == '`'
}

/// The descriptions found in the first `n` lines, keyed by the 1-based line
/// of the fence they describe, and the description still pending.
pub open spec fn desc_fold(ls: Seq<Seq<char>>, n: nat) -> (Map<usize, Seq<char>>, Option<Seq<char>>)
    decreases n,
{
    if n == 0 || n > ls.len() {
        (Map::empty(), None)
    } else {
        let (out, pending) = desc_fold(ls, (n - 1) as nat);
        let t = trim_start(ls[n - 1]);
        match desc_text_spec(ls[n - 1]) {
            Some(d) => (out, Some(d)),
            None => if t.len() == 0 {
                (out, pending)
            } else if is_fence_open_spec(t) {
                match pending {
                    Some(d) => (out.insert(n as usize, d), None),
                    None => (out, None),
                }
            } else {
                (out, None)
            },
        }
    }
}

/// The model of a description table.
pub open spec fn desc_map_view(m: Map<usize, String>) -> Map<usize, Seq<char>> {
    m.map_values(|s: String| s@)
}

/// What one line does to the description scan.
enum DescLine {
    /// A `### text` line.
    Text(String),
    /// A blank line.
    Blank,
    /// A fence-open line.
    Fence,
    /// Anything else.
    Other,
}

/// Classify one line for the description scan.
#[verifier::spinoff_prover]
fn desc_line(line: &Vec<char>) -> (r: DescLine)
    ensures
        ({
            let t = trim_start(line@);
            match r {
                DescLine::Text(s) => desc_text_spec(line@) == Some(s@),
                DescLine::Blank => desc_text_spec(line@) is None && t.len() == 0,
                DescLine::Fence => desc_text_spec(line@) is None && t.len() > 0 && is_fence_open_spec(t),
                DescLine::Other => desc_text_spec(line@) is None && t.len() > 0 && !is_fence_open_spec(t),
            }
        }),
{
    let n = line.len();
    let (a, _b) = trim_bounds(line.as_slice(), 0, n);
    let ghost t = trim_start(line@);
    assert(line@.subrange(0, n as int) == line@);
    assert(t == line@.subrange(a as int, n as int));
    let prefix: Vec<char> = vec!['#', '#', '#'];
    assert(prefix@ =~= seq!['#', '#', '#']);
    match marked_text_of(line, &prefix) {
        Some(text) => {
            return DescLine::Text(text);
        },
        None => {},
    }
    if a == n {
        return DescLine::Blank;
    }
    let fence = n - a > 4 && line[a] == '`' && line[a + 1] == '`' && line[a + 2] == '`' && line[a + 3] == '`';
    proof {
        if fence {
            assert(t[0] == line@[a as int] && t[1] == line@[a + 1] && t[2] == line@[a + 2] && t[3] == line@[a + 3]);
        } else if is_fence_open_spec(t) {
            assert(t[0] == '`' && t[1] == '`' && t[2] == '`' && t[3] == '`');
        }
    }
    if fence {
        DescLine::Fence
    } else {
        DescLine::Other
    }
}

/// Every description line that (modulo blank lines) directly precedes a
/// fence-open line, keyed by that fence's 1-based line.
pub fn scan_desc(src: &str) -> (r: HashMap<usize, String>)
    ensures
        desc_map_view(r@) == desc_fold(split_lines(src@), split_lines(src@).len()).0,
{
    let cs = chars_of(src);
    let lines = lines_of(&cs);
    let ghost ls = lines_view(lines@);
    let mut out: HashMap<usize, String> = HashMap::new();
    let mut pending: Option<String> = None;
    let mut i: usize = 0;
    assert(desc_map_view(out@) =~= Map::<usize, Seq<char>>::empty());
    while i < lines.len()
        invariant
            i <= lines@.len(),
            ls == lines_view(lines@),
            ls == split_lines(src@),
            desc_map_view(out@) == desc_fold(ls, i as nat).0,
            crate::parse::opt_view(pending) == desc_fold(ls, i as nat).1,
        decreases lines.len() - i,
    {
        assert(ls[i as int] == lines@[i as int]@);
        let kind = desc_line(&lines[i]);
        match kind {
            DescLine::Text(s) => {
                pending = Some(s);
            },
            DescLine::Blank => {},
            DescLine::Fence => {
                match pending {
                    Some(d) => {
                        let ghost before = desc_map_view(out@);
                        let ghost dv = d@;
                        out.insert(i + 1, d);
                        assert(desc_map_view(out@) =~= before.insert((i + 1) as usize, dv));
                    },
                    None => {},
                }
                pending = None;
            },
            DescLine::Other => {
                pending = None;
            },
        }
        i = i + 1;
    }
    out
}

/// The description recorded for `line`, if any.
pub open spec fn desc_lookup(ds: Map<usize, Seq<char>>, line: usize) -> Option<Seq<char>> {
    if ds.contains_key(line) {
        Some(ds[line])
    } else {
        None
    }
}

/// The description recorded for `line`, if any.
pub fn desc_for(descs: &HashMap<usize, String>, line: usize) -> (r: Option<&str>)
    ensures
        match desc_lookup(desc_map_view(descs@), line) {
            Some(d) => r matches Some(s) && s@ == d,
            None => r is None,
        },
{
    match descs.get(&line) {
        Some(s) => Some(s.as_str()),
        None => None,
    }
}

} // verus!
