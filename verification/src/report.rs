//! What the build programs compute before they print or write: collision
//! guards, size figures and notes, and the no-param variant of the corpus
//! used for the size matrix.
use vstd::prelude::*;
use vstd::utf8::encode_utf8;
use crate::json_out::{json_map, to_json, OrderedMap};
use crate::parse::source::{entry_view, entries_view, EntryV};
use crate::parse::template::{parse_template, spec_parse_template, template_error};
use crate::parse::{cv, strs_view, Entry};
use crate::error::StenoError;
use crate::render::BuildResult;
use crate::text::{copy_str, decimal, push_decimal, push_str, str_eq};

verus! {

broadcast use vstd::seq_lib::group_seq_properties;

/// `a` sorts before `b` as strings order themselves: by the first differing
/// character's code point, a proper prefix first.
pub open spec fn str_lt(a: Seq<char>, b: Seq<char>) -> bool
    decreases a.len(),
{
    if a.len() == 0 {
        b.len() > 0
    } else if b.len() == 0 {
        false
    } else if a[0] != b[0] {
        (a[0] as int) < (b[0] as int)
    } else {
        str_lt(a.drop_first(), b.drop_first())
    }
}

/// The string order is a strict total order.
pub proof fn law_str_lt_total(a: Seq<char>, b: Seq<char>)
    ensures
        !str_lt(a, a),
        str_lt(a, b) ==> !str_lt(b, a),
        a != b ==> str_lt(a, b) || str_lt(b, a),
    decreases a.len(),
{
    if a.len() > 0 && b.len() > 0 {
        law_str_lt_total(a.drop_first(), b.drop_first());
        if a[0] == b[0] && a.drop_first() == b.drop_first() {
            assert(a =~= seq![a[0]] + a.drop_first());
            assert(b =~= seq![b[0]] + b.drop_first());
        }
    }
    if a.len() > 0 {
        law_str_lt_total(a.drop_first(), a.drop_first());
    }
}

/// The string order is transitive.
pub proof fn law_str_lt_transitive(a: Seq<char>, b: Seq<char>, c: Seq<char>)
    requires
        str_lt(a, b),
        str_lt(b, c),
    ensures
        str_lt(a, c),
    decreases a.len(),
{
    if a.len() > 0 && b.len() > 0 && c.len() > 0 && a[0] == b[0] && b[0] == c[0] {
        law_str_lt_transitive(a.drop_first(), b.drop_first(), c.drop_first());
    }
}

/// `true` iff `a` sorts before `b`.
pub fn str_less(a: &str, b: &str) -> (r: bool)
    ensures
        r == str_lt(a@, b@),
{
    let av = crate::text::chars_of(a);
    let bv = crate::text::chars_of(b);
    let mut i: usize = 0;
    while i < av.len() && i < bv.len() && av[i] == bv[i]
        invariant
            i <= av@.len(),
            i <= bv@.len(),
            av@ == a@,
            bv@ == b@,
            str_lt(a@, b@) == str_lt(a@.skip(i as int), b@.skip(i as int)),
        decreases av.len() - i,
    {
        assert(a@.skip(i as int).drop_first() == a@.skip(i + 1));
        assert(b@.skip(i as int).drop_first() == b@.skip(i + 1));
        i = i + 1;
    }
    if i == av.len() {
        i < bv.len()
    } else if i == bv.len() {
        false
    } else {
        assert(a@.skip(i as int)[0] == av@[i as int]);
        assert(b@.skip(i as int)[0] == bv@[i as int]);
        av[i] < bv[i]
    }
}

/// `s` holds each string of `v` once, in ascending order.
pub open spec fn sorted_unique_of(s: Seq<Seq<char>>, v: Seq<Seq<char>>) -> bool {
    &&& forall|i: int, j: int| 0 <= i < j < s.len() ==> str_lt(#[trigger] s[i], #[trigger] s[j])
    &&& forall|x: Seq<char>| #[trigger] s.contains(x) <==> v.contains(x)
}

/// The distinct strings of `v`, in ascending order.
pub fn unique_sorted(v: &Vec<String>) -> (r: Vec<String>)
    ensures
        sorted_unique_of(strs_view(r@), strs_view(v@)),
{
    let ghost vv = strs_view(v@);
    let mut out: Vec<String> = Vec::new();
    let mut n: usize = 0;
    while n < v.len()
        invariant
            n <= v@.len(),
            vv == strs_view(v@),
            sorted_unique_of(strs_view(out@), vv.take(n as int)),
        decreases v.len() - n,
    {
        let s = v[n].as_str();
        let ghost ov = strs_view(out@);
        let mut i: usize = 0;
        while i < out.len() && str_less(out[i].as_str(), s)
            invariant
                i <= out@.len(),
                ov == strs_view(out@),
                forall|k: int| 0 <= k < i ==> str_lt(#[trigger] ov[k], s@),
            decreases out.len() - i,
        {
            i = i + 1;
        }
        assert(vv.take(n + 1) == vv.take(n as int).push(s@));
        if i < out.len() && str_eq(out[i].as_str(), s) {
            assert(ov[i as int] == s@);
            assert forall|x: Seq<char>| #[trigger] ov.contains(x) <==> vv.take(n + 1).contains(x) by {
                if x == s@ {
                    assert(ov.contains(x));
                }
                if vv.take(n as int).contains(x) {
                    assert(vv.take(n + 1).contains(x));
                }
            }
        } else {
            proof {
                if i < out.len() {
                    law_str_lt_total(ov[i as int], s@);
                    assert(str_lt(s@, ov[i as int]));
                }
            }
            out.insert(i, copy_str(s));
            let ghost nv = strs_view(out@);
            assert(nv =~= ov.insert(i as int, s@));
            assert forall|p: int, q: int| 0 <= p < q < nv.len() implies str_lt(#[trigger] nv[p], #[trigger] nv[q]) by {
                if q == i as int {
                    assert(nv[p] == ov[p]);
                } else if p == i as int {
                    assert(nv[q] == ov[q - 1]);
                    if q - 1 > i as int {
                        law_str_lt_transitive(s@, ov[i as int], ov[q - 1]);
                    }
                } else if p < i as int && q > i as int {
                    assert(nv[p] == ov[p]);
                    assert(nv[q] == ov[q - 1]);
                } else if p > i as int {
                    assert(nv[p] == ov[p - 1]);
                    assert(nv[q] == ov[q - 1]);
                } else {
                    assert(nv[p] == ov[p]);
                    assert(nv[q] == ov[q]);
                }
            }
            assert forall|x: Seq<char>| #[trigger] nv.contains(x) <==> vv.take(n + 1).contains(x) by {
                if nv.contains(x) {
                    let k = choose|k: int| 0 <= k < nv.len() && nv[k] == x;
                    if k < i as int {
                        assert(ov[k] == x);
                        assert(ov.contains(x));
                    } else if k > i as int {
                        assert(ov[k - 1] == x);
                        assert(ov.contains(x));
                    }
                }
                if vv.take(n + 1).contains(x) {
                    if x == s@ {
                        assert(nv[i as int] == x);
                    } else {
                        assert(vv.take(n as int).contains(x));
                        assert(ov.contains(x));
                        let k = choose|k: int| 0 <= k < ov.len() && ov[k] == x;
                        if k < i as int {
                            assert(nv[k] == x);
                        } else {
                            assert(nv[k + 1] == x);
                        }
                    }
                }
            }
        }
        n = n + 1;
    }
    assert(vv.take(n as int) == vv);
    out
}

/// The report of a list of collisions: a header naming their distinct
/// count, then each distinct one on its own indented line, ascending.
pub open spec fn collision_lines(head: Seq<char>, unique: Seq<Seq<char>>, n: nat) -> Seq<char>
    decreases n,
{
    if n == 0 || n > unique.len() {
        head
    } else {
        collision_lines(head, unique, (n - 1) as nat) + "\n  "@ + unique[n - 1]
    }
}

/// Append each of `unique` on its own indented line.
fn push_collision_lines(msg: &mut String, unique: &Vec<String>)
    ensures
        final(msg)@ == collision_lines(old(msg)@, strs_view(unique@), unique@.len()),
{
    let ghost head = msg@;
    let ghost uv = strs_view(unique@);
    let mut i: usize = 0;
    while i < unique.len()
        invariant
            i <= unique@.len(),
            uv == strs_view(unique@),
            msg@ == collision_lines(head, uv, i as nat),
        decreases unique.len() - i,
    {
        push_str(msg, "\n  ");
        push_str(msg, unique[i].as_str());
        i = i + 1;
    }
}

/// The report for stroke collisions in the profile `name`.
pub open spec fn stroke_collision_report(name: Seq<char>, unique: Seq<Seq<char>>) -> Seq<char> {
    collision_lines(
        "ERROR ("@ + name + "): "@ + decimal(unique.len()) + " stroke collision(s):"@,
        unique,
        unique.len(),
    )
}

/// The report for keyset collisions.
pub open spec fn keyset_collision_report(unique: Seq<Seq<char>>) -> Seq<char> {
    collision_lines("ERROR: "@ + decimal(unique.len()) + " keyset collision(s):"@, unique, unique.len())
}

/// Fail if the profile `name` has a stroke collision, naming each distinct
/// colliding stroke once, in ascending order.
pub fn guard_strokes(name: &str, collisions: &Vec<String>) -> (r: Result<(), String>)
    ensures
        collisions@.len() == 0 <==> r is Ok,
        r matches Err(msg) ==> exists|u: Seq<Seq<char>>|
            sorted_unique_of(u, strs_view(collisions@)) && msg@ == stroke_collision_report(name@, u),
{
    if collisions.len() == 0 {
        return Ok(());
    }
    let unique = unique_sorted(collisions);
    let mut msg = copy_str("ERROR (");
    push_str(&mut msg, name);
    push_str(&mut msg, "): ");
    push_decimal(&mut msg, unique.len() as u64);
    push_str(&mut msg, " stroke collision(s):");
    push_collision_lines(&mut msg, &unique);
    assert(strs_view(unique@).len() == unique@.len());
    assert(msg@ == stroke_collision_report(name@, strs_view(unique@)));
    Err(msg)
}

/// Fail if any keyset collided, naming each distinct colliding keyset once,
/// in ascending order.
pub fn guard_keysets(collisions: &Vec<String>) -> (r: Result<(), String>)
    ensures
        collisions@.len() == 0 <==> r is Ok,
        r matches Err(msg) ==> exists|u: Seq<Seq<char>>|
            sorted_unique_of(u, strs_view(collisions@)) && msg@ == keyset_collision_report(u),
{
    if collisions.len() == 0 {
        return Ok(());
    }
    let unique = unique_sorted(collisions);
    let mut msg = copy_str("ERROR: ");
    push_decimal(&mut msg, unique.len() as u64);
    push_str(&mut msg, " keyset collision(s):");
    push_collision_lines(&mut msg, &unique);
    assert(strs_view(unique@).len() == unique@.len());
    assert(msg@ == keyset_collision_report(strs_view(unique@)));
    Err(msg)
}

/// Two sorted duplicate-free lists of the same strings are equal, so the
/// sorted distinct list of a collection is unique.
pub proof fn law_sorted_unique_is_unique(a: Seq<Seq<char>>, b: Seq<Seq<char>>, v: Seq<Seq<char>>)
    requires
        sorted_unique_of(a, v),
        sorted_unique_of(b, v),
    ensures
        a == b,
    decreases a.len() + b.len(),
{
    if a.len() > 0 && b.len() > 0 {
        assert(a.contains(a[0]));
        assert(b.contains(b[0]));
        assert(v.contains(a[0]) && v.contains(b[0]));
        assert(b.contains(a[0]) && a.contains(b[0]));
        let ia = choose|k: int| 0 <= k < a.len() && a[k] == b[0];
        let ib = choose|k: int| 0 <= k < b.len() && b[k] == a[0];
        if a[0] != b[0] {
            assert(ia > 0 && ib > 0);
            assert(str_lt(a[0], a[ia]));
            assert(str_lt(b[0], b[ib]));
            law_str_lt_total(a[0], b[0]);
        }
        let v2 = a.drop_first();
        assert forall|x: Seq<char>| #[trigger] a.drop_first().contains(x) <==> b.drop_first().contains(x) by {
            if a.drop_first().contains(x) {
                let k = choose|k: int| 0 <= k < a.drop_first().len() && a.drop_first()[k] == x;
                assert(a[k + 1] == x);
                assert(str_lt(a[0], x));
                law_str_lt_total(a[0], x);
                assert(a.contains(x));
                assert(b.contains(x));
                let j = choose|j: int| 0 <= j < b.len() && b[j] == x;
                assert(j != 0);
                assert(b.drop_first()[j - 1] == x);
            }
            if b.drop_first().contains(x) {
                let k = choose|k: int| 0 <= k < b.drop_first().len() && b.drop_first()[k] == x;
                assert(b[k + 1] == x);
                assert(str_lt(b[0], x));
                law_str_lt_total(b[0], x);
                assert(b.contains(x));
                assert(a.contains(x));
                let j = choose|j: int| 0 <= j < a.len() && a[j] == x;
                assert(j != 0);
                assert(a.drop_first()[j - 1] == x);
            }
        }
        assert forall|i: int, j: int| 0 <= i < j < a.drop_first().len() implies str_lt(
            #[trigger] a.drop_first()[i],
            #[trigger] a.drop_first()[j],
        ) by {
            assert(str_lt(a[i + 1], a[j + 1]));
        }
        assert forall|i: int, j: int| 0 <= i < j < b.drop_first().len() implies str_lt(
            #[trigger] b.drop_first()[i],
            #[trigger] b.drop_first()[j],
        ) by {
            assert(str_lt(b[i + 1], b[j + 1]));
        }
        law_sorted_unique_is_unique(a.drop_first(), b.drop_first(), v2);
        assert(a =~= seq![a[0]] + a.drop_first());
        assert(b =~= seq![b[0]] + b.drop_first());
    } else if a.len() > 0 {
        assert(a.contains(a[0]));
        assert(v.contains(a[0]));
        assert(b.contains(a[0]));
    } else if b.len() > 0 {
        assert(b.contains(b[0]));
        assert(v.contains(b[0]));
        assert(a.contains(b[0]));
    }
}

/// A note naming how many distinct collisions a build has, or nothing.
pub open spec fn collision_note_spec(u: Seq<Seq<char>>) -> Seq<char> {
    if u.len() == 0 {
        Seq::empty()
    } else {
        "  ("@ + decimal(u.len()) + " collisions!)"@
    }
}

/// A note about the distinct collisions in a build, if any.
pub fn collision_note(result: &BuildResult) -> (r: String)
    ensures
        exists|u: Seq<Seq<char>>| sorted_unique_of(u, strs_view(result.collisions@)) && r@ == collision_note_spec(u),
{
    let unique = unique_sorted(&result.collisions);
    let ghost uv = strs_view(unique@);
    if unique.len() == 0 {
        let r = String::new();
        assert(r@ == collision_note_spec(uv));
        return r;
    }
    let mut s = copy_str("  (");
    push_decimal(&mut s, unique.len() as u64);
    push_str(&mut s, " collisions!)");
    assert(s@ == collision_note_spec(uv));
    s
}

/// The serialized size of a build's dictionary, in whole KB (UTF-8 bytes
/// divided by 1024, rounded down).
pub fn kb(result: &BuildResult) -> (r: usize)
    ensures
        r == (encode_utf8(json_map(result.dict@)).len() as usize) / 1024,
        r <= usize::MAX / 1024,
{
    let json = to_json(&result.dict);
    let n = json.as_str().len();
    assert(n / 1024 <= usize::MAX / 1024) by (nonlinear_arith)
        requires
            n <= usize::MAX,
    ;
    n / 1024
}

/// The function shapes whose parameter expansion is dropped, with the
/// template each takes instead.
pub open spec fn noparam_table() -> Seq<(Seq<char>, Seq<char>)> {
    seq![
        ("STKWR-PBGS/-FLT"@, "function %0(): %t {%b%1}"@),
        ("STKWR-PBGS/-R"@, "(): %t => {%b%0}"@),
        ("STKWR-PBGS/-PL"@, "%0(): %t {%b%1}"@),
        ("STKWR-PBGS/-PB"@, "async function %0(): Promise<%t> {%b%1}"@),
        ("STKWR-PBGS/-D"@, "function* %0(): Generator<%t> {%b%1}"@),
        ("STKWR-PBGS/-F"@, "(function %0(): %t {%b%1})();"@),
    ]
}

/// The no-param template for an authored stroke, if it has one.
pub open spec fn noparam_for(stroke_raw: Seq<char>) -> Option<Seq<char>> {
    let t = noparam_table();
    let i = super::viz::axis::index_of(t.map_values(|p: (Seq<char>, Seq<char>)| p.0), stroke_raw);
    if i < t.len() {
        Some(t[i].1)
    } else {
        None
    }
}

/// An entry with its no-param template, if it has one; `None` when that
/// template does not parse.
pub open spec fn no_param_entry(e: EntryV) -> Option<EntryV> {
    match noparam_for(e.stroke_raw) {
        None => Some(e),
        Some(t) => match spec_parse_template(t) {
            Some(cs) => Some(EntryV { count: None, template: cs, ..e }),
            None => None,
        },
    }
}

/// The display form of the parse error of an entry's no-param template.
pub open spec fn no_param_error(e: EntryV) -> Seq<char> {
    seq!['l', 'i', 'n', 'e', ' '] + decimal(e.line as nat) + seq![':', ' '] + template_error(noparam_for(e.stroke_raw)->0)
}

/// The display form of `err`, the parse error of `e`'s no-param template.
fn describe_at(err: &StenoError, e: &Entry) -> (d: String)
    requires
        noparam_for(e.stroke_raw@) is Some,
        err.spec_line() == e.line,
        err.spec_message() == template_error(noparam_for(e.stroke_raw@)->0),
    ensures
        d@ == no_param_error(entry_view(*e)),
{
    err.describe()
}

fn noparam_pairs() -> (r: Vec<(&'static str, &'static str)>)
    ensures
        r@.map_values(|p: (&str, &str)| (p.0@, p.1@)) == noparam_table(),
{
    let mut r: Vec<(&'static str, &'static str)> = Vec::new();
    r.push(("STKWR-PBGS/-FLT", "function %0(): %t {%b%1}"));
    r.push(("STKWR-PBGS/-R", "(): %t => {%b%0}"));
    r.push(("STKWR-PBGS/-PL", "%0(): %t {%b%1}"));
    r.push(("STKWR-PBGS/-PB", "async function %0(): Promise<%t> {%b%1}"));
    r.push(("STKWR-PBGS/-D", "function* %0(): Generator<%t> {%b%1}"));
    r.push(("STKWR-PBGS/-F", "(function %0(): %t {%b%1})();"));
    assert(r@.map_values(|p: (&str, &str)| (p.0@, p.1@)) =~= noparam_table());
    r
}

/// Replace the listed function entries' templates with their no-param
/// forms (and drop their count), keeping every other entry as it is. Fails
/// with the parse error's display form if a replacement does not parse.
pub fn no_params(entries: &Vec<Entry>) -> (r: Result<Vec<Entry>, String>)
    ensures
        (forall|i: int| 0 <= i < entries@.len() ==> #[trigger] no_param_entry(entry_view(entries@[i])) is Some) <==> r is Ok,
        r matches Ok(v) ==> v@.len() == entries@.len() && forall|i: int|
            0 <= i < entries@.len() ==> no_param_entry(entry_view(entries@[i])) == Some(entry_view(#[trigger] v@[i])),
        r matches Err(m) ==> exists|i: int|
            0 <= i < entries@.len() && no_param_entry(entry_view(entries@[i])) is None && (forall|j: int|
                0 <= j < i ==> #[trigger] no_param_entry(entry_view(entries@[j])) is Some) && m@ == no_param_error(
                entry_view(#[trigger] entries@[i]),
            ),
{
    let table = noparam_pairs();
    let ghost tk = table@.map_values(|p: (&str, &str)| p.0@);
    assert(tk == noparam_table().map_values(|p: (Seq<char>, Seq<char>)| p.0));
    let mut out: Vec<Entry> = Vec::new();
    let mut n: usize = 0;
    while n < entries.len()
        invariant
            n <= entries@.len(),
            table@.map_values(|p: (&str, &str)| (p.0@, p.1@)) == noparam_table(),
            tk == table@.map_values(|p: (&str, &str)| p.0@),
            tk == noparam_table().map_values(|p: (Seq<char>, Seq<char>)| p.0),
            out@.len() == n,
            forall|i: int| 0 <= i < n ==> no_param_entry(entry_view(entries@[i])) == Some(entry_view(#[trigger] out@[i])),
        decreases entries.len() - n,
    {
        let e = &entries[n];
        let mut k: usize = 0;
        while k < table.len() && !str_eq(table[k].0, e.stroke_raw.as_str())
            invariant
                k <= table@.len(),
                tk == table@.map_values(|p: (&str, &str)| p.0@),
                forall|j: int| 0 <= j < k ==> #[trigger] tk[j] != e.stroke_raw@,
            decreases table.len() - k,
        {
            k = k + 1;
        }
        proof {
            super::viz::axis::lemma_index_of_unique(tk, e.stroke_raw@, k as int);
        }
        if k < table.len() {
            assert(noparam_for(e.stroke_raw@) == Some(table@[k as int].1@));
            match parse_template(table[k].1, e.line) {
                Ok(template) => {
                    let mut c = e.copy();
                    c.count = None;
                    c.template = template;
                    assert(no_param_entry(entry_view(entries@[n as int])) == Some(entry_view(c)));
                    out.push(c);
                },
                Err(err) => {
                    assert(no_param_entry(entry_view(entries@[n as int])) is None);
                    let d = describe_at(&err, e);
                    proof {
                        assert forall|j: int| 0 <= j < n implies #[trigger] no_param_entry(entry_view(entries@[j])) is Some by {
                            assert(no_param_entry(entry_view(entries@[j])) == Some(entry_view(out@[j])));
                        }
                    }
                    return Err(d);
                },
            }
        } else {
            assert(noparam_for(e.stroke_raw@) is None);
            let c = e.copy();
            assert(no_param_entry(entry_view(entries@[n as int])) == Some(entry_view(c)));
            out.push(c);
        }
        n = n + 1;
    }
    assert forall|i: int| 0 <= i < entries@.len() implies #[trigger] no_param_entry(entry_view(entries@[i])) is Some by {
        assert(no_param_entry(entry_view(entries@[i])) == Some(entry_view(out@[i])));
    }
    Ok(out)
}

/// `s` followed by spaces up to `w` characters.
pub open spec fn pad_right(s: Seq<char>, w: nat) -> Seq<char> {
    if s.len() >= w {
        s
    } else {
        s + Seq::new((w - s.len()) as nat, |i: int| ' ')
    }
}

/// `s` preceded by spaces up to `w` characters.
pub open spec fn pad_left(s: Seq<char>, w: nat) -> Seq<char> {
    if s.len() >= w {
        s
    } else {
        Seq::new((w - s.len()) as nat, |i: int| ' ') + s
    }
}

fn push_spaces(out: &mut String, n: usize)
    ensures
        final(out)@ == old(out)@ + Seq::new(n as nat, |i: int| ' '),
{
    let ghost o0 = out@;
    let mut i: usize = 0;
    while i < n
        invariant
            i <= n,
            out@ == o0 + Seq::new(i as nat, |k: int| ' '),
        decreases n - i,
    {
        out.push(' ');
        i = i + 1;
        assert(out@ =~= o0 + Seq::new(i as nat, |k: int| ' '));
    }
}

fn push_padded_right(out: &mut String, s: &str, w: usize)
    ensures
        final(out)@ == old(out)@ + pad_right(s@, w as nat),
{
    let n = crate::text::chars_of(s).len();
    push_str(out, s);
    if n < w {
        push_spaces(out, w - n);
    }
}

fn push_padded_num(out: &mut String, v: usize, w: usize)
    ensures
        final(out)@ == old(out)@ + pad_left(decimal(v as nat), w as nat),
{
    let d = crate::text::decimal_string(v as u64);
    let n = crate::text::chars_of(d.as_str()).len();
    if n < w {
        push_spaces(out, w - n);
    }
    push_str(out, d.as_str());
}

/// One row of the size matrix: the configuration's label, its stroke
/// count, and the plain, smart and combined sizes in KB, then a note.
pub open spec fn measure_row_spec(label: Seq<char>, strokes: nat, pk: nat, sk: nat, note: Seq<char>) -> Seq<char> {
    "  "@ + pad_right(label, 32) + " "@ + pad_left(decimal(strokes), 6) + " strokes  plain "@ + pad_left(decimal(pk), 5)
        + " KB  smart "@ + pad_left(decimal(sk), 5) + " KB  both "@ + pad_left(decimal(pk + sk), 5) + " KB"@ + note
}

/// The size-matrix row for one configuration's plain and smart builds.
pub fn measure_row(label: &str, plain: &BuildResult, smart: &BuildResult) -> (r: String)
    ensures
        exists|u: Seq<Seq<char>>|
            sorted_unique_of(u, strs_view(plain.collisions@)) && r@ == measure_row_spec(
                label@,
                plain.dict@.len(),
                ((encode_utf8(json_map(plain.dict@)).len() as usize) / 1024) as nat,
                ((encode_utf8(json_map(smart.dict@)).len() as usize) / 1024) as nat,
                collision_note_spec(u),
            ),
{
    let pk = kb(plain);
    let sk = kb(smart);
    assert(pk + sk <= usize::MAX) by (nonlinear_arith)
        requires
            pk <= usize::MAX / 1024,
            sk <= usize::MAX / 1024,
    ;
    let note = collision_note(plain);
    let mut out = copy_str("  ");
    push_padded_right(&mut out, label, 32);
    push_str(&mut out, " ");
    push_padded_num(&mut out, plain.dict.len(), 6);
    push_str(&mut out, " strokes  plain ");
    push_padded_num(&mut out, pk, 5);
    push_str(&mut out, " KB  smart ");
    push_padded_num(&mut out, sk, 5);
    push_str(&mut out, " KB  both ");
    let both = pk + sk;
    push_padded_num(&mut out, both, 5);
    push_str(&mut out, " KB");
    push_str(&mut out, note.as_str());
    out
}

} // verus!
