//! Hand-rolled JSON output: an insertion-ordered string map (matching JS
//! object key semantics) and a `JSON.stringify`-compatible
//! one-entry-per-line writer.
use vstd::prelude::*;
use crate::text::{chars_of, copy_str, push_str, str_eq};

verus! {

broadcast use vstd::seq_lib::group_seq_properties;

/// A string→string map that preserves first-insertion order, like a JS object.
#[derive(Debug)]
pub struct OrderedMap {
    /// Keys in first-insertion order.
    keys: Vec<String>,
    /// Values, paired with `keys` by position.
    vals: Vec<String>,
}

/// The keys of an entry sequence.
pub open spec fn keys_of(m: Seq<(Seq<char>, Seq<char>)>) -> Seq<Seq<char>> {
    m.map_values(|e: (Seq<char>, Seq<char>)| e.0)
}

/// Index of `k` among the entries, if present.
pub open spec fn index_of_key(m: Seq<(Seq<char>, Seq<char>)>, k: Seq<char>) -> Option<int> {
    if exists|i: int| 0 <= i < m.len() && (#[trigger] m[i]).0 == k {
        Some(choose|i: int| 0 <= i < m.len() && (#[trigger] m[i]).0 == k)
    } else {
        None
    }
}

/// The value bound to `k`, if any.
pub open spec fn lookup(m: Seq<(Seq<char>, Seq<char>)>, k: Seq<char>) -> Option<Seq<char>> {
    match index_of_key(m, k) {
        Some(i) => Some(m[i].1),
        None => None,
    }
}

/// The entries after binding `k` to `v`: an existing key keeps its position
/// and takes the new value; a new key is appended.
pub open spec fn map_insert(m: Seq<(Seq<char>, Seq<char>)>, k: Seq<char>, v: Seq<char>) -> Seq<(Seq<char>, Seq<char>)> {
    match index_of_key(m, k) {
        Some(i) => m.update(i, (k, v)),
        None => m.push((k, v)),
    }
}

/// No key occurs twice.
pub open spec fn distinct_keys(m: Seq<(Seq<char>, Seq<char>)>) -> bool {
    forall|i: int, j: int| 0 <= i < j < m.len() ==> (#[trigger] m[i]).0 != (#[trigger] m[j]).0
}

impl View for OrderedMap {
    type V = Seq<(Seq<char>, Seq<char>)>;

    closed spec fn view(&self) -> Seq<(Seq<char>, Seq<char>)> {
        Seq::new(self.keys@.len(), |i: int| (self.keys@[i]@, self.vals@[i]@))
    }
}

impl OrderedMap {
    /// Internal consistency, kept by every map as its type invariant: keys
    /// and values pair up and keys are distinct.
    #[verifier::type_invariant]
    pub closed spec fn wf(&self) -> bool {
        &&& self.keys@.len() == self.vals@.len()
        &&& distinct_keys(self@)
    }

    /// A valid map never holds a key twice.
    pub proof fn lemma_wf_distinct(&self)
        requires
            self.wf(),
        ensures
            distinct_keys(self@),
    {
    }

    /// An empty map.
    pub fn new() -> (r: Self)
        ensures
            r.wf(),
            r@ == Seq::<(Seq<char>, Seq<char>)>::empty(),
    {
        let r = OrderedMap { keys: Vec::new(), vals: Vec::new() };
        assert(r@ =~= Seq::<(Seq<char>, Seq<char>)>::empty());
        r
    }

    fn find(&self, key: &str) -> (r: Option<usize>)
        ensures
            match r {
                Some(i) => i < self@.len() && self@[i as int].0 == key@ && index_of_key(self@, key@) == Some(i as int),
                None => index_of_key(self@, key@) is None,
            },
    {
        proof {
            use_type_invariant(self);
        }
        let mut i: usize = 0;
        while i < self.keys.len()
            invariant
                self.wf(),
                i <= self.keys@.len(),
                forall|j: int| 0 <= j < i ==> (#[trigger] self@[j]).0 != key@,
            decreases self.keys.len() - i,
        {
            if str_eq(self.keys[i].as_str(), key) {
                proof {
                    assert(self@[i as int].0 == key@);
                    let w = choose|w: int| 0 <= w < self@.len() && (#[trigger] self@[w]).0 == key@;
                    if w != i {
                        if w < i {
                            assert(self@[w].0 != key@);
                        } else {
                            assert(self@[i as int].0 != self@[w].0);
                        }
                    }
                }
                return Some(i);
            }
            i = i + 1;
        }
        None
    }

    /// Insert or update `key`. Returns the previous value if the key existed
    /// (its position in iteration order is retained).
    pub fn insert(&mut self, key: String, value: String) -> (r: Option<String>)
        ensures
            final(self).wf(),
            final(self)@ == map_insert(old(self)@, key@, value@),
            match r {
                Some(p) => lookup(old(self)@, key@) == Some(p@),
                None => lookup(old(self)@, key@) is None,
            },
    {
        proof {
            use_type_invariant(&*self);
        }
        let ghost o = self@;
        let found = self.find(key.as_str());
        let mut taken = OrderedMap::new();
        std::mem::swap(&mut taken, self);
        let OrderedMap { mut keys, mut vals } = taken;
        assert(Seq::new(keys@.len(), |j: int| (keys@[j]@, vals@[j]@)) =~= o);
        match found {
            Some(i) => {
                let prev = copy_str(vals[i].as_str());
                vals.set(i, value);
                let ghost n = Seq::new(keys@.len(), |j: int| (keys@[j]@, vals@[j]@));
                assert(n =~= o.update(i as int, (key@, value@)));
                proof {
                    law_map_insert(o, key@, value@, key@);
                }
                *self = OrderedMap { keys, vals };
                Some(prev)
            },
            None => {
                keys.push(key);
                vals.push(value);
                let ghost n = Seq::new(keys@.len(), |j: int| (keys@[j]@, vals@[j]@));
                assert(n =~= o.push((key@, value@)));
                proof {
                    law_map_insert(o, key@, value@, key@);
                }
                *self = OrderedMap { keys, vals };
                None
            },
        }
    }

    /// The current value for `key`, if present.
    pub fn get(&self, key: &str) -> (r: Option<&str>)
        ensures
            match r {
                Some(v) => lookup(self@, key@) == Some(v@),
                None => lookup(self@, key@) is None,
            },
    {
        proof {
            use_type_invariant(self);
        }
        match self.find(key) {
            Some(i) => Some(self.vals[i].as_str()),
            None => None,
        }
    }

    /// Number of distinct keys.
    pub fn len(&self) -> (n: usize)
        ensures
            n == self@.len(),
    {
        proof {
            use_type_invariant(self);
        }
        self.keys.len()
    }

    /// True when the map holds no entries.
    pub fn is_empty(&self) -> (b: bool)
        ensures
            b == (self@.len() == 0),
    {
        proof {
            use_type_invariant(self);
        }
        self.keys.len() == 0
    }

    /// Key→value pairs in insertion order.
    pub fn iter(&self) -> (r: Vec<(&str, &str)>)
        ensures
            r@.len() == self@.len(),
            forall|i: int| 0 <= i < r@.len() ==> (#[trigger] r@[i]).0@ == self@[i].0 && r@[i].1@ == self@[i].1,
    {
        proof {
            use_type_invariant(self);
        }
        let mut r: Vec<(&str, &str)> = Vec::new();
        let mut i: usize = 0;
        while i < self.keys.len()
            invariant
                self.wf(),
                i <= self.keys@.len(),
                r@.len() == i,
                forall|j: int| 0 <= j < i ==> (#[trigger] r@[j]).0@ == self@[j].0 && r@[j].1@ == self@[j].1,
            decreases self.keys.len() - i,
        {
            r.push((self.keys[i].as_str(), self.vals[i].as_str()));
            i = i + 1;
        }
        r
    }
}

/// The lowercase hex digit for a nibble (0–15).
pub open spec fn hex_char(n: nat) -> char {
    if n < 10 {
        crate::text::digit_char(n)
    } else if n == 10 {
        'a'
    } else if n == 11 {
        'b'
    } else if n == 12 {
        'c'
    } else if n == 13 {
        'd'
    } else if n == 14 {
        'e'
    } else {
        'f'
    }
}

/// The `JSON.stringify` escape of one character.
pub open spec fn json_char(c: char) -> Seq<char> {
    if c == '"' {
        seq!['\\', '"']
    } else if c == '\\' {
        seq!['\\', '\\']
    } else if c == '\n' {
        seq!['\\', 'n']
    } else if c == '\r' {
        seq!['\\', 'r']
    } else if c == '\t' {
        seq!['\\', 't']
    } else if c == '\u{8}' {
        seq!['\\', 'b']
    } else if c == '\u{c}' {
        seq!['\\', 'f']
    } else if (c as u32) < 0x20 {
        seq!['\\', 'u', '0', '0', hex_char((c as u32 / 16) as nat), hex_char((c as u32 % 16) as nat)]
    } else {
        seq![c]
    }
}

/// The `JSON.stringify` escape of a character sequence (no quotes).
pub open spec fn json_escape(s: Seq<char>) -> Seq<char>
    decreases s.len(),
{
    if s.len() == 0 {
        Seq::<char>::empty()
    } else {
        json_escape(s.drop_last()) + json_char(s.last())
    }
}

/// A double-quoted JSON string literal for `s`.
pub open spec fn json_quoted(s: Seq<char>) -> Seq<char> {
    seq!['"'] + json_escape(s) + seq!['"']
}

/// The lowercase hex digit for a nibble (0–15).
fn hex_digit(nibble: u32) -> (c: char)
    requires
        nibble < 16,
    ensures
        c == hex_char(nibble as nat),
{
    match nibble {
        0 => '0',
        1 => '1',
        2 => '2',
        3 => '3',
        4 => '4',
        5 => '5',
        6 => '6',
        7 => '7',
        8 => '8',
        9 => '9',
        10 => 'a',
        11 => 'b',
        12 => 'c',
        13 => 'd',
        14 => 'e',
        _ => 'f',
    }
}

/// Append the `\u00XX` escape for a control character below `0x20`.
fn push_control_escape(c: char, out: &mut String)
    requires
        (c as u32) < 0x20,
    ensures
        final(out)@ == old(out)@ + seq!['\\', 'u', '0', '0', hex_char((c as u32 / 16) as nat), hex_char((c as u32 % 16) as nat)],
{
    let v = c as u32;
    out.push('\\');
    out.push('u');
    out.push('0');
    out.push('0');
    out.push(hex_digit(v / 16));
    out.push(hex_digit(v % 16));
}

/// Append the escape of one character.
fn push_json_char(ch: char, out: &mut String)
    ensures
        final(out)@ == old(out)@ + json_char(ch),
{
    if ch == '"' {
        out.push('\\');
        out.push('"');
    } else if ch == '\\' {
        out.push('\\');
        out.push('\\');
    } else if ch == '\n' {
        out.push('\\');
        out.push('n');
    } else if ch == '\r' {
        out.push('\\');
        out.push('r');
    } else if ch == '\t' {
        out.push('\\');
        out.push('t');
    } else if ch == '\u{8}' {
        out.push('\\');
        out.push('b');
    } else if ch == '\u{c}' {
        out.push('\\');
        out.push('f');
    } else if (ch as u32) < 0x20 {
        push_control_escape(ch, out);
    } else {
        out.push(ch);
    }
}

/// Append the `JSON.stringify` escaping of `s` (double-quoted) to `out`.
fn push_json_string(s: &str, out: &mut String)
    ensures
        final(out)@ == old(out)@ + json_quoted(s@),
{
    let cs = chars_of(s);
    let ghost o0 = out@;
    out.push('"');
    let mut i: usize = 0;
    while i < cs.len()
        invariant
            i <= cs@.len(),
            out@ == o0 + seq!['"'] + json_escape(cs@.take(i as int)),
        decreases cs.len() - i,
    {
        let ghost before = out@;
        push_json_char(cs[i], out);
        i = i + 1;
        assert(cs@.take(i as int).drop_last() == cs@.take(i - 1));
        assert(out@ == o0 + seq!['"'] + json_escape(cs@.take(i as int)));
    }
    assert(cs@.take(cs@.len() as int) == cs@);
    out.push('"');
}

/// `s` as a double-quoted, `JSON.stringify`-escaped literal.
pub fn json_string(s: &str) -> (r: String)
    ensures
        r@ == json_quoted(s@),
{
    let mut r = String::new();
    push_json_string(s, &mut r);
    r
}

/// The JSON lines for entries `m[0..n]`, each `"k": "v"` followed by a comma
/// unless it is the map's last entry.
pub open spec fn json_lines(m: Seq<(Seq<char>, Seq<char>)>, n: int) -> Seq<char>
    decreases n,
{
    if n <= 0 {
        Seq::<char>::empty()
    } else {
        json_lines(m, n - 1) + json_quoted(m[n - 1].0) + seq![':', ' '] + json_quoted(m[n - 1].1) + (if n
            < m.len() {
            seq![',']
        } else {
            Seq::<char>::empty()
        }) + seq!['\n']
    }
}

/// The serialized form of an ordered map: `{}` plus a newline when empty,
/// otherwise one `"k": "v"` entry per line between `{` and `}` lines.
pub open spec fn json_map(m: Seq<(Seq<char>, Seq<char>)>) -> Seq<char> {
    if m.len() == 0 {
        seq!['{', '}', '\n']
    } else {
        seq!['{', '\n'] + json_lines(m, m.len() as int) + seq!['}', '\n']
    }
}

/// Serialize an ordered map as `{\n"k": "v",\n...\n}\n` — one entry per line,
/// `JSON.stringify`-compatible string escaping, insertion order.
pub fn to_json(map: &OrderedMap) -> (r: String)
    ensures
        r@ == json_map(map@),
{
    if map.is_empty() {
        let mut r = String::new();
        push_str(&mut r, "{}\n");
        proof {
            reveal_strlit("{}\n");
        }
        return r;
    }
    let mut out = String::new();
    out.push('{');
    out.push('\n');
    let entries = map.iter();
    let n = map.len();
    let mut i: usize = 0;
    while i < entries.len()
        invariant
            n == map@.len(),
            entries@.len() == n,
            forall|j: int| 0 <= j < entries@.len() ==> (#[trigger] entries@[j]).0@ == map@[j].0 && entries@[j].1@ == map@[j].1,
            i <= n,
            out@ == seq!['{', '\n'] + json_lines(map@, i as int),
        decreases entries.len() - i,
    {
        let (key, value) = entries[i];
        push_json_string(key, &mut out);
        out.push(':');
        out.push(' ');
        push_json_string(value, &mut out);
        if i + 1 < n {
            out.push(',');
        }
        out.push('\n');
        i = i + 1;
        assert(out@ == seq!['{', '\n'] + json_lines(map@, i as int));
    }
    out.push('}');
    out.push('\n');
    out
}

/// With distinct keys, `index_of_key` finds the one position holding `k`.
proof fn lemma_index_of_key_at(m: Seq<(Seq<char>, Seq<char>)>, k: Seq<char>, i: int)
    requires
        distinct_keys(m),
        0 <= i < m.len(),
        m[i].0 == k,
    ensures
        index_of_key(m, k) == Some(i),
{
    let j = choose|j: int| 0 <= j < m.len() && (#[trigger] m[j]).0 == k;
    if j != i {
        if j < i {
            assert(m[j].0 != m[i].0);
        } else {
            assert(m[i].0 != m[j].0);
        }
    }
}

/// Binding `k` to `v` and then looking `k` up gives `v`; every other key
/// keeps its binding; keys stay distinct; and a key already present keeps
/// its position, so the map grows only by a new key at the end.
pub proof fn law_map_insert(m: Seq<(Seq<char>, Seq<char>)>, k: Seq<char>, v: Seq<char>, other: Seq<char>)
    requires
        distinct_keys(m),
    ensures
        distinct_keys(map_insert(m, k, v)),
        lookup(map_insert(m, k, v), k) == Some(v),
        other != k ==> lookup(map_insert(m, k, v), other) == lookup(m, other),
        keys_of(map_insert(m, k, v)) == (if lookup(m, k) is Some {
            keys_of(m)
        } else {
            keys_of(m).push(k)
        }),
{
    let m2 = map_insert(m, k, v);
    match index_of_key(m, k) {
        Some(i) => {
            assert(0 <= i < m.len() && m[i].0 == k);
            assert(keys_of(m2) =~= keys_of(m));
            assert forall|p: int, q: int| 0 <= p < q < m2.len() implies (#[trigger] m2[p]).0 != (#[trigger] m2[q]).0 by {
                assert(m2[p].0 == m[p].0 && m2[q].0 == m[q].0);
            }
            lemma_index_of_key_at(m2, k, i);
            if other != k {
                if exists|j: int| 0 <= j < m.len() && (#[trigger] m[j]).0 == other {
                    let j = choose|j: int| 0 <= j < m.len() && (#[trigger] m[j]).0 == other;
                    lemma_index_of_key_at(m, other, j);
                    lemma_index_of_key_at(m2, other, j);
                } else {
                    assert forall|j: int| 0 <= j < m2.len() implies (#[trigger] m2[j]).0 != other by {
                        assert(m2[j].0 == m[j].0);
                    }
                }
            }
        },
        None => {
            assert(forall|j: int| 0 <= j < m.len() ==> (#[trigger] m[j]).0 != k);
            assert(keys_of(m2) =~= keys_of(m).push(k));
            assert forall|p: int, q: int| 0 <= p < q < m2.len() implies (#[trigger] m2[p]).0 != (#[trigger] m2[q]).0 by {
                if q == m.len() {
                    assert(m2[p] == m[p]);
                } else {
                    assert(m2[p] == m[p] && m2[q] == m[q]);
                }
            }
            lemma_index_of_key_at(m2, k, m.len() as int);
            if other != k {
                if exists|j: int| 0 <= j < m.len() && (#[trigger] m[j]).0 == other {
                    let j = choose|j: int| 0 <= j < m.len() && (#[trigger] m[j]).0 == other;
                    lemma_index_of_key_at(m, other, j);
                    assert(m2[j] == m[j]);
                    lemma_index_of_key_at(m2, other, j);
                } else {
                    assert forall|j: int| 0 <= j < m2.len() implies (#[trigger] m2[j]).0 != other by {
                        if j < m.len() {
                            assert(m2[j] == m[j]);
                        }
                    }
                }
            }
        },
    }
}

/// The map after inserting the pairs `ps` in order.
pub open spec fn insert_all(ps: Seq<(Seq<char>, Seq<char>)>) -> Seq<(Seq<char>, Seq<char>)>
    decreases ps.len(),
{
    if ps.len() == 0 {
        Seq::empty()
    } else {
        map_insert(insert_all(ps.drop_last()), ps.last().0, ps.last().1)
    }
}

/// The value of the last pair whose key is `k`.
pub open spec fn last_value(ps: Seq<(Seq<char>, Seq<char>)>, k: Seq<char>) -> Option<Seq<char>>
    decreases ps.len(),
{
    if ps.len() == 0 {
        None
    } else if ps.last().0 == k {
        Some(ps.last().1)
    } else {
        last_value(ps.drop_last(), k)
    }
}

/// The distinct keys of `ks` in order of first appearance.
pub open spec fn first_seen(ks: Seq<Seq<char>>) -> Seq<Seq<char>>
    decreases ks.len(),
{
    if ks.len() == 0 {
        Seq::empty()
    } else if ks.drop_last().contains(ks.last()) {
        first_seen(ks.drop_last())
    } else {
        first_seen(ks.drop_last()).push(ks.last())
    }
}

/// In order, the key of every pair that binds its key to a value other
/// than the one the key last had.
pub open spec fn changed_keys(ps: Seq<(Seq<char>, Seq<char>)>) -> Seq<Seq<char>>
    decreases ps.len(),
{
    if ps.len() == 0 {
        Seq::empty()
    } else if last_value(ps.drop_last(), ps.last().0) matches Some(p) && p != ps.last().1 {
        changed_keys(ps.drop_last()).push(ps.last().0)
    } else {
        changed_keys(ps.drop_last())
    }
}

proof fn lemma_last_value_some(ps: Seq<(Seq<char>, Seq<char>)>, k: Seq<char>)
    ensures
        last_value(ps, k) is Some <==> keys_of(ps).contains(k),
    decreases ps.len(),
{
    if ps.len() > 0 {
        lemma_last_value_some(ps.drop_last(), k);
        let ks = keys_of(ps);
        assert(ks.drop_last() =~= keys_of(ps.drop_last()));
        assert(ks.last() == ps.last().0);
        if ks.contains(k) && ps.last().0 != k {
            let i = choose|i: int| 0 <= i < ks.len() && ks[i] == k;
            assert(i < ks.len() - 1);
            assert(ks.drop_last()[i] == k);
        }
        if ks.drop_last().contains(k) {
            let i = choose|i: int| 0 <= i < ks.drop_last().len() && ks.drop_last()[i] == k;
            assert(ks[i] == k);
        }
    }
}

/// Inserting pairs in order: no key is held twice, the keys stand in order
/// of first appearance, and each key holds the value of its last pair.
pub proof fn law_insert_all(ps: Seq<(Seq<char>, Seq<char>)>)
    ensures
        distinct_keys(insert_all(ps)),
        keys_of(insert_all(ps)) == first_seen(keys_of(ps)),
        forall|k: Seq<char>| #[trigger] lookup(insert_all(ps), k) == last_value(ps, k),
    decreases ps.len(),
{
    if ps.len() > 0 {
        let q = ps.drop_last();
        law_insert_all(q);
        let k = ps.last().0;
        let v = ps.last().1;
        let m = insert_all(q);
        assert(insert_all(ps) == map_insert(m, k, v));
        assert forall|k2: Seq<char>| #[trigger] lookup(insert_all(ps), k2) == last_value(ps, k2) by {
            law_map_insert(m, k, v, k2);
        }
        law_map_insert(m, k, v, k);
        lemma_last_value_some(q, k);
        let ks = keys_of(ps);
        assert(ks.drop_last() =~= keys_of(q));
        assert(ks.last() == k);
    }
}

/// Inserting into any valid map: the key then looks up to the new value,
/// every other key keeps its binding, the keys keep their order with a new
/// key appended at the end, and the map grows by one entry exactly when the
/// key was absent.
pub proof fn law_ordered_map_insert(m: OrderedMap, k: Seq<char>, v: Seq<char>, other: Seq<char>)
    requires
        m.wf(),
    ensures
        lookup(map_insert(m@, k, v), k) == Some(v),
        other != k ==> lookup(map_insert(m@, k, v), other) == lookup(m@, other),
        keys_of(map_insert(m@, k, v)) == (if lookup(m@, k) is Some {
            keys_of(m@)
        } else {
            keys_of(m@).push(k)
        }),
        map_insert(m@, k, v).len() == m@.len() + (if lookup(m@, k) is Some {
            0int
        } else {
            1int
        }),
{
    m.lemma_wf_distinct();
    law_map_insert(m@, k, v, other);
    let m2 = map_insert(m@, k, v);
    assert(keys_of(m2).len() == m2.len());
    assert(keys_of(m@).len() == m@.len());
}

/// The escape of a concatenation is the concatenation of the escapes, so
/// text can be escaped piece by piece.
pub proof fn law_json_escape_concat(a: Seq<char>, b: Seq<char>)
    ensures
        json_escape(a + b) == json_escape(a) + json_escape(b),
    decreases b.len(),
{
    if b.len() == 0 {
        assert(a + b =~= a);
        assert(json_escape(b) =~= Seq::<char>::empty());
        assert(json_escape(a) + json_escape(b) =~= json_escape(a));
    } else {
        law_json_escape_concat(a, b.drop_last());
        assert((a + b).drop_last() =~= a + b.drop_last());
        assert((a + b).last() == b.last());
        assert(json_escape(a + b) =~= json_escape(a) + json_escape(b.drop_last()) + json_char(b.last()));
    }
}

} // verus!
