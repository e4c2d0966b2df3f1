//! Stage 1 of the pipeline: source text -> typed AST.
//!
//! This module does NOT expand counts/types, compile movement, or emit JSON —
//! it only turns a `.steno` source into `Vec<Entry>` with each template
//! parsed to `Vec<Chunk>`.
use vstd::prelude::*;
use crate::text::copy_str;

pub mod expr;
pub mod source;
pub mod template;

verus! {

broadcast use vstd::seq_lib::group_seq_properties;

/// A computed index `%(EXPR)`, stored in linear form `a*d + b` (d = repeat
/// index).
#[derive(Debug, Clone, Copy, PartialEq, Eq, Structural)]
pub struct Expr {
    /// Coefficient of `d`.
    pub a: i32,
    /// Constant offset.
    pub b: i32,
}

/// One parsed template node.
#[derive(Debug)]
pub enum Chunk {
    /// Literal run of text.
    Lit(String),
    /// A raw structural `{` or `}` (a profile may strip closers).
    Brace {
        /// True for `{`, false for `}`.
        open: bool,
    },
    /// The `\n` escape.
    Newline,
    /// The `\t` escape.
    Tab,
    /// `%0`..`%9` ordered landing point.
    Landing(u32),
    /// `%d`, the in-scope count from the bank.
    Dcount,
    /// `%t`, filled by an appended type stroke.
    TypeSlot,
    /// `%T`, the type slot a fused construct's first type stroke fills.
    FusedTypeSlot,
    /// `%b`, the one-liner-toggleable newline.
    BodyBreak,
    /// `%p` destructuring slot.
    Pattern,
    /// `%[ sep | body %]` repeat block.
    Repeat {
        /// Joiner emitted between items, never after the last.
        sep: Vec<Chunk>,
        /// Repeated body.
        body: Vec<Chunk>,
    },
    /// `%(EXPR)` computed landing point.
    Computed(Expr),
    /// `%<N>` end landing: the N-th landing counted back from the last.
    EndLanding(u32),
}

/// Model of a chunk, with text as character sequences.
pub enum ChunkV {
    Lit(Seq<char>),
    Brace(bool),
    Newline,
    Tab,
    Landing(u32),
    Dcount,
    TypeSlot,
    FusedTypeSlot,
    BodyBreak,
    Pattern,
    Repeat(Seq<ChunkV>, Seq<ChunkV>),
    Computed(Expr),
    EndLanding(u32),
}

/// The model of one chunk.
pub open spec fn chunk_view(c: Chunk) -> ChunkV
    decreases c, 0nat,
{
    match c {
        Chunk::Lit(s) => ChunkV::Lit(s@),
        Chunk::Brace { open } => ChunkV::Brace(open),
        Chunk::Newline => ChunkV::Newline,
        Chunk::Tab => ChunkV::Tab,
        Chunk::Landing(n) => ChunkV::Landing(n),
        Chunk::Dcount => ChunkV::Dcount,
        Chunk::TypeSlot => ChunkV::TypeSlot,
        Chunk::FusedTypeSlot => ChunkV::FusedTypeSlot,
        Chunk::BodyBreak => ChunkV::BodyBreak,
        Chunk::Pattern => ChunkV::Pattern,
        Chunk::Repeat { sep, body } => ChunkV::Repeat(chunks_view(sep@), chunks_view(body@)),
        Chunk::Computed(e) => ChunkV::Computed(e),
        Chunk::EndLanding(n) => ChunkV::EndLanding(n),
    }
}

/// The model of a chunk sequence.
pub open spec fn chunks_view(s: Seq<Chunk>) -> Seq<ChunkV>
    decreases s, s.len(),
{
    if s.len() == 0 {
        Seq::<ChunkV>::empty()
    } else {
        chunks_view(s.drop_last()).push(chunk_view(s.last()))
    }
}

impl View for Chunk {
    type V = ChunkV;

    open spec fn view(&self) -> ChunkV {
        chunk_view(*self)
    }
}

/// `chunks_view` maps each element through `chunk_view`.
pub broadcast proof fn lemma_chunks_view(s: Seq<Chunk>)
    ensures
        #[trigger] chunks_view(s).len() == s.len(),
        forall|i: int| 0 <= i < s.len() ==> #[trigger] chunks_view(s)[i] == chunk_view(s[i]),
    decreases s.len(),
{
    if s.len() > 0 {
        lemma_chunks_view(s.drop_last());
    }
}

/// The model of a chunk vector.
pub open spec fn cv(v: &Vec<Chunk>) -> Seq<ChunkV> {
    chunks_view(v@)
}

/// Elementwise characterization of `cv`.
pub proof fn lemma_cv(v: &Vec<Chunk>)
    ensures
        cv(v).len() == v@.len(),
        forall|i: int| 0 <= i < v@.len() ==> #[trigger] cv(v)[i] == v@[i]@,
{
    lemma_chunks_view(v@);
}

/// Two chunk sequences with elementwise-equal models have equal models.
pub proof fn lemma_chunks_view_ext(a: Seq<Chunk>, b: Seq<Chunk>)
    requires
        a.len() == b.len(),
        forall|i: int| 0 <= i < a.len() ==> chunk_view(#[trigger] a[i]) == chunk_view(b[i]),
    ensures
        chunks_view(a) == chunks_view(b),
{
    lemma_chunks_view(a);
    lemma_chunks_view(b);
    assert(chunks_view(a) =~= chunks_view(b));
}

impl Chunk {
    /// The kind tag as named in the source DSL design docs (used in error
    /// messages and diagnostics).
    pub fn kind_name(&self) -> (r: &'static str)
        ensures
            r@ == chunk_kind(self@),
    {
        proof {
            reveal_strlit("lit");
            reveal_strlit("brace");
            reveal_strlit("newline");
            reveal_strlit("tab");
            reveal_strlit("landing");
            reveal_strlit("dcount");
            reveal_strlit("typeslot");
            reveal_strlit("fusedtypeslot");
            reveal_strlit("bodybreak");
            reveal_strlit("pattern");
            reveal_strlit("repeat");
            reveal_strlit("computed");
            reveal_strlit("endlanding");
        }
        match self {
            Chunk::Lit(_) => "lit",
            Chunk::Brace { .. } => "brace",
            Chunk::Newline => "newline",
            Chunk::Tab => "tab",
            Chunk::Landing(_) => "landing",
            Chunk::Dcount => "dcount",
            Chunk::TypeSlot => "typeslot",
            Chunk::FusedTypeSlot => "fusedtypeslot",
            Chunk::BodyBreak => "bodybreak",
            Chunk::Pattern => "pattern",
            Chunk::Repeat { .. } => "repeat",
            Chunk::Computed(_) => "computed",
            Chunk::EndLanding(_) => "endlanding",
        }
    }

    /// A deep copy of this chunk.
    pub fn copy(&self) -> (r: Chunk)
        ensures
            r@ == self@,
        decreases self,
    {
        match self {
            Chunk::Lit(s) => Chunk::Lit(copy_str(s.as_str())),
            Chunk::Brace { open } => Chunk::Brace { open: *open },
            Chunk::Newline => Chunk::Newline,
            Chunk::Tab => Chunk::Tab,
            Chunk::Landing(n) => Chunk::Landing(*n),
            Chunk::Dcount => Chunk::Dcount,
            Chunk::TypeSlot => Chunk::TypeSlot,
            Chunk::FusedTypeSlot => Chunk::FusedTypeSlot,
            Chunk::BodyBreak => Chunk::BodyBreak,
            Chunk::Pattern => Chunk::Pattern,
            Chunk::Repeat { sep, body } => Chunk::Repeat { sep: copy_chunks(sep), body: copy_chunks(body) },
            Chunk::Computed(e) => Chunk::Computed(*e),
            Chunk::EndLanding(n) => Chunk::EndLanding(*n),
        }
    }
}

/// A deep copy of a chunk vector.
pub fn copy_chunks(v: &Vec<Chunk>) -> (r: Vec<Chunk>)
    ensures
        cv(&r) == cv(v),
    decreases v,
{
    let mut r: Vec<Chunk> = Vec::new();
    let mut i: usize = 0;
    while i < v.len()
        invariant
            i <= v@.len(),
            r@.len() == i,
            forall|j: int| 0 <= j < i ==> (#[trigger] r@[j])@ == v@[j]@,
        decreases v.len() - i,
    {
        proof {
            assert(decreases_to!(v => v@[i as int]));
        }
        r.push(v[i].copy());
        i = i + 1;
    }
    proof {
        lemma_chunks_view_ext(r@, v@);
    }
    r
}

/// The kind tag of a chunk model.
pub open spec fn chunk_kind(c: ChunkV) -> Seq<char> {
    match c {
        ChunkV::Lit(_) => "lit"@,
        ChunkV::Brace(_) => "brace"@,
        ChunkV::Newline => "newline"@,
        ChunkV::Tab => "tab"@,
        ChunkV::Landing(_) => "landing"@,
        ChunkV::Dcount => "dcount"@,
        ChunkV::TypeSlot => "typeslot"@,
        ChunkV::FusedTypeSlot => "fusedtypeslot"@,
        ChunkV::BodyBreak => "bodybreak"@,
        ChunkV::Pattern => "pattern"@,
        ChunkV::Repeat(_, _) => "repeat"@,
        ChunkV::Computed(_) => "computed"@,
        ChunkV::EndLanding(_) => "endlanding"@,
    }
}

/// Set of boolean `@`-directives attached to an entry.
#[derive(Debug, Clone, Copy, PartialEq, Eq, Structural)]
pub struct EntryFlags(u8);

/// Bit for `@multiline`.
pub const MULTILINE: u8 = 1;
/// Bit for `@type`.
pub const IS_TYPE: u8 = 2;
/// Bit for `@noarg`.
pub const NO_ARG: u8 = 4;
/// Bit for `@fuse`.
pub const FUSE: u8 = 8;
/// Bit for `@literal`.
pub const LITERAL: u8 = 16;

impl EntryFlags {
    /// The raw flag bits.
    pub closed spec fn bits(self) -> u8 {
        self.0
    }

    /// The flag named by `bit` is set.
    pub open spec fn has(self, bit: u8) -> bool {
        self.bits() & bit != 0
    }

    /// No flag set (model).
    pub closed spec fn spec_none() -> Self {
        EntryFlags(0)
    }

    /// These flags with `bit` also set (model).
    pub closed spec fn with_bits(self, bit: u8) -> Self {
        EntryFlags(self.0 | bit)
    }

    /// No flag set.
    pub fn none() -> (r: Self)
        ensures
            r.bits() == 0,
            r == Self::spec_none(),
    {
        EntryFlags(0)
    }

    /// `@multiline` — construct never collapses to one line (ignores the O
    /// flag).
    pub fn multiline(self) -> (b: bool)
        ensures
            b == self.has(MULTILINE),
    {
        self.0 & MULTILINE != 0
    }

    /// `@type` — this entry is an appendable type, not a standalone
    /// construct.
    pub fn is_type(self) -> (b: bool)
        ensures
            b == self.has(IS_TYPE),
    {
        self.0 & IS_TYPE != 0
    }

    /// `@noarg` — a type that may be a return type but never a generic
    /// argument.
    pub fn no_arg(self) -> (b: bool)
        ensures
            b == self.has(NO_ARG),
    {
        self.0 & NO_ARG != 0
    }

    /// `@fuse` — fuse the last stroke segment into the first appended type
    /// stroke (so the type-less intermediate is never a required stroke).
    pub fn fuse(self) -> (b: bool)
        ensures
            b == self.has(FUSE),
    {
        self.0 & FUSE != 0
    }

    /// `@literal` — a complete pre-formatted block: the smart profile emits
    /// it byte-identical to plain (no closer-drop).
    pub fn literal(self) -> (b: bool)
        ensures
            b == self.has(LITERAL),
    {
        self.0 & LITERAL != 0
    }

    /// Set the flag named by its directive. Returns false (and changes
    /// nothing) when `name` is not one of the boolean directives.
    pub fn set_named(&mut self, name: &str) -> (ok: bool)
        ensures
            ok == (directive_bit(name@) != 0u8),
            final(self).bits() == (old(self).bits() | directive_bit(name@)),
            ok ==> *final(self) == old(self).with_bits(directive_bit(name@)),
            !ok ==> *final(self) == *old(self),
    {
        let bit = directive_bit_of(name);
        if bit == 0 {
            assert(self.0 | 0u8 == self.0) by (bit_vector);
            return false;
        }
        self.0 = self.0 | bit;
        true
    }
}

/// The flag bit a boolean directive name selects (0 for any other name).
pub open spec fn directive_bit(name: Seq<char>) -> u8 {
    if name == "multiline"@ {
        MULTILINE
    } else if name == "type"@ {
        IS_TYPE
    } else if name == "noarg"@ {
        NO_ARG
    } else if name == "fuse"@ {
        FUSE
    } else if name == "literal"@ {
        LITERAL
    } else {
        0
    }
}

fn directive_bit_of(name: &str) -> (b: u8)
    ensures
        b == directive_bit(name@),
{
    if crate::text::str_eq(name, "multiline") {
        MULTILINE
    } else if crate::text::str_eq(name, "type") {
        IS_TYPE
    } else if crate::text::str_eq(name, "noarg") {
        NO_ARG
    } else if crate::text::str_eq(name, "fuse") {
        FUSE
    } else if crate::text::str_eq(name, "literal") {
        LITERAL
    } else {
        0
    }
}

/// One dictionary entry: a stroke sequence, its parsed template, and any
/// attached directives.
#[derive(Debug)]
pub struct Entry {
    /// Stroke key split on `/`, e.g. `["STKWR-PBGS", "-FLT"]`.
    pub stroke: Vec<String>,
    /// The stroke exactly as written on the opening fence.
    pub stroke_raw: String,
    /// Parsed template chunks.
    pub template: Vec<Chunk>,
    /// Raw template text between the fences (for debugging / round-trip).
    pub raw: String,
    /// `@count` key spec, e.g. "AOEU".
    pub count: Option<String>,
    /// `@arity N` — type-arg count for a generic type entry.
    pub arity: Option<u32>,
    /// Boolean directive flags.
    pub flags: EntryFlags,
    /// 1-based line of the opening fence.
    pub line: usize,
}

/// The models of a vector of strings.
pub open spec fn strs_view(v: Seq<String>) -> Seq<Seq<char>> {
    v.map_values(|s: String| s@)
}

/// The model of an optional string.
pub open spec fn opt_view(o: Option<String>) -> Option<Seq<char>> {
    match o {
        Some(s) => Some(s@),
        None => None,
    }
}

/// Two entries carry the same content.
pub open spec fn same_entry(a: Entry, b: Entry) -> bool {
    &&& strs_view(a.stroke@) == strs_view(b.stroke@)
    &&& a.stroke_raw@ == b.stroke_raw@
    &&& chunks_view(a.template@) == chunks_view(b.template@)
    &&& a.raw@ == b.raw@
    &&& opt_view(a.count) == opt_view(b.count)
    &&& a.arity == b.arity
    &&& a.flags == b.flags
    &&& a.line == b.line
}

/// A copy of a vector of strings.
pub fn copy_strings(v: &Vec<String>) -> (r: Vec<String>)
    ensures
        strs_view(r@) == strs_view(v@),
{
    let mut r: Vec<String> = Vec::new();
    let mut i: usize = 0;
    while i < v.len()
        invariant
            i <= v@.len(),
            r@.len() == i,
            forall|j: int| 0 <= j < i ==> (#[trigger] r@[j])@ == v@[j]@,
        decreases v.len() - i,
    {
        r.push(copy_str(v[i].as_str()));
        i = i + 1;
    }
    assert(strs_view(r@) =~= strs_view(v@));
    r
}

/// A copy of an optional string.
pub fn copy_opt(o: &Option<String>) -> (r: Option<String>)
    ensures
        opt_view(r) == opt_view(*o),
{
    match o {
        Some(s) => Some(copy_str(s.as_str())),
        None => None,
    }
}

impl Entry {
    /// A deep copy of this entry.
    pub fn copy(&self) -> (r: Entry)
        ensures
            same_entry(r, *self),
    {
        Entry {
            stroke: copy_strings(&self.stroke),
            stroke_raw: copy_str(self.stroke_raw.as_str()),
            template: copy_chunks(&self.template),
            raw: copy_str(self.raw.as_str()),
            count: copy_opt(&self.count),
            arity: self.arity,
            flags: self.flags,
            line: self.line,
        }
    }
}

} // verus!
