//! Emit the C++ data header: the type table and the construct table as
//! `const` arrays. No entry rows — the device walk reconstructs them.
//! Strokes are pre-encoded to key masks so the header parses nothing at
//! load.
use vstd::prelude::*;
use super::super::walk::{op_view, ops_spec, ops_view, template_ops, OpV, TemplateOp};
use super::super::{construct_view, constructs_view, inftype_view, inftypes_view, Construct, ConstructV, InfType, InfTypeV};
use super::{c_escape, c_escape_spec, stroke_mask, stroke_mask_spec};
use crate::error::ExpandError;
use crate::stroke::keys::stroke_error;
use crate::parse::{cv, strs_view, Chunk, ChunkV};
use crate::text::{copy_str, decimal, push_decimal, push_str};

verus! {

broadcast use vstd::seq_lib::group_seq_properties;

/// A generous cap on outline length reported to the engine. The walk itself
/// is unbounded; this only bounds how many strokes the engine offers.
pub const MAX_OUTLINE_LENGTH: u32 = 24;

/// The fixed head of the data header: guard, include, struct definitions.
pub const PREAMBLE: &'static str = "//---------------------------------------------------------------------------
// Replay tables for dict.infinite.steno: one record per @type and one per
// Pass-A construct; zero rows. Do not edit and do not commit: out/ holds
// build products only.
//---------------------------------------------------------------------------
#pragma once
#include <stdint.h>

namespace steno_generated {

struct GenType {
  uint32_t stroke;
  uint32_t arity;
  const char *text; // literal with %t argument markers
};

static const uint8_t OP_TEXT = 0u;
static const uint8_t OP_SLOT = 1u;
static const uint8_t OP_LANDING = 2u;
static const uint8_t OP_NEWLINE = 3u;

// `text` and `landing` are mutually exclusive — a TEXT op has no landing index
// and a LANDING op no surface bytes — so they share storage: 8 bytes per op on
// the device rather than 12. Read only the member `kind` selects. The saving is
// load-bearing, not cosmetic: the op arrays are the single largest thing this
// header contributes to firmware flash, and the image has to fit under
// STENO_CONFIG_BLOCK_ADDRESS (see the flash-extent script).
struct GenOp {
  uint8_t kind;        // 0=TEXT 1=SLOT 2=LANDING 3=NEWLINE
  union {
    const char *text;  // TEXT only
    uint32_t landing;  // LANDING only
  };
};

struct GenConstruct {
  const uint32_t *base;      // baseLength segment masks, or nullptr
  uint32_t baseLength;
  bool hasShape;             // true for a @fuse construct
  uint32_t shape;            // fuse shape mask (valid iff hasShape)
  const GenOp *ops;          // opCount template ops, in template order
  uint32_t opCount;
  const uint8_t *fillOrder;  // slotCount slot indices, or nullptr
  uint32_t slotCount;
};

";

/// The uppercase hexadecimal digit for `d < 16`.
pub open spec fn hex_digit(d: nat) -> char {
    if d < 10 {
        crate::text::digit_char(d)
    } else if d == 10 {
        'A'
    } else if d == 11 {
        'B'
    } else if d == 12 {
        'C'
    } else if d == 13 {
        'D'
    } else if d == 14 {
        'E'
    } else {
        'F'
    }
}

/// The uppercase hexadecimal rendering of `n` (no leading zeros).
pub open spec fn hex_spec(n: nat) -> Seq<char>
    decreases n,
{
    if n < 16 {
        seq![hex_digit(n)]
    } else {
        hex_spec(n / 16).push(hex_digit(n % 16))
    }
}

/// `n` in uppercase hexadecimal, zero-padded to at least six digits.
pub open spec fn hex6(n: nat) -> Seq<char> {
    let h = hex_spec(n);
    if h.len() < 6 {
        Seq::new((6 - h.len()) as nat, |i: int| '0') + h
    } else {
        h
    }
}

fn hex_char(d: u64) -> (c: char)
    requires
        d < 16,
    ensures
        c == hex_digit(d as nat),
{
    if d < 10 {
        crate::text::digit_of(d)
    } else if d == 10 {
        'A'
    } else if d == 11 {
        'B'
    } else if d == 12 {
        'C'
    } else if d == 13 {
        'D'
    } else if d == 14 {
        'E'
    } else {
        'F'
    }
}

fn push_hex(out: &mut String, n: u64)
    ensures
        final(out)@ == old(out)@ + hex_spec(n as nat),
    decreases n,
{
    if n < 16 {
        out.push(hex_char(n));
    } else {
        let ghost o0 = out@;
        push_hex(out, n / 16);
        out.push(hex_char(n % 16));
        assert(out@ == o0 + hex_spec(n as nat));
    }
}

/// Append `n` in uppercase hexadecimal, zero-padded to six digits.
fn push_hex6(out: &mut String, n: u32)
    ensures
        final(out)@ == old(out)@ + hex6(n as nat),
{
    let mut h = String::new();
    push_hex(&mut h, n as u64);
    assert(h@ == hex_spec(n as nat));
    let hv = crate::text::chars_of(h.as_str());
    let len = hv.len();
    let ghost o0 = out@;
    if len < 6 {
        let mut k: usize = 0;
        while k < 6 - len
            invariant
                len < 6,
                k <= 6 - len,
                out@ == o0 + Seq::new(k as nat, |i: int| '0'),
            decreases 6 - len - k,
        {
            out.push('0');
            k = k + 1;
            assert(Seq::new(k as nat, |i: int| '0') =~= Seq::new((k - 1) as nat, |i: int| '0').push('0'));
        }
    } else {
        assert(o0 + Seq::<char>::empty() == o0);
    }
    let ghost o1 = out@;
    push_str(out, h.as_str());
    proof {
        if len < 6 {
            assert(out@ == o0 + Seq::new((6 - len) as nat, |i: int| '0') + h@);
        }
    }
}

/// Items joined by `", "`.
pub open spec fn join_comma(items: Seq<Seq<char>>) -> Seq<char>
    decreases items.len(),
{
    if items.len() == 0 {
        Seq::empty()
    } else if items.len() == 1 {
        items[0]
    } else {
        join_comma(items.drop_last()) + seq![',', ' '] + items.last()
    }
}

/// Append `items` joined by `", "`.
fn push_comma_joined(out: &mut String, items: &Vec<String>)
    ensures
        final(out)@ == old(out)@ + join_comma(strs_view(items@)),
{
    let ghost iv = strs_view(items@);
    let ghost o0 = out@;
    let mut i: usize = 0;
    assert(iv.take(0) == Seq::<Seq<char>>::empty());
    while i < items.len()
        invariant
            i <= items@.len(),
            iv == strs_view(items@),
            out@ == o0 + join_comma(iv.take(i as int)),
        decreases items.len() - i,
    {
        if i > 0 {
            out.push(',');
            out.push(' ');
        }
        push_str(out, items[i].as_str());
        proof {
            let t = iv.take(i + 1);
            assert(t.drop_last() == iv.take(i as int));
            assert(t.last() == items@[i as int]@);
        }
        i = i + 1;
    }
    assert(iv.take(i as int) == iv);
}

/// One `TYPES[]` row.
pub open spec fn type_row_spec(t: InfTypeV) -> Option<Seq<char>> {
    match stroke_mask_spec(t.stroke) {
        None => None,
        Some(m) => Some(
            "  {0x"@ + hex6(m as nat) + "u, "@ + decimal(t.arity as nat) + "u, \""@ + c_escape_spec(t.text)
                + "\"},\n"@,
        ),
    }
}

/// The rows of the first `k` types.
pub open spec fn type_rows_fold(ts: Seq<InfTypeV>, k: nat) -> Option<Seq<char>>
    decreases k,
{
    if k == 0 || k > ts.len() {
        Some(Seq::empty())
    } else {
        match (type_rows_fold(ts, (k - 1) as nat), type_row_spec(ts[k - 1])) {
            (Some(prev), Some(row)) => Some(prev + row),
            _ => None,
        }
    }
}

/// The type table array.
pub open spec fn type_rows_spec(ts: Seq<InfTypeV>) -> Option<Seq<char>> {
    match type_rows_fold(ts, ts.len()) {
        None => None,
        Some(rows) => Some(
            "static const GenType TYPES[] = {\n"@ + rows + "};\nstatic const uint32_t TYPE_COUNT = "@ + decimal(
                ts.len(),
            ) + "u;\n\n"@,
        ),
    }
}

/// Why the rows of the first `k` types fail: the first type stroke that
/// does not encode.
pub open spec fn type_rows_error(ts: Seq<InfTypeV>, k: nat) -> Seq<char>
    decreases k,
{
    if k == 0 || k > ts.len() {
        Seq::empty()
    } else if type_rows_fold(ts, (k - 1) as nat) is None {
        type_rows_error(ts, (k - 1) as nat)
    } else {
        stroke_error(ts[k - 1].stroke)
    }
}

proof fn lemma_rows_none(ts: Seq<InfTypeV>, k: nat, k2: nat)
    requires
        k <= k2 <= ts.len(),
        type_rows_fold(ts, k) is None,
    ensures
        type_rows_fold(ts, k2) is None,
        type_rows_error(ts, k2) == type_rows_error(ts, k),
    decreases k2 - k,
{
    if k < k2 {
        lemma_rows_none(ts, k, (k2 - 1) as nat);
    }
}

/// The type table array.
fn type_rows(types: &Vec<InfType>) -> (r: Result<String, ExpandError>)
    ensures
        match type_rows_spec(inftypes_view(types@)) {
            Some(s) => r matches Ok(v) && v@ == s,
            None => r matches Err(e) && e.spec_message() == type_rows_error(inftypes_view(types@), types@.len() as nat),
        },
{
    let ghost tv = inftypes_view(types@);
    let mut rows = String::new();
    let mut i: usize = 0;
    while i < types.len()
        invariant
            i <= types@.len(),
            tv == inftypes_view(types@),
            type_rows_fold(tv, i as nat) == Some(rows@),
        decreases types.len() - i,
    {
        let t = &types[i];
        assert(tv[i as int] == inftype_view(*t));
        let m = match stroke_mask(t.stroke.as_str()) {
            Ok(m) => m,
            Err(e) => {
                proof {
                    lemma_rows_none(tv, (i + 1) as nat, tv.len());
                }
                return Err(e);
            },
        };
        push_str(&mut rows, "  {0x");
        push_hex6(&mut rows, m);
        push_str(&mut rows, "u, ");
        push_decimal(&mut rows, t.arity as u64);
        push_str(&mut rows, "u, \"");
        let e = c_escape(t.text.as_str());
        push_str(&mut rows, e.as_str());
        push_str(&mut rows, "\"},\n");
        i = i + 1;
    }
    let mut out = copy_str("static const GenType TYPES[] = {\n");
    push_str(&mut out, rows.as_str());
    push_str(&mut out, "};\nstatic const uint32_t TYPE_COUNT = ");
    push_decimal(&mut out, types.len() as u64);
    push_str(&mut out, "u;\n\n");
    Ok(out)
}

/// One op's initializer; the second element initializes the op's anonymous
/// union (designated for the ops that carry a payload, empty otherwise).
pub open spec fn op_init_spec(op: OpV) -> Seq<char> {
    match op {
        OpV::Text(s) => "{OP_TEXT, {.text = \""@ + c_escape_spec(s) + "\"}}"@,
        OpV::Slot => "{OP_SLOT, {}}"@,
        OpV::Landing(n) => "{OP_LANDING, {.landing = "@ + decimal(n as nat) + "u}}"@,
        OpV::Newline => "{OP_NEWLINE, {}}"@,
    }
}

/// One op's initializer.
fn op_initializer(op: &TemplateOp) -> (r: String)
    ensures
        r@ == op_init_spec(op_view(*op)),
{
    match op {
        TemplateOp::Text(s) => {
            let mut r = copy_str("{OP_TEXT, {.text = \"");
            let e = c_escape(s.as_str());
            push_str(&mut r, e.as_str());
            push_str(&mut r, "\"}}");
            r
        },
        TemplateOp::Slot => copy_str("{OP_SLOT, {}}"),
        TemplateOp::Landing(n) => {
            let mut r = copy_str("{OP_LANDING, {.landing = ");
            push_decimal(&mut r, *n as u64);
            push_str(&mut r, "u}}");
            r
        },
        TemplateOp::Newline => copy_str("{OP_NEWLINE, {}}"),
    }
}

/// The op initializers of a template.
pub open spec fn op_inits(cs: Seq<ChunkV>) -> Seq<Seq<char>> {
    ops_spec(cs).map_values(|o: OpV| op_init_spec(o))
}

/// The `c{i}Ops[]` backing array line for one construct's template.
pub open spec fn ops_array_spec(i: nat, cs: Seq<ChunkV>) -> Seq<char> {
    "static const GenOp c"@ + decimal(i) + "Ops[] = {"@ + join_comma(op_inits(cs)) + "};\n"@
}

/// The `c{i}Ops[]` backing array line for one construct's template.
fn ops_array(i: usize, template: &Vec<Chunk>) -> (r: String)
    ensures
        r@ == ops_array_spec(i as nat, cv(template)),
{
    let ops = template_ops(template);
    let ghost ov = ops_view(ops@);
    let mut items: Vec<String> = Vec::new();
    let mut k: usize = 0;
    while k < ops.len()
        invariant
            k <= ops@.len(),
            ov == ops_view(ops@),
            strs_view(items@) == ov.take(k as int).map_values(|o: OpV| op_init_spec(o)),
        decreases ops.len() - k,
    {
        let s = op_initializer(&ops[k]);
        let ghost before = strs_view(items@);
        items.push(s);
        proof {
            assert(strs_view(items@) == before.push(s@));
            assert(ov.take(k + 1).map_values(|o: OpV| op_init_spec(o)) =~= ov.take(k as int).map_values(|o: OpV| op_init_spec(o)).push(op_init_spec(ov[k as int])));
        }
        k = k + 1;
    }
    assert(ov.take(k as int) == ov);
    let mut out = copy_str("static const GenOp c");
    push_decimal(&mut out, i as u64);
    push_str(&mut out, "Ops[] = {");
    push_comma_joined(&mut out, &items);
    push_str(&mut out, "};\n");
    out
}

/// The base-segment key masks of a construct, as `0x…u` items; `None` when a
/// segment does not encode.
pub open spec fn base_mask_items(base: Seq<Seq<char>>, k: nat) -> Option<Seq<Seq<char>>>
    decreases k,
{
    if k == 0 || k > base.len() {
        Some(Seq::empty())
    } else {
        match (base_mask_items(base, (k - 1) as nat), stroke_mask_spec(base[k - 1])) {
            (Some(prev), Some(m)) => Some(prev.push("0x"@ + hex6(m as nat) + "u"@)),
            _ => None,
        }
    }
}

/// Why the masks of the first `k` base segments fail: the first segment
/// that does not encode.
pub open spec fn base_masks_error(base: Seq<Seq<char>>, k: nat) -> Seq<char>
    decreases k,
{
    if k == 0 || k > base.len() {
        Seq::empty()
    } else if base_mask_items(base, (k - 1) as nat) is None {
        base_masks_error(base, (k - 1) as nat)
    } else {
        stroke_error(base[k - 1])
    }
}

proof fn lemma_masks_none(base: Seq<Seq<char>>, k: nat, k2: nat)
    requires
        k <= k2 <= base.len(),
        base_mask_items(base, k) is None,
    ensures
        base_mask_items(base, k2) is None,
        base_masks_error(base, k2) == base_masks_error(base, k),
    decreases k2 - k,
{
    if k < k2 {
        lemma_masks_none(base, k, (k2 - 1) as nat);
    }
}

/// The comma-joined base-segment key masks of a construct.
fn base_masks(c: &Construct) -> (r: Result<String, ExpandError>)
    ensures
        match base_mask_items(strs_view(c.base@), c.base@.len()) {
            Some(items) => r matches Ok(s) && s@ == join_comma(items),
            None => r matches Err(e) && e.spec_message() == base_masks_error(strs_view(c.base@), c.base@.len()),
        },
{
    let ghost bv = strs_view(c.base@);
    let mut items: Vec<String> = Vec::new();
    let mut k: usize = 0;
    while k < c.base.len()
        invariant
            k <= c.base@.len(),
            bv == strs_view(c.base@),
            base_mask_items(bv, k as nat) == Some(strs_view(items@)),
        decreases c.base.len() - k,
    {
        assert(bv[k as int] == c.base@[k as int]@);
        let m = match stroke_mask(c.base[k].as_str()) {
            Ok(m) => m,
            Err(e) => {
                proof {
                    lemma_masks_none(bv, (k + 1) as nat, bv.len());
                }
                return Err(e);
            },
        };
        let mut s = copy_str("0x");
        push_hex6(&mut s, m);
        push_str(&mut s, "u");
        let ghost before = strs_view(items@);
        items.push(s);
        proof {
            assert(strs_view(items@) == before.push(s@));
        }
        k = k + 1;
    }
    let mut out = String::new();
    push_comma_joined(&mut out, &items);
    Ok(out)
}

/// The fill-order items `{k}u`.
pub open spec fn fill_items(order: Seq<usize>) -> Seq<Seq<char>> {
    order.map_values(|k: usize| decimal(k as nat) + "u"@)
}

/// The three backing arrays (base masks, template ops, fill order) for one
/// construct; an empty base or fill order is elided.
pub open spec fn construct_arrays_spec(i: nat, c: ConstructV) -> Option<Seq<char>> {
    let base_line = if c.base.len() == 0 {
        Some(Seq::empty())
    } else {
        match base_mask_items(c.base, c.base.len()) {
            None => None,
            Some(items) => Some(
                "static const uint32_t c"@ + decimal(i) + "Base[] = {"@ + join_comma(items) + "};\n"@,
            ),
        }
    };
    match base_line {
        None => None,
        Some(b) => {
            let fill_line = if c.fill_order.len() == 0 {
                Seq::empty()
            } else {
                "static const uint8_t c"@ + decimal(i) + "Fill[] = {"@ + join_comma(fill_items(c.fill_order))
                    + "};\n"@
            };
            Some(b + ops_array_spec(i, c.template) + fill_line)
        },
    }
}

/// The three backing arrays for one construct.
fn construct_arrays(i: usize, c: &Construct) -> (r: Result<String, ExpandError>)
    ensures
        match construct_arrays_spec(i as nat, construct_view(*c)) {
            Some(s) => r matches Ok(v) && v@ == s,
            None => r matches Err(e) && e.spec_message() == base_masks_error(construct_view(*c).base, c.base@.len()),
        },
{
    let mut out = String::new();
    if c.base.len() > 0 {
        let masks = match base_masks(c) {
            Ok(m) => m,
            Err(e) => {
                return Err(e);
            },
        };
        push_str(&mut out, "static const uint32_t c");
        push_decimal(&mut out, i as u64);
        push_str(&mut out, "Base[] = {");
        push_str(&mut out, masks.as_str());
        push_str(&mut out, "};\n");
    }
    let ghost o1 = out@;
    let ops = ops_array(i, &c.template);
    push_str(&mut out, ops.as_str());
    if c.fill_order.len() > 0 {
        let mut items: Vec<String> = Vec::new();
        let mut k: usize = 0;
        while k < c.fill_order.len()
            invariant
                k <= c.fill_order@.len(),
                strs_view(items@) == fill_items(c.fill_order@).take(k as int),
            decreases c.fill_order.len() - k,
        {
            let mut s = String::new();
            push_decimal(&mut s, c.fill_order[k] as u64);
            push_str(&mut s, "u");
            let ghost before = strs_view(items@);
            items.push(s);
            proof {
                assert(strs_view(items@) == before.push(s@));
                assert(fill_items(c.fill_order@).take(k + 1) =~= fill_items(c.fill_order@).take(k as int).push(s@));
            }
            k = k + 1;
        }
        assert(fill_items(c.fill_order@).take(k as int) == fill_items(c.fill_order@));
        push_str(&mut out, "static const uint8_t c");
        push_decimal(&mut out, i as u64);
        push_str(&mut out, "Fill[] = {");
        push_comma_joined(&mut out, &items);
        push_str(&mut out, "};\n");
    }
    Ok(out)
}

/// One `CONSTRUCTS[]` row referencing the construct's backing arrays.
pub open spec fn construct_row_spec(i: nat, c: ConstructV) -> Option<Seq<char>> {
    let base = if c.base.len() == 0 {
        "nullptr"@
    } else {
        "c"@ + decimal(i) + "Base"@
    };
    let fill = if c.fill_order.len() == 0 {
        "nullptr"@
    } else {
        "c"@ + decimal(i) + "Fill"@
    };
    let shape: Option<(Seq<char>, u32)> = match c.shape {
        Some(s) => match stroke_mask_spec(s) {
            Some(m) => Some(("true"@, m)),
            None => None,
        },
        None => Some(("false"@, 0u32)),
    };
    match shape {
        None => None,
        Some((has_shape, mask)) => Some(
            "  {"@ + base + ", "@ + decimal(c.base.len()) + "u, "@ + has_shape + ", 0x"@ + hex6(mask as nat)
                + "u, c"@ + decimal(i) + "Ops, "@ + decimal(ops_spec(c.template).len()) + "u, "@ + fill + ", "@
                + decimal(c.slots.len()) + "u},\n"@,
        ),
    }
}

/// One `CONSTRUCTS[]` row referencing the construct's backing arrays.
#[verifier::rlimit(80)]
fn construct_row(i: usize, c: &Construct) -> (r: Result<String, ExpandError>)
    ensures
        match construct_row_spec(i as nat, construct_view(*c)) {
            Some(s) => r matches Ok(v) && v@ == s,
            None => r matches Err(e) && e.spec_message() == stroke_error(construct_view(*c).shape->0),
        },
{
    let (has_shape, shape_mask) = match &c.shape {
        Some(s) => match stroke_mask(s.as_str()) {
            Ok(m) => ("true", m),
            Err(e) => {
                return Err(e);
            },
        },
        None => ("false", 0u32),
    };
    let op_count = template_ops(&c.template).len();
    let mut out = copy_str("  {");
    if c.base.len() == 0 {
        push_str(&mut out, "nullptr");
    } else {
        push_str(&mut out, "c");
        push_decimal(&mut out, i as u64);
        push_str(&mut out, "Base");
    }
    push_str(&mut out, ", ");
    push_decimal(&mut out, c.base.len() as u64);
    push_str(&mut out, "u, ");
    push_str(&mut out, has_shape);
    push_str(&mut out, ", 0x");
    push_hex6(&mut out, shape_mask);
    push_str(&mut out, "u, c");
    push_decimal(&mut out, i as u64);
    push_str(&mut out, "Ops, ");
    push_decimal(&mut out, op_count as u64);
    push_str(&mut out, "u, ");
    if c.fill_order.len() == 0 {
        push_str(&mut out, "nullptr");
    } else {
        push_str(&mut out, "c");
        push_decimal(&mut out, i as u64);
        push_str(&mut out, "Fill");
    }
    push_str(&mut out, ", ");
    push_decimal(&mut out, c.slots.len() as u64);
    push_str(&mut out, "u},\n");
    Ok(out)
}

/// The arrays and rows of the first `k` constructs.
pub open spec fn blocks_fold(cs: Seq<ConstructV>, k: nat) -> Option<(Seq<char>, Seq<char>)>
    decreases k,
{
    if k == 0 || k > cs.len() {
        Some((Seq::empty(), Seq::empty()))
    } else {
        match blocks_fold(cs, (k - 1) as nat) {
            None => None,
            Some((a, r)) => match (construct_arrays_spec((k - 1) as nat, cs[k - 1]), construct_row_spec((k - 1) as nat, cs[k - 1])) {
                (Some(a2), Some(r2)) => Some((a + a2, r + r2)),
                _ => None,
            },
        }
    }
}

/// Why one construct's arrays or row fail: a base segment, else its shape.
pub open spec fn construct_error(i: nat, c: ConstructV) -> Seq<char> {
    if construct_arrays_spec(i, c) is None {
        base_masks_error(c.base, c.base.len())
    } else {
        stroke_error(c.shape->0)
    }
}

/// Why the blocks of the first `k` constructs fail: the first construct
/// that does.
pub open spec fn blocks_error(cs: Seq<ConstructV>, k: nat) -> Seq<char>
    decreases k,
{
    if k == 0 || k > cs.len() {
        Seq::empty()
    } else if blocks_fold(cs, (k - 1) as nat) is None {
        blocks_error(cs, (k - 1) as nat)
    } else {
        construct_error((k - 1) as nat, cs[k - 1])
    }
}

/// Why the data header fails: the type rows' error, else the blocks'.
pub open spec fn data_header_error(ts: Seq<InfTypeV>, cs: Seq<ConstructV>) -> Seq<char> {
    if type_rows_spec(ts) is None {
        type_rows_error(ts, ts.len())
    } else {
        blocks_error(cs, cs.len())
    }
}

proof fn lemma_blocks_none(cs: Seq<ConstructV>, k: nat, k2: nat)
    requires
        k <= k2 <= cs.len(),
        blocks_fold(cs, k) is None,
    ensures
        blocks_fold(cs, k2) is None,
        blocks_error(cs, k2) == blocks_error(cs, k),
    decreases k2 - k,
{
    if k < k2 {
        lemma_blocks_none(cs, k, (k2 - 1) as nat);
    }
}

/// The data header for the two tables; `None` when a stroke does not encode.
pub open spec fn data_header_spec(ts: Seq<InfTypeV>, cs: Seq<ConstructV>) -> Option<Seq<char>> {
    match (type_rows_spec(ts), blocks_fold(cs, cs.len())) {
        (Some(types), Some((arrays, rows))) => Some(
            PREAMBLE@ + types + arrays + "static const GenConstruct CONSTRUCTS[] = {\n"@ + rows
                + "};\nstatic const uint32_t CONSTRUCT_COUNT = "@ + decimal(cs.len()) + "u;\n\n"@
                + "static const uint32_t MAX_OUTLINE_LENGTH = "@ + decimal(MAX_OUTLINE_LENGTH as nat) + "u;\n\n"@
                + "} // namespace steno_generated\n"@,
        ),
        _ => None,
    }
}

/// Build the per-construct backing arrays and the `CONSTRUCTS` rows.
fn construct_blocks(constructs: &Vec<Construct>) -> (r: Result<(String, String), ExpandError>)
    ensures
        match blocks_fold(constructs_view(constructs@), constructs@.len()) {
            Some((a, rows)) => r matches Ok((x, y)) && x@ == a && y@ == rows,
            None => r matches Err(e) && e.spec_message() == blocks_error(constructs_view(constructs@), constructs@.len()),
        },
{
    let ghost cvs = constructs_view(constructs@);
    let mut arrays = String::new();
    let mut rows = String::new();
    let mut i: usize = 0;
    while i < constructs.len()
        invariant
            i <= constructs@.len(),
            cvs == constructs_view(constructs@),
            blocks_fold(cvs, i as nat) == Some((arrays@, rows@)),
        decreases constructs.len() - i,
    {
        let c = &constructs[i];
        assert(cvs[i as int] == construct_view(*c));
        let a = match construct_arrays(i, c) {
            Ok(a) => a,
            Err(e) => {
                proof {
                    lemma_blocks_none(cvs, (i + 1) as nat, cvs.len());
                }
                return Err(e);
            },
        };
        let r = match construct_row(i, c) {
            Ok(r) => r,
            Err(e) => {
                proof {
                    lemma_blocks_none(cvs, (i + 1) as nat, cvs.len());
                }
                return Err(e);
            },
        };
        push_str(&mut arrays, a.as_str());
        push_str(&mut rows, r.as_str());
        i = i + 1;
    }
    Ok((arrays, rows))
}

/// Render the self-contained C++ data header for `types` and `constructs`.
///
/// Fails when any stroke fails to encode to a key mask.
pub fn emit_data_header(types: &Vec<InfType>, constructs: &Vec<Construct>) -> (r: Result<String, ExpandError>)
    ensures
        match data_header_spec(inftypes_view(types@), constructs_view(constructs@)) {
            Some(s) => r matches Ok(v) && v@ == s,
            None => r matches Err(e) && e.spec_message() == data_header_error(inftypes_view(types@), constructs_view(constructs@)),
        },
{
    let mut out = copy_str(PREAMBLE);
    let tr = match type_rows(types) {
        Ok(t) => t,
        Err(e) => {
            return Err(e);
        },
    };
    push_str(&mut out, tr.as_str());
    let (arrays, rows) = match construct_blocks(constructs) {
        Ok(b) => b,
        Err(e) => {
            return Err(e);
        },
    };
    push_str(&mut out, arrays.as_str());
    push_str(&mut out, "static const GenConstruct CONSTRUCTS[] = {\n");
    push_str(&mut out, rows.as_str());
    push_str(&mut out, "};\nstatic const uint32_t CONSTRUCT_COUNT = ");
    push_decimal(&mut out, constructs.len() as u64);
    push_str(&mut out, "u;\n\n");
    push_str(&mut out, "static const uint32_t MAX_OUTLINE_LENGTH = ");
    push_decimal(&mut out, MAX_OUTLINE_LENGTH as u64);
    push_str(&mut out, "u;\n\n");
    push_str(&mut out, "} // namespace steno_generated\n");
    Ok(out)
}

} // verus!
