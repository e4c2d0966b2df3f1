//! Smart-profile rendering: auto-close + type-over + block-expand, so only the
//! keystrokes the editor will not supply are emitted.
use vstd::prelude::*;
use super::{build_dict, build_error, build_fold, content_error, render_spec, render_with, BuildResult};
use crate::editor::{smart_spec, Behaviors};
use crate::error::RenderError;
use crate::expand::{typed_view, typeds_view, TypedEntry};

verus! {

/// Render one expanded+typed entry to a Plover `(key, value)` (smart
/// profile).
///
/// Fails if the template still holds an unresolved chunk or movement
/// compilation fails.
pub fn render_smart(entry: &TypedEntry) -> (r: Result<(String, String), RenderError>)
    ensures
        match render_spec(typed_view(*entry), smart_spec()) {
            Some(kv) => r matches Ok(p) && p.0@ == kv.0 && p.1@ == kv.1,
            None => r matches Err(e) && e.spec_message() == content_error(typed_view(*entry), smart_spec()),
        },
{
    render_with(entry, Behaviors::smart())
}

/// Render many entries into the smart-brace Plover dictionary, flagging
/// collisions.
///
/// Fails on the first entry that fails to render.
pub fn build_smart_dict(entries: &Vec<TypedEntry>) -> (r: Result<BuildResult, RenderError>)
    ensures
        match build_fold(typeds_view(entries@), smart_spec()) {
            Some((d, cols)) => r matches Ok(res) && res.dict.wf() && res.dict@ == d && crate::parse::strs_view(res.collisions@) == cols,
            None => r matches Err(e) && e.spec_message() == build_error(typeds_view(entries@), smart_spec()),
        },
{
    build_dict(entries, Behaviors::smart())
}

} // verus!
