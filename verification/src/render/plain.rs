//! Plain-profile rendering: a dumb editor types every closer and walks the
//! cursor back from the document end.
use vstd::prelude::*;
use super::{build_dict, build_error, build_fold, content_error, render_spec, render_with, BuildResult};
use crate::editor::{plain_spec, Behaviors};
use crate::error::RenderError;
use crate::expand::{typed_view, typeds_view, TypedEntry};

verus! {

/// Render one expanded+typed entry to a Plover `(key, value)` (plain
/// profile).
///
/// Fails if the template still holds an unresolved chunk or movement
/// compilation fails.
pub fn render_plain(entry: &TypedEntry) -> (r: Result<(String, String), RenderError>)
    ensures
        match render_spec(typed_view(*entry), plain_spec()) {
            Some(kv) => r matches Ok(p) && p.0@ == kv.0 && p.1@ == kv.1,
            None => r matches Err(e) && e.spec_message() == content_error(typed_view(*entry), plain_spec()),
        },
{
    render_with(entry, Behaviors::plain())
}

/// Render many entries into the plain Plover dictionary, flagging
/// collisions.
///
/// Fails on the first entry that fails to render.
pub fn build_plain_dict(entries: &Vec<TypedEntry>) -> (r: Result<BuildResult, RenderError>)
    ensures
        match build_fold(typeds_view(entries@), plain_spec()) {
            Some((d, cols)) => r matches Ok(res) && res.dict.wf() && res.dict@ == d && crate::parse::strs_view(res.collisions@) == cols,
            None => r matches Err(e) && e.spec_message() == build_error(typeds_view(entries@), plain_spec()),
        },
{
    build_dict(entries, Behaviors::plain())
}

} // verus!
