//! Compiler from steno-theory source (`.steno`) to Plover JSON dictionaries
//! and LSP snippet artifacts.
//!
//! The pipeline is a chain of one-way passes over the source:
//!
//! 1. parse — fenced source text to an entry AST
//! 2. expand — count fan-out, type-append chains, one-liner variants
//! 3. render — Plover dictionaries (plain and smart editor profiles),
//!    LSP snippets, and `@literal` structural blocks
//!
//! Data flows strictly forward; every failure is a typed error carrying the
//! 1-based source line where applicable. The library never touches files:
//! reading the source and writing outputs is left to the programs around it.
pub mod blocks;
pub mod editor;
pub mod error;
pub mod expand;
pub mod json_out;
pub mod parse;
pub mod render;
pub mod report;
pub mod snippet;
pub mod stroke;
pub mod text;
pub mod viz;

pub use blocks::{emit_struct, struct_text};
pub use editor::interpret::interpret;
pub use editor::movement::movement_events;
pub use editor::serialize::{escape_text, serialize};
pub use editor::{Behaviors, EditorState, Event, KeyName, INDENT_UNIT};
pub use error::{ExpandError, RenderError, SnippetError, StenoError, StrokeError};
pub use expand::append::{expand_types, expand_types_one};
pub use expand::counts::{expand_all, expand_counts, ITERATION_BASE};
pub use expand::family::fix_family_terminals;
pub use expand::infinite::emit::data::emit_data_header;
pub use expand::infinite::walk::{render_filled, render_walk, template_fragments, template_ops, walk, Profile, TemplateOp, WalkResult};
pub use expand::infinite::{build_constructs, build_tables, build_types, check_fuse_ambiguity, Construct, InfType};
pub use expand::lineflag::expand_line_flag;
pub use expand::types::{build_type_set, TypeDef, TypeOptions, TypeSet};
pub use expand::{expand_dict, ExpandedEntry, TypedEntry};
pub use json_out::{json_string, to_json, OrderedMap};
pub use parse::source::parse_source;
pub use parse::template::parse_template;
pub use parse::{Chunk, Entry, EntryFlags, Expr};
pub use render::plain::{build_plain_dict, render_plain};
pub use render::smart::{build_smart_dict, render_smart};
pub use render::BuildResult;
pub use snippet::{build_snippets, render_snippet, SnippetBuild, SnippetEntry, SENTINEL_CLOSE, SENTINEL_OPEN};
pub use stroke::bank::{add_key, apply_count, count_bank, merge_strokes, CountBank, CountBit, Side};
pub use stroke::keys::{parse_stroke, render_stroke, KeySet, StrokeKeys};
