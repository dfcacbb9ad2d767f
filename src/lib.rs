//! Renders `$`-directive templates against a tree of named values.
use vstd::prelude::*;

pub mod context;
pub mod path;
pub mod renderer;
pub mod text;
pub mod tokenizer;

use crate::context::Context;
use crate::renderer::{DEFAULT_MAX_DEPTH, Error, Renderer, render_text};

verus! {

/// Appends `source` rendered against `context` to `writer`. On an error,
/// `writer` may already hold part of the output, after what it held before.
pub fn render_to_writer(context: Context, source: &str, writer: &mut String) -> (r: Result<(), Error>)
    ensures
        old(writer)@.is_prefix_of(final(writer)@),
        match render_text(context@, source@, DEFAULT_MAX_DEPTH as nat) {
            Ok(o) => r is Ok && final(writer)@ == old(writer)@ + o,
            Err(e) => r matches Err(x) && x@ == e,
        },
{
    Renderer::new(context, source).render(writer)
}

/// `source` rendered against `context`.
pub fn render_to_string(context: Context, source: &str) -> (r: Result<String, Error>)
    ensures
        match render_text(context@, source@, DEFAULT_MAX_DEPTH as nat) {
            Ok(o) => r matches Ok(s) && s@ == o,
            Err(e) => r matches Err(x) && x@ == e,
        },
{
    let mut buf = String::new();
    match render_to_writer(context, source, &mut buf) {
        Ok(()) => Ok(buf),
        Err(e) => Err(e),
    }
}

} // verus!
