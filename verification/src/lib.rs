//! A small templating library: it extracts a metadata header from a template's
//! text, scans the template body for the variables it references, resolves a
//! variable map, and renders the body by substituting variables and evaluating
//! conditional blocks.  Directory listings are classified into single template
//! files and collections of files rendered together.

use vstd::prelude::*;

pub mod clip;
pub mod header;
pub mod items;
pub mod resolver;
pub mod strmap;
pub mod template;
pub mod text;

verus! {

/// A malformed template expression or block: fatal for rendering the one
/// template it occurs in, never for the whole run.
#[derive(Clone, Copy, Debug, PartialEq, Eq, Structural)]
pub enum TemplateSyntaxError {
    /// An opening `{{` with no closing `}}` after it.
    UnclosedExpression,
    /// An expression whose trimmed contents are empty or not a plain
    /// variable name, `#if <name>`, `else` or `/if`.
    MalformedExpression,
    /// A block marker out of place: `{{#if}}` without its `{{/if}}`, or a
    /// stray `{{else}}` or `{{/if}}`.
    UnbalancedBlock,
}

} // verus!
