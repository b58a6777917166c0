use vstd::prelude::*;

verus! {

/// One top-level item of a source file, reduced to what module flattening reads.
#[derive(Debug, PartialEq, Eq)]
pub struct TopItem {
    /// The declared name, when the item is a module declaration.
    pub module: Option<String>,
    /// For a module declaration without a body: the line (counted from 1) and
    /// the column (counted from 0, in characters) of its closing `;`.
    pub terminator: Option<(usize, usize)>,
}

/// A top-level item as plain values: declared module name and terminator position.
pub type ItemView = (Option<Seq<char>>, Option<(usize, usize)>);

pub open spec fn item_view(item: TopItem) -> ItemView {
    (
        match item.module {
            Some(s) => Some(s@),
            None => None,
        },
        item.terminator,
    )
}

/// The top-level items that the Rust grammar finds in a source text, or
/// `None` when the text is not a valid source file.
pub uninterp spec fn outline_of(text: Seq<char>) -> Option<Seq<ItemView>>;

/// Relies on `syn::parse_file`: it parses a whole source file into its
/// top-level items, or fails with an error; the result depends on the text
/// alone. Positions come from `proc_macro2::Span::start`, which outside a
/// procedural macro counts lines by `\n` and columns in characters, in the
/// text after a leading byte-order mark (which `parse_file` strips).
#[verifier::external_body]
pub(crate) fn parse_outline(text: &str) -> (r: Result<Vec<TopItem>, String>)
    ensures
        r is Ok <==> outline_of(text@) is Some,
        r matches Ok(items) ==> items@.map_values(|i: TopItem| item_view(i)) == outline_of(
            text@,
        )->0,
{
    let file = syn::parse_file(text).map_err(|e| e.to_string())?;
    Ok(file.items.into_iter().map(|item| match item {
        syn::Item::Mod(m) => TopItem {
            module: Some(m.ident.to_string()),
            terminator: m.semi.map(|s| (s.spans[0].start().line, s.spans[0].start().column)),
        },
        _ => TopItem { module: None, terminator: None },
    }).collect())
}

} // verus!
