//! Reading the text of a configuration block into `name = value` pairs.

use syn::parse::Parser;
use syn::punctuated::Punctuated;
use syn::token::Comma;
use syn::{Expr, ExprLit, Lit, MetaNameValue};
use vstd::prelude::*;

verus! {

/// The error that syn reports for a text it cannot read.
#[verifier::external_type_specification]
#[verifier::external_body]
pub struct ExSynError(syn::Error);

/// The right-hand side of a pair, as far as the resolvers read it.
#[derive(Clone, Debug, PartialEq, Eq)]
pub enum AttrValue {
    /// A string literal, with the text it denotes.
    Str(String),
    /// `true` or `false`.
    Bool(bool),
    /// Any other expression.
    Other,
}

/// The mathematical value of an [`AttrValue`].
pub enum AttrValueView {
    Str(Seq<char>),
    Bool(bool),
    Other,
}

impl View for AttrValue {
    type V = AttrValueView;

    open spec fn view(&self) -> AttrValueView {
        match self {
            AttrValue::Str(text) => AttrValueView::Str(text@),
            AttrValue::Bool(flag) => AttrValueView::Bool(*flag),
            AttrValue::Other => AttrValueView::Other,
        }
    }
}

impl DeepView for AttrValue {
    type V = AttrValueView;

    open spec fn deep_view(&self) -> AttrValueView {
        self@
    }
}

/// One pair of a block as it is written: the left-hand side where it is a
/// bare identifier, and the right-hand side.
#[derive(Clone, Debug, PartialEq, Eq)]
pub struct RawEntry {
    pub ident: Option<String>,
    pub value: AttrValue,
}

/// The mathematical value of a [`RawEntry`].
pub struct RawEntryView {
    pub ident: Option<Seq<char>>,
    pub value: AttrValueView,
}

impl View for RawEntry {
    type V = RawEntryView;

    open spec fn view(&self) -> RawEntryView {
        RawEntryView {
            ident: match self.ident {
                Some(name) => Some(name@),
                None => None,
            },
            value: self.value@,
        }
    }
}

impl DeepView for RawEntry {
    type V = RawEntryView;

    open spec fn deep_view(&self) -> RawEntryView {
        self@
    }
}

/// The pairs that syn reads from the text of a block, in source order, or
/// `None` where syn reports an error for the text.
pub uninterp spec fn tokenized(tokens: Seq<char>) -> Option<Seq<RawEntryView>>;

/// Calls `Punctuated::<MetaNameValue, Token![,]>::parse_terminated` of syn on
/// `tokens`, through `Parser::parse_str`, and hands out each pair: the result
/// of `Path::get_ident` on its path, as text, and its value, where that is a
/// string literal (by `LitStr::value`) or a boolean literal.
///
/// The contract claims that the outcome depends on the text alone, and gives
/// it the name [`tokenized`]; it says nothing of which texts syn accepts.
/// For the claim to hold in every process, the text is read by the lexer that
/// proc-macro2 brings, also inside a procedural macro: that is what the calls
/// of `proc_macro2::fallback::force` and `unforce` around the parser are for.
/// syn descends into nested expressions by recursion, so a text nested
/// deeper than the stack allows ends the process.
#[verifier::external_body]
pub(crate) fn tokenize(tokens: &str) -> (res: Result<Vec<RawEntry>, syn::Error>)
    ensures
        match res {
            Ok(entries) => tokenized(tokens@) == Some(entries.deep_view()),
            Err(_) => tokenized(tokens@) is None,
        },
{
    proc_macro2::fallback::force();
    let pairs = Punctuated::<MetaNameValue, Comma>::parse_terminated.parse_str(tokens);
    proc_macro2::fallback::unforce();
    Ok(pairs?.into_iter().map(|pair| RawEntry {
        ident: pair.path.get_ident().map(|ident| ident.to_string()),
        value: match pair.value {
            Expr::Lit(ExprLit { lit: Lit::Str(text), .. }) => AttrValue::Str(text.value()),
            Expr::Lit(ExprLit { lit: Lit::Bool(flag), .. }) => AttrValue::Bool(flag.value),
            _ => AttrValue::Other,
        },
    }).collect())
}

impl AttrValue {
    /// A copy of the value.
    pub fn duplicate(&self) -> (res: AttrValue)
        ensures
            res@ == self@,
    {
        match self {
            AttrValue::Str(text) => AttrValue::Str(text.clone()),
            AttrValue::Bool(flag) => AttrValue::Bool(*flag),
            AttrValue::Other => AttrValue::Other,
        }
    }
}

} // verus!
