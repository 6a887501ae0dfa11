//! The description of a user type: what of a `struct` or `enum` declaration
//! the generators read.

use vstd::prelude::*;

verus! {

/// The three forms of an attribute.
#[derive(Clone, Debug, PartialEq, Eq)]
pub enum Meta {
    /// `#[name]`
    Path,
    /// `#[name = value]`
    NameValue,
    /// `#[name(tokens)]`, with the text between the brackets.
    List(String),
}

/// The mathematical value of a [`Meta`].
pub enum MetaView {
    Path,
    NameValue,
    List(Seq<char>),
}

impl View for Meta {
    type V = MetaView;

    open spec fn view(&self) -> MetaView {
        match self {
            Meta::Path => MetaView::Path,
            Meta::NameValue => MetaView::NameValue,
            Meta::List(tokens) => MetaView::List(tokens@),
        }
    }
}

/// An attribute on a declaration or on one of its members.
#[derive(Clone, Debug, PartialEq, Eq)]
pub struct Attribute {
    /// The name of the attribute, where it is a bare identifier.
    pub ident: Option<String>,
    pub meta: Meta,
}

/// The mathematical value of an [`Attribute`].
pub struct AttributeView {
    pub ident: Option<Seq<char>>,
    pub meta: MetaView,
}

impl View for Attribute {
    type V = AttributeView;

    open spec fn view(&self) -> AttributeView {
        AttributeView { ident: self.ident.deep_view(), meta: self.meta@ }
    }
}

impl DeepView for Attribute {
    type V = AttributeView;

    open spec fn deep_view(&self) -> AttributeView {
        self@
    }
}

/// A field of a struct.
#[derive(Clone, Debug, PartialEq, Eq)]
pub struct Field {
    /// The identifier of the field; a field of a tuple struct has none.
    pub ident: Option<String>,
    pub attrs: Vec<Attribute>,
}

/// The mathematical value of a [`Field`].
pub struct FieldView {
    pub ident: Option<Seq<char>>,
    pub attrs: Seq<AttributeView>,
}

impl View for Field {
    type V = FieldView;

    open spec fn view(&self) -> FieldView {
        FieldView { ident: self.ident.deep_view(), attrs: self.attrs.deep_view() }
    }
}

impl DeepView for Field {
    type V = FieldView;

    open spec fn deep_view(&self) -> FieldView {
        self@
    }
}

/// What a struct or a variant holds.
#[derive(Clone, Debug, PartialEq, Eq)]
pub enum Fields {
    /// Fields in braces, each with a name.
    Named(Vec<Field>),
    /// Values in round brackets, and how many.
    Unnamed(usize),
    /// Nothing.
    Unit,
}

/// The mathematical value of a [`Fields`].
pub enum FieldsView {
    Named(Seq<FieldView>),
    Unnamed(usize),
    Unit,
}

impl View for Fields {
    type V = FieldsView;

    open spec fn view(&self) -> FieldsView {
        match self {
            Fields::Named(fields) => FieldsView::Named(fields.deep_view()),
            Fields::Unnamed(count) => FieldsView::Unnamed(*count),
            Fields::Unit => FieldsView::Unit,
        }
    }
}

/// A variant of an enum.
#[derive(Clone, Debug, PartialEq, Eq)]
pub struct Variant {
    pub ident: String,
    pub fields: Fields,
    pub attrs: Vec<Attribute>,
}

/// The mathematical value of a [`Variant`].
pub struct VariantView {
    pub ident: Seq<char>,
    pub fields: FieldsView,
    pub attrs: Seq<AttributeView>,
}

impl View for Variant {
    type V = VariantView;

    open spec fn view(&self) -> VariantView {
        VariantView { ident: self.ident@, fields: self.fields@, attrs: self.attrs.deep_view() }
    }
}

impl DeepView for Variant {
    type V = VariantView;

    open spec fn deep_view(&self) -> VariantView {
        self@
    }
}

/// The body of a declaration.
#[derive(Clone, Debug, PartialEq, Eq)]
pub enum Data {
    Struct(Fields),
    Enum(Vec<Variant>),
    Union,
}

/// The mathematical value of a [`Data`].
pub enum DataView {
    Struct(FieldsView),
    Enum(Seq<VariantView>),
    Union,
}

impl View for Data {
    type V = DataView;

    open spec fn view(&self) -> DataView {
        match self {
            Data::Struct(fields) => DataView::Struct(fields@),
            Data::Enum(variants) => DataView::Enum(variants.deep_view()),
            Data::Union => DataView::Union,
        }
    }
}

/// A parameter of a generic declaration.
#[derive(Clone, Debug, PartialEq, Eq)]
pub enum GenericParam {
    /// A type parameter, with the text of each of its bounds.
    Type { name: String, bounds: Vec<String> },
    /// A lifetime parameter.
    Lifetime(String),
    /// A const parameter.
    Const(String),
}

/// The mathematical value of a [`GenericParam`].
pub enum GenericParamView {
    Type { name: Seq<char>, bounds: Seq<Seq<char>> },
    Lifetime(Seq<char>),
    Const(Seq<char>),
}

impl View for GenericParam {
    type V = GenericParamView;

    open spec fn view(&self) -> GenericParamView {
        match self {
            GenericParam::Type { name, bounds } => GenericParamView::Type {
                name: name@,
                bounds: bounds.deep_view(),
            },
            GenericParam::Lifetime(name) => GenericParamView::Lifetime(name@),
            GenericParam::Const(name) => GenericParamView::Const(name@),
        }
    }
}

impl DeepView for GenericParam {
    type V = GenericParamView;

    open spec fn deep_view(&self) -> GenericParamView {
        self@
    }
}

/// A user type under transformation.
#[derive(Clone, Debug, PartialEq, Eq)]
pub struct Declaration {
    pub name: String,
    pub attrs: Vec<Attribute>,
    pub generics: Vec<GenericParam>,
    pub data: Data,
}

/// The mathematical value of a [`Declaration`].
pub struct DeclarationView {
    pub name: Seq<char>,
    pub attrs: Seq<AttributeView>,
    pub generics: Seq<GenericParamView>,
    pub data: DataView,
}

impl View for Declaration {
    type V = DeclarationView;

    open spec fn view(&self) -> DeclarationView {
        DeclarationView {
            name: self.name@,
            attrs: self.attrs.deep_view(),
            generics: self.generics.deep_view(),
            data: self.data@,
        }
    }
}

/// A copy of the texts in `texts`.
pub fn copy_texts(texts: &Vec<String>) -> (res: Vec<String>)
    ensures
        res.deep_view() == texts.deep_view(),
{
    let mut out: Vec<String> = Vec::new();
    let mut i: usize = 0;
    while i < texts.len()
        invariant
            i <= texts@.len(),
            out@.len() == i,
            forall|j: int| 0 <= j < i ==> (#[trigger] out@[j])@ == texts@[j]@,
        decreases texts@.len() - i,
    {
        out.push(texts[i].clone());
        i += 1;
    }
    assert(out.deep_view() =~= texts.deep_view());
    out
}

} // verus!
