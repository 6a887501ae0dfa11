//! The decode direction: from a struct with named fields, or an enum whose
//! variants are bound to endpoints, to the rules that turn an inbound event
//! into an instance.

use crate::aggregate::{
    copy_generics, encoded, parse_struct_fields, rule_of, struct_fields, EncodeError,
    EncodeStepView,
};
use crate::attrs::{
    attribute_list, bool_option, parse_attribute_list, position, rename_option, str_option,
    AttrKind, NameValueView, NameValues,
};
use crate::case::{apply, RenameRule};
use crate::error::{viewed, viewed_each, BuildError, ErrorKind, Reason};
use crate::mapping::Mapping;
use crate::schema::{
    Attribute, AttributeView, Data, DataView, Declaration, DeclarationView, Field, FieldView,
    Fields, FieldsView, GenericParam, GenericParamView, Variant, VariantView,
};
use crate::text::same_text;
use vstd::prelude::*;

verus! {

/// Whether an event holds one whole struct or one value of one endpoint.
#[derive(Clone, Copy, Debug, PartialEq, Eq, Structural)]
pub enum Aggregation {
    Individual,
    Object,
}

/// The aggregation that a configuration value names, if it names one.
pub open spec fn aggregation_named(name: Seq<char>) -> Option<Aggregation> {
    if name == "individual"@ {
        Some(Aggregation::Individual)
    } else if name == "object"@ {
        Some(Aggregation::Object)
    } else {
        None
    }
}

/// The aggregation that `aggregation` is set to, `None` where it is not
/// set, or a syntax error at the option where its value is no string
/// literal or names no aggregation.
pub open spec fn aggregation_option(vars: Seq<NameValueView>) -> Result<
    Option<Aggregation>,
    BuildError,
> {
    match str_option(vars, "aggregation"@) {
        Err(e) => Err(e),
        Ok(None) => Ok(None),
        Ok(Some(text)) => match aggregation_named(text) {
            Some(aggregation) => Ok(Some(aggregation)),
            None => Err(
                BuildError::of(Reason::InvalidAggregation).in_entry(
                    position(vars, "aggregation"@)->0 as usize,
                ),
            ),
        },
    }
}

/// Reads the option `aggregation`.
pub fn get_aggregation(vars: &NameValues) -> (res: Result<Option<Aggregation>, BuildError>)
    ensures
        res == aggregation_option(vars@),
{
    match vars.find("aggregation") {
        None => Ok(None),
        Some(i) => match crate::attrs::parse_str_lit(&vars.entries[i].value) {
            Err(e) => Err(e.at_entry(i)),
            Ok(text) => if same_text(text.as_str(), "individual") {
                Ok(Some(Aggregation::Individual))
            } else if same_text(text.as_str(), "object") {
                Ok(Some(Aggregation::Object))
            } else {
                Err(BuildError::new(Reason::InvalidAggregation).at_entry(i))
            },
        },
    }
}

/// The options of `#[from_event(..)]`.
#[derive(Clone, Debug, PartialEq, Eq)]
pub struct FromEventAttrs {
    /// The interface that the events belong to.
    pub interface: Option<String>,
    /// The path of the object, for object aggregation.
    pub path: Option<String>,
    pub aggregation: Option<Aggregation>,
    /// The rule that names the fields in the event.
    pub rename_all: Option<RenameRule>,
}

/// The mathematical value of a [`FromEventAttrs`].
pub struct FromEventAttrsView {
    pub interface: Option<Seq<char>>,
    pub path: Option<Seq<char>>,
    pub aggregation: Option<Aggregation>,
    pub rename_all: Option<RenameRule>,
}

impl View for FromEventAttrs {
    type V = FromEventAttrsView;

    open spec fn view(&self) -> FromEventAttrsView {
        FromEventAttrsView {
            interface: self.interface.deep_view(),
            path: self.path.deep_view(),
            aggregation: self.aggregation,
            rename_all: self.rename_all,
        }
    }
}

/// `first`, overridden by `second` where that is set.
pub open spec fn later<T>(first: Option<T>, second: Option<T>) -> Option<T> {
    match second {
        Some(value) => Some(value),
        None => first,
    }
}

impl FromEventAttrsView {
    /// The options of a declaration without configuration.
    pub open spec fn unset() -> FromEventAttrsView {
        FromEventAttrsView { interface: None, path: None, aggregation: None, rename_all: None }
    }

    /// `self`, overridden by what `other` sets.
    pub open spec fn merged(self, other: FromEventAttrsView) -> FromEventAttrsView {
        FromEventAttrsView {
            interface: later(self.interface, other.interface),
            path: later(self.path, other.path),
            aggregation: later(self.aggregation, other.aggregation),
            rename_all: later(self.rename_all, other.rename_all),
        }
    }

    /// The options that one block sets. An option that the resolver does
    /// not know is an error; then the options are read in the order
    /// `interface`, `path`, `aggregation`, `rename_all`, and the first in
    /// error gives the error.
    pub open spec fn resolved(vars: Seq<NameValueView>) -> Result<FromEventAttrsView, BuildError> {
        match AttrKind::FromEvent.all_known(vars) {
            Err(e) => Err(e),
            Ok(_) => match str_option(vars, "interface"@) {
                Err(e) => Err(e),
                Ok(interface) => match str_option(vars, "path"@) {
                    Err(e) => Err(e),
                    Ok(path) => match aggregation_option(vars) {
                        Err(e) => Err(e),
                        Ok(aggregation) => match rename_option(vars) {
                            Err(e) => Err(e),
                            Ok(rename_all) => Ok(
                                FromEventAttrsView { interface, path, aggregation, rename_all },
                            ),
                        },
                    },
                },
            },
        }
    }

    /// The options of a declaration: those of its `from_event` blocks,
    /// merged from the first to the last. The first block in error gives
    /// the error, placed in that attribute.
    pub open spec fn gathered(attrs: Seq<AttributeView>) -> Result<FromEventAttrsView, BuildError>
        decreases attrs.len(),
    {
        if attrs.len() == 0 {
            Ok(FromEventAttrsView::unset())
        } else {
            let at = (attrs.len() - 1) as usize;
            match FromEventAttrsView::gathered(attrs.drop_last()) {
                Err(e) => Err(e),
                Ok(sofar) => match attribute_list(attrs.last(), "from_event"@) {
                    None => Ok(sofar),
                    Some(Err(e)) => Err(e.in_attribute(at)),
                    Some(Ok(vars)) => match FromEventAttrsView::resolved(vars) {
                        Err(e) => Err(e.in_attribute(at)),
                        Ok(block) => Ok(sofar.merged(block)),
                    },
                },
            }
        }
    }
}

proof fn lemma_event_error_stays(attrs: Seq<AttributeView>, k: int)
    requires
        0 <= k <= attrs.len(),
        FromEventAttrsView::gathered(attrs.take(k)) is Err,
    ensures
        FromEventAttrsView::gathered(attrs) == FromEventAttrsView::gathered(attrs.take(k)),
    decreases attrs.len() - k,
{
    if k < attrs.len() {
        assert(attrs.take(k + 1).drop_last() == attrs.take(k));
        lemma_event_error_stays(attrs, k + 1);
    } else {
        assert(attrs.take(k) == attrs);
    }
}

impl FromEventAttrs {
    /// The options of a declaration without configuration.
    pub fn new() -> (res: Self)
        ensures
            res@ == FromEventAttrsView::unset(),
    {
        FromEventAttrs { interface: None, path: None, aggregation: None, rename_all: None }
    }

    /// Merges the options of `other` into `self`: an option that `other`
    /// sets takes the value it has there, an option that `other` leaves
    /// unset keeps the value it has in `self`.
    pub fn merge(self, other: Self) -> (res: Self)
        ensures
            res@ == self@.merged(other@),
    {
        let interface = match other.interface {
            Some(text) => Some(text),
            None => self.interface,
        };
        let path = match other.path {
            Some(text) => Some(text),
            None => self.path,
        };
        let aggregation = match other.aggregation {
            Some(aggregation) => Some(aggregation),
            None => self.aggregation,
        };
        let rename_all = match other.rename_all {
            Some(rule) => Some(rule),
            None => self.rename_all,
        };
        Self { interface, path, aggregation, rename_all }
    }

    /// Resolves the options of one block.
    pub fn from_name_values(vars: &NameValues) -> (res: Result<Self, BuildError>)
        ensures
            viewed(res) == FromEventAttrsView::resolved(vars@),
    {
        match AttrKind::FromEvent.check_known(vars) {
            Err(e) => {
                return Err(e);
            },
            Ok(_) => {},
        }
        let interface = match vars.get_str("interface") {
            Err(e) => {
                return Err(e);
            },
            Ok(interface) => interface,
        };
        let path = match vars.get_str("path") {
            Err(e) => {
                return Err(e);
            },
            Ok(path) => path,
        };
        let aggregation = match get_aggregation(vars) {
            Err(e) => {
                return Err(e);
            },
            Ok(aggregation) => aggregation,
        };
        let rename_all = match vars.get_rename() {
            Err(e) => {
                return Err(e);
            },
            Ok(rename_all) => rename_all,
        };
        Ok(Self { interface, path, aggregation, rename_all })
    }

    /// Finds the `from_event` blocks among `attrs` and merges them from the
    /// first to the last.
    pub fn from_attributes(attrs: &Vec<Attribute>) -> (res: Result<Self, BuildError>)
        ensures
            viewed(res) == FromEventAttrsView::gathered(attrs.deep_view()),
    {
        let ghost all = attrs.deep_view();
        let mut sofar = Self::new();
        let mut i: usize = 0;
        while i < attrs.len()
            invariant
                all == attrs.deep_view(),
                i <= attrs@.len(),
                FromEventAttrsView::gathered(all.take(i as int)) == Ok::<
                    FromEventAttrsView,
                    BuildError,
                >(sofar@),
            decreases attrs@.len() - i,
        {
            proof {
                let next = all.take(i + 1);
                assert(next.drop_last() == all.take(i as int));
                assert(next.last() == attrs@[i as int]@);
            }
            match parse_attribute_list(&attrs[i], "from_event") {
                None => {},
                Some(Err(e)) => {
                    proof {
                        lemma_event_error_stays(all, i + 1);
                    }
                    return Err(e.at_attribute(i));
                },
                Some(Ok(vars)) => match Self::from_name_values(&vars) {
                    Err(e) => {
                        proof {
                            lemma_event_error_stays(all, i + 1);
                        }
                        return Err(e.at_attribute(i));
                    },
                    Ok(block) => {
                        sofar = sofar.merge(block);
                    },
                },
            }
            i += 1;
        }
        assert(all.take(attrs@.len() as int) == all);
        Ok(sofar)
    }
}

/// The options of `#[mapping(..)]` on a field or a variant.
#[derive(Clone, Debug, PartialEq, Eq)]
pub struct MappingAttrs {
    /// The endpoint that a variant is bound to.
    pub endpoint: Option<String>,
    /// Whether the member may be absent from the event.
    pub allow_unset: Option<bool>,
}

/// The mathematical value of a [`MappingAttrs`].
pub struct MappingAttrsView {
    pub endpoint: Option<Seq<char>>,
    pub allow_unset: Option<bool>,
}

impl View for MappingAttrs {
    type V = MappingAttrsView;

    open spec fn view(&self) -> MappingAttrsView {
        MappingAttrsView { endpoint: self.endpoint.deep_view(), allow_unset: self.allow_unset }
    }
}

impl MappingAttrsView {
    /// The options of a member without configuration.
    pub open spec fn unset() -> MappingAttrsView {
        MappingAttrsView { endpoint: None, allow_unset: None }
    }

    /// `self`, overridden by what `other` sets.
    pub open spec fn merged(self, other: MappingAttrsView) -> MappingAttrsView {
        MappingAttrsView {
            endpoint: later(self.endpoint, other.endpoint),
            allow_unset: later(self.allow_unset, other.allow_unset),
        }
    }

    /// The options that one block sets on a member of the kind `kind`. An
    /// option that the resolver does not know is an error; then `endpoint`
    /// is read, then `allow_unset`.
    pub open spec fn resolved(kind: AttrKind, vars: Seq<NameValueView>) -> Result<
        MappingAttrsView,
        BuildError,
    > {
        match kind.all_known(vars) {
            Err(e) => Err(e),
            Ok(_) => match str_option(vars, "endpoint"@) {
                Err(e) => Err(e),
                Ok(endpoint) => match bool_option(vars, "allow_unset"@) {
                    Err(e) => Err(e),
                    Ok(allow_unset) => Ok(MappingAttrsView { endpoint, allow_unset }),
                },
            },
        }
    }

    /// The options of a member: those of its `mapping` blocks, merged from
    /// the first to the last. The first block in error gives the error,
    /// placed in that attribute.
    pub open spec fn gathered(kind: AttrKind, attrs: Seq<AttributeView>) -> Result<
        MappingAttrsView,
        BuildError,
    >
        decreases attrs.len(),
    {
        if attrs.len() == 0 {
            Ok(MappingAttrsView::unset())
        } else {
            let at = (attrs.len() - 1) as usize;
            match MappingAttrsView::gathered(kind, attrs.drop_last()) {
                Err(e) => Err(e),
                Ok(sofar) => match attribute_list(attrs.last(), "mapping"@) {
                    None => Ok(sofar),
                    Some(Err(e)) => Err(e.in_attribute(at)),
                    Some(Ok(vars)) => match MappingAttrsView::resolved(kind, vars) {
                        Err(e) => Err(e.in_attribute(at)),
                        Ok(block) => Ok(sofar.merged(block)),
                    },
                },
            }
        }
    }
}

proof fn lemma_mapping_error_stays(kind: AttrKind, attrs: Seq<AttributeView>, k: int)
    requires
        0 <= k <= attrs.len(),
        MappingAttrsView::gathered(kind, attrs.take(k)) is Err,
    ensures
        MappingAttrsView::gathered(kind, attrs) == MappingAttrsView::gathered(kind, attrs.take(k)),
    decreases attrs.len() - k,
{
    if k < attrs.len() {
        assert(attrs.take(k + 1).drop_last() == attrs.take(k));
        lemma_mapping_error_stays(kind, attrs, k + 1);
    } else {
        assert(attrs.take(k) == attrs);
    }
}

impl MappingAttrs {
    /// The options of a member without configuration.
    pub fn new() -> (res: Self)
        ensures
            res@ == MappingAttrsView::unset(),
    {
        MappingAttrs { endpoint: None, allow_unset: None }
    }

    /// Merges the options of `other` into `self`: an option that `other`
    /// sets takes the value it has there, an option that `other` leaves
    /// unset keeps the value it has in `self`.
    pub fn merge(self, other: Self) -> (res: Self)
        ensures
            res@ == self@.merged(other@),
    {
        let endpoint = match other.endpoint {
            Some(text) => Some(text),
            None => self.endpoint,
        };
        let allow_unset = match other.allow_unset {
            Some(flag) => Some(flag),
            None => self.allow_unset,
        };
        Self { endpoint, allow_unset }
    }

    /// Resolves the options of one block on a member of the kind `kind`.
    pub fn from_name_values(kind: AttrKind, vars: &NameValues) -> (res: Result<Self, BuildError>)
        ensures
            viewed(res) == MappingAttrsView::resolved(kind, vars@),
    {
        match kind.check_known(vars) {
            Err(e) => {
                return Err(e);
            },
            Ok(_) => {},
        }
        let endpoint = match vars.get_str("endpoint") {
            Err(e) => {
                return Err(e);
            },
            Ok(endpoint) => endpoint,
        };
        let allow_unset = match vars.get_bool("allow_unset") {
            Err(e) => {
                return Err(e);
            },
            Ok(allow_unset) => allow_unset,
        };
        Ok(Self { endpoint, allow_unset })
    }

    /// Finds the `mapping` blocks among `attrs` and merges them from the
    /// first to the last.
    pub fn from_attributes(kind: AttrKind, attrs: &Vec<Attribute>) -> (res: Result<
        Self,
        BuildError,
    >)
        ensures
            viewed(res) == MappingAttrsView::gathered(kind, attrs.deep_view()),
    {
        let ghost all = attrs.deep_view();
        let mut sofar = Self::new();
        let mut i: usize = 0;
        while i < attrs.len()
            invariant
                all == attrs.deep_view(),
                i <= attrs@.len(),
                MappingAttrsView::gathered(kind, all.take(i as int)) == Ok::<
                    MappingAttrsView,
                    BuildError,
                >(sofar@),
            decreases attrs@.len() - i,
        {
            proof {
                let next = all.take(i + 1);
                assert(next.drop_last() == all.take(i as int));
                assert(next.last() == attrs@[i as int]@);
            }
            match parse_attribute_list(&attrs[i], "mapping") {
                None => {},
                Some(Err(e)) => {
                    proof {
                        lemma_mapping_error_stays(kind, all, i + 1);
                    }
                    return Err(e.at_attribute(i));
                },
                Some(Ok(vars)) => match Self::from_name_values(kind, &vars) {
                    Err(e) => {
                        proof {
                            lemma_mapping_error_stays(kind, all, i + 1);
                        }
                        return Err(e.at_attribute(i));
                    },
                    Ok(block) => {
                        sofar = sofar.merge(block);
                    },
                },
            }
            i += 1;
        }
        assert(all.take(attrs@.len() as int) == all);
        Ok(sofar)
    }
}

/// How one field of a struct is found in an event.
#[derive(Clone, Debug, PartialEq, Eq)]
pub struct FieldBinding {
    /// The identifier of the field.
    pub ident: String,
    /// The outward name of the field: the name of its entry in the event.
    pub key: String,
    /// Whether the entry may be absent.
    pub optional: bool,
}

/// The mathematical value of a [`FieldBinding`].
pub struct FieldBindingView {
    pub ident: Seq<char>,
    pub key: Seq<char>,
    pub optional: bool,
}

impl View for FieldBinding {
    type V = FieldBindingView;

    open spec fn view(&self) -> FieldBindingView {
        FieldBindingView { ident: self.ident@, key: self.key@, optional: self.optional }
    }
}

impl DeepView for FieldBinding {
    type V = FieldBindingView;

    open spec fn deep_view(&self) -> FieldBindingView {
        self@
    }
}

/// How one variant of an enum is found in an event.
#[derive(Clone, Debug, PartialEq, Eq)]
pub struct VariantBinding {
    /// The identifier of the variant.
    pub ident: String,
    /// The endpoint whose values the variant holds.
    pub endpoint: String,
    /// Whether the variant may hold no value.
    pub allow_unset: bool,
}

/// The mathematical value of a [`VariantBinding`].
pub struct VariantBindingView {
    pub ident: Seq<char>,
    pub endpoint: Seq<char>,
    pub allow_unset: bool,
}

impl View for VariantBinding {
    type V = VariantBindingView;

    open spec fn view(&self) -> VariantBindingView {
        VariantBindingView {
            ident: self.ident@,
            endpoint: self.endpoint@,
            allow_unset: self.allow_unset,
        }
    }
}

impl DeepView for VariantBinding {
    type V = VariantBindingView;

    open spec fn deep_view(&self) -> VariantBindingView {
        self@
    }
}

/// The generated decoding of a struct from an event that holds one entry
/// for each field.
#[derive(Clone, Debug, PartialEq, Eq)]
pub struct ObjectDecoder {
    pub name: String,
    pub generics: Vec<GenericParam>,
    pub interface: Option<String>,
    pub path: Option<String>,
    pub fields: Vec<FieldBinding>,
}

/// The mathematical value of an [`ObjectDecoder`].
pub struct ObjectDecoderView {
    pub name: Seq<char>,
    pub generics: Seq<GenericParamView>,
    pub interface: Option<Seq<char>>,
    pub path: Option<Seq<char>>,
    pub fields: Seq<FieldBindingView>,
}

impl View for ObjectDecoder {
    type V = ObjectDecoderView;

    open spec fn view(&self) -> ObjectDecoderView {
        ObjectDecoderView {
            name: self.name@,
            generics: self.generics.deep_view(),
            interface: self.interface.deep_view(),
            path: self.path.deep_view(),
            fields: self.fields.deep_view(),
        }
    }
}

/// The generated decoding of an enum from an event that holds the value
/// of one endpoint.
#[derive(Clone, Debug, PartialEq, Eq)]
pub struct IndividualDecoder {
    pub name: String,
    pub generics: Vec<GenericParam>,
    pub interface: Option<String>,
    pub variants: Vec<VariantBinding>,
}

/// The mathematical value of an [`IndividualDecoder`].
pub struct IndividualDecoderView {
    pub name: Seq<char>,
    pub generics: Seq<GenericParamView>,
    pub interface: Option<Seq<char>>,
    pub variants: Seq<VariantBindingView>,
}

impl View for IndividualDecoder {
    type V = IndividualDecoderView;

    open spec fn view(&self) -> IndividualDecoderView {
        IndividualDecoderView {
            name: self.name@,
            generics: self.generics.deep_view(),
            interface: self.interface.deep_view(),
            variants: self.variants.deep_view(),
        }
    }
}

/// A type that can be decoded from an event, as its declaration resolves.
#[derive(Clone, Debug, PartialEq, Eq)]
pub enum FromEventDerive {
    Object(ObjectDecoder),
    Individual(IndividualDecoder),
}

/// The mathematical value of a [`FromEventDerive`].
pub enum FromEventDeriveView {
    Object(ObjectDecoderView),
    Individual(IndividualDecoderView),
}

impl View for FromEventDerive {
    type V = FromEventDeriveView;

    open spec fn view(&self) -> FromEventDeriveView {
        match self {
            FromEventDerive::Object(decoder) => FromEventDeriveView::Object(decoder@),
            FromEventDerive::Individual(decoder) => FromEventDeriveView::Individual(decoder@),
        }
    }
}

/// Whether the option is set to `true`.
pub open spec fn is_set(flag: Option<bool>) -> bool {
    flag == Some(true)
}

/// The binding of one field under `rule`.
pub open spec fn field_binding(rule: RenameRule, field: FieldView) -> Result<
    FieldBindingView,
    BuildError,
> {
    match field.ident {
        None => Err(BuildError::of(Reason::FieldNotIdent)),
        Some(ident) => match MappingAttrsView::gathered(AttrKind::Field, field.attrs) {
            Err(e) => Err(e),
            Ok(mapping) => Ok(
                FieldBindingView {
                    ident,
                    key: apply(rule, ident),
                    optional: is_set(mapping.allow_unset),
                },
            ),
        },
    }
}

/// The bindings of the fields, in order, or the error of the first field
/// in error, placed in that member.
pub open spec fn field_bindings(rule: RenameRule, fields: Seq<FieldView>) -> Result<
    Seq<FieldBindingView>,
    BuildError,
>
    decreases fields.len(),
{
    if fields.len() == 0 {
        Ok(Seq::empty())
    } else {
        let at = (fields.len() - 1) as usize;
        match field_bindings(rule, fields.drop_last()) {
            Err(e) => Err(e),
            Ok(sofar) => match field_binding(rule, fields.last()) {
                Err(e) => Err(e.in_member(at)),
                Ok(binding) => Ok(sofar.push(binding)),
            },
        }
    }
}

/// Whether a variant holds at most one value, and that without a name.
pub open spec fn at_most_one(fields: FieldsView) -> bool {
    match fields {
        FieldsView::Named(_) => false,
        FieldsView::Unnamed(count) => count <= 1,
        FieldsView::Unit => true,
    }
}

/// The binding of one variant: an error of shape where it holds more than
/// one value or named ones, the error of its configuration, or an error of
/// shape where it is bound to no endpoint.
pub open spec fn variant_binding(variant: VariantView) -> Result<VariantBindingView, BuildError> {
    if !at_most_one(variant.fields) {
        Err(BuildError::of(Reason::VariantPayload))
    } else {
        match MappingAttrsView::gathered(AttrKind::Variant, variant.attrs) {
            Err(e) => Err(e),
            Ok(mapping) => match mapping.endpoint {
                None => Err(BuildError::of(Reason::MissingEndpoint)),
                Some(endpoint) => Ok(
                    VariantBindingView {
                        ident: variant.ident,
                        endpoint,
                        allow_unset: is_set(mapping.allow_unset),
                    },
                ),
            },
        }
    }
}

/// The bindings of the variants, in order, or the error of the first
/// variant in error, placed in that member.
pub open spec fn variant_bindings(variants: Seq<VariantView>) -> Result<
    Seq<VariantBindingView>,
    BuildError,
>
    decreases variants.len(),
{
    if variants.len() == 0 {
        Ok(Seq::empty())
    } else {
        let at = (variants.len() - 1) as usize;
        match variant_bindings(variants.drop_last()) {
            Err(e) => Err(e),
            Ok(sofar) => match variant_binding(variants.last()) {
                Err(e) => Err(e.in_member(at)),
                Ok(binding) => Ok(sofar.push(binding)),
            },
        }
    }
}

proof fn lemma_field_error_stays(rule: RenameRule, fields: Seq<FieldView>, k: int)
    requires
        0 <= k <= fields.len(),
        field_bindings(rule, fields.take(k)) is Err,
    ensures
        field_bindings(rule, fields) == field_bindings(rule, fields.take(k)),
    decreases fields.len() - k,
{
    if k < fields.len() {
        assert(fields.take(k + 1).drop_last() == fields.take(k));
        lemma_field_error_stays(rule, fields, k + 1);
    } else {
        assert(fields.take(k) == fields);
    }
}

proof fn lemma_variant_error_stays(variants: Seq<VariantView>, k: int)
    requires
        0 <= k <= variants.len(),
        variant_bindings(variants.take(k)) is Err,
    ensures
        variant_bindings(variants) == variant_bindings(variants.take(k)),
    decreases variants.len() - k,
{
    if k < variants.len() {
        assert(variants.take(k + 1).drop_last() == variants.take(k));
        lemma_variant_error_stays(variants, k + 1);
    } else {
        assert(variants.take(k) == variants);
    }
}

impl FromEventDeriveView {
    /// What a declaration resolves to.
    ///
    /// A struct must have named fields, and must not ask for individual
    /// aggregation; its shape is checked first, then its options are
    /// gathered, then its fields are bound. An enum must ask for
    /// individual aggregation; its options are gathered, then its variants
    /// are bound. A union is an error of shape.
    pub open spec fn of(ast: DeclarationView) -> Result<FromEventDeriveView, BuildError> {
        match ast.data {
            DataView::Union => Err(BuildError::of(Reason::NotStructOrEnum)),
            DataView::Struct(shape) => match struct_fields(ast.data) {
                Err(e) => Err(e),
                Ok(_) => match FromEventAttrsView::gathered(ast.attrs) {
                    Err(e) => Err(e),
                    Ok(attrs) => if attrs.aggregation == Some(Aggregation::Individual) {
                        Err(BuildError::of(Reason::AggregationMismatch))
                    } else {
                        match field_bindings(rule_of(attrs.rename_all), shape->Named_0) {
                            Err(e) => Err(e),
                            Ok(fields) => Ok(
                                FromEventDeriveView::Object(
                                    ObjectDecoderView {
                                        name: ast.name,
                                        generics: ast.generics,
                                        interface: attrs.interface,
                                        path: attrs.path,
                                        fields,
                                    },
                                ),
                            ),
                        }
                    },
                },
            },
            DataView::Enum(variants) => match FromEventAttrsView::gathered(ast.attrs) {
                Err(e) => Err(e),
                Ok(attrs) => if attrs.aggregation != Some(Aggregation::Individual) {
                    Err(BuildError::of(Reason::AggregationMismatch))
                } else {
                    match variant_bindings(variants) {
                        Err(e) => Err(e),
                        Ok(variants) => Ok(
                            FromEventDeriveView::Individual(
                                IndividualDecoderView {
                                    name: ast.name,
                                    generics: ast.generics,
                                    interface: attrs.interface,
                                    variants,
                                },
                            ),
                        ),
                    }
                },
            },
        }
    }
}

/// Binds one field under `rule`.
pub fn bind_field(rule: RenameRule, field: &Field) -> (res: Result<FieldBinding, BuildError>)
    ensures
        viewed(res) == field_binding(rule, field@),
{
    let ident = match &field.ident {
        None => {
            return Err(BuildError::new(Reason::FieldNotIdent));
        },
        Some(ident) => ident.clone(),
    };
    let mapping = match MappingAttrs::from_attributes(AttrKind::Field, &field.attrs) {
        Err(e) => {
            return Err(e);
        },
        Ok(mapping) => mapping,
    };
    let optional = match mapping.allow_unset {
        Some(flag) => flag,
        None => false,
    };
    let key = rule.apply_to_field(ident.as_str());
    Ok(FieldBinding { ident, key, optional })
}

/// Binds one variant to its endpoint.
pub fn bind_variant(variant: &Variant) -> (res: Result<VariantBinding, BuildError>)
    ensures
        viewed(res) == variant_binding(variant@),
{
    let fits = match &variant.fields {
        Fields::Named(_) => false,
        Fields::Unnamed(count) => *count <= 1,
        Fields::Unit => true,
    };
    if !fits {
        return Err(BuildError::new(Reason::VariantPayload));
    }
    let mapping = match MappingAttrs::from_attributes(AttrKind::Variant, &variant.attrs) {
        Err(e) => {
            return Err(e);
        },
        Ok(mapping) => mapping,
    };
    let allow_unset = match mapping.allow_unset {
        Some(flag) => flag,
        None => false,
    };
    match mapping.endpoint {
        None => Err(BuildError::new(Reason::MissingEndpoint)),
        Some(endpoint) => Ok(VariantBinding { ident: variant.ident.clone(), endpoint, allow_unset }),
    }
}

/// Binds the fields of a struct, in order.
pub fn bind_fields(rule: RenameRule, fields: &Vec<Field>) -> (res: Result<
    Vec<FieldBinding>,
    BuildError,
>)
    ensures
        viewed_each(res) == field_bindings(rule, fields.deep_view()),
{
    let ghost all = fields.deep_view();
    let mut out: Vec<FieldBinding> = Vec::new();
    let mut i: usize = 0;
    assert(out.deep_view() =~= Seq::<FieldBindingView>::empty());
    while i < fields.len()
        invariant
            all == fields.deep_view(),
            i <= fields@.len(),
            field_bindings(rule, all.take(i as int)) == Ok::<Seq<FieldBindingView>, BuildError>(
                out.deep_view(),
            ),
        decreases fields@.len() - i,
    {
        proof {
            let next = all.take(i + 1);
            assert(next.drop_last() == all.take(i as int));
            assert(next.last() == fields@[i as int]@);
        }
        let ghost before = out.deep_view();
        match bind_field(rule, &fields[i]) {
            Err(e) => {
                proof {
                    lemma_field_error_stays(rule, all, i + 1);
                }
                return Err(e.at_member(i));
            },
            Ok(binding) => {
                out.push(binding);
                assert(out.deep_view() =~= before.push(binding@));
            },
        }
        i += 1;
    }
    assert(all.take(fields@.len() as int) == all);
    Ok(out)
}

/// Binds the variants of an enum, in order.
pub fn bind_variants(variants: &Vec<Variant>) -> (res: Result<Vec<VariantBinding>, BuildError>)
    ensures
        viewed_each(res) == variant_bindings(variants.deep_view()),
{
    let ghost all = variants.deep_view();
    let mut out: Vec<VariantBinding> = Vec::new();
    let mut i: usize = 0;
    assert(out.deep_view() =~= Seq::<VariantBindingView>::empty());
    while i < variants.len()
        invariant
            all == variants.deep_view(),
            i <= variants@.len(),
            variant_bindings(all.take(i as int)) == Ok::<Seq<VariantBindingView>, BuildError>(
                out.deep_view(),
            ),
        decreases variants@.len() - i,
    {
        proof {
            let next = all.take(i + 1);
            assert(next.drop_last() == all.take(i as int));
            assert(next.last() == variants@[i as int]@);
        }
        let ghost before = out.deep_view();
        match bind_variant(&variants[i]) {
            Err(e) => {
                proof {
                    lemma_variant_error_stays(all, i + 1);
                }
                return Err(e.at_member(i));
            },
            Ok(binding) => {
                out.push(binding);
                assert(out.deep_view() =~= before.push(binding@));
            },
        }
        i += 1;
    }
    assert(all.take(variants@.len() as int) == all);
    Ok(out)
}

impl FromEventDerive {
    /// Resolves the declaration of a type that is to be decoded from
    /// events.
    pub fn parse(ast: &Declaration) -> (res: Result<Self, BuildError>)
        ensures
            viewed(res) == FromEventDeriveView::of(ast@),
            !(ast@.data matches DataView::Struct(FieldsView::Named(_)) || ast@.data is Enum) ==> (
            res matches Err(e) && e.reason.class() == ErrorKind::Shape),
    {
        match &ast.data {
            Data::Union => Err(BuildError::new(Reason::NotStructOrEnum)),
            Data::Struct(shape) => {
                match parse_struct_fields(ast) {
                    Err(e) => {
                        return Err(e);
                    },
                    Ok(_) => {},
                }
                let attrs = match FromEventAttrs::from_attributes(&ast.attrs) {
                    Err(e) => {
                        return Err(e);
                    },
                    Ok(attrs) => attrs,
                };
                match attrs.aggregation {
                    Some(Aggregation::Individual) => {
                        return Err(BuildError::new(Reason::AggregationMismatch));
                    },
                    _ => {},
                }
                let rule = match attrs.rename_all {
                    Some(rule) => rule,
                    None => RenameRule::Unchanged,
                };
                let fields = match shape {
                    Fields::Named(fields) => match bind_fields(rule, fields) {
                        Err(e) => {
                            return Err(e);
                        },
                        Ok(fields) => fields,
                    },
                    _ => {
                        return Err(BuildError::new(Reason::NotNamedStruct));
                    },
                };
                Ok(
                    FromEventDerive::Object(
                        ObjectDecoder {
                            name: ast.name.clone(),
                            generics: copy_generics(&ast.generics),
                            interface: attrs.interface,
                            path: attrs.path,
                            fields,
                        },
                    ),
                )
            },
            Data::Enum(variants) => {
                let attrs = match FromEventAttrs::from_attributes(&ast.attrs) {
                    Err(e) => {
                        return Err(e);
                    },
                    Ok(attrs) => attrs,
                };
                match attrs.aggregation {
                    Some(Aggregation::Individual) => {},
                    _ => {
                        return Err(BuildError::new(Reason::AggregationMismatch));
                    },
                }
                let variants = match bind_variants(variants) {
                    Err(e) => {
                        return Err(e);
                    },
                    Ok(variants) => variants,
                };
                Ok(
                    FromEventDerive::Individual(
                        IndividualDecoder {
                            name: ast.name.clone(),
                            generics: copy_generics(&ast.generics),
                            interface: attrs.interface,
                            variants,
                        },
                    ),
                )
            },
        }
    }
}

/// The errors of a decoding.
#[derive(Clone, Debug, PartialEq, Eq)]
pub enum DecodeError<E> {
    /// The event holds no entry for the field `field`, which is not
    /// optional.
    MissingMapping { field: usize },
    /// No variant is bound to the path of the event.
    UnknownEndpoint,
    /// The event holds no value, and the variant `variant` needs one.
    MissingValue { variant: usize },
    /// The conversion of the value for the member `member` failed with
    /// `error`.
    Conversion { member: usize, error: E },
}

/// What the bindings make of an object and of the outcomes of the
/// conversions, the outcome `i` being that of the entry of field `i`:
/// for each field, in order, the converted value of its entry, or nothing
/// where the entry is absent and the field optional. The first field that
/// fails gives the error: its entry is absent and the field not optional,
/// or the conversion of its entry failed.
pub open spec fn decoded<V, T, E>(
    fields: Seq<FieldBindingView>,
    object: Map<Seq<char>, V>,
    outcomes: Seq<Result<T, E>>,
) -> Result<Seq<Option<T>>, DecodeError<E>>
    decreases fields.len(),
{
    if fields.len() == 0 {
        Ok(Seq::empty())
    } else {
        let at = (fields.len() - 1) as usize;
        match decoded(fields.drop_last(), object, outcomes.drop_last()) {
            Err(e) => Err(e),
            Ok(slots) => if object.contains_key(fields.last().key) {
                match outcomes.last() {
                    Ok(value) => Ok(slots.push(Some(value))),
                    Err(error) => Err(DecodeError::Conversion { member: at, error }),
                }
            } else if fields.last().optional {
                Ok(slots.push(None))
            } else {
                Err(DecodeError::MissingMapping { field: at })
            },
        }
    }
}

/// `outcomes` are results that `convert` may give for the entries of the
/// first fields, each with the index of its field. Nothing is said of the
/// outcome of a field whose entry is absent.
pub open spec fn entries_seen<V, T, E, F: Fn(usize, &V) -> Result<T, E>>(
    convert: F,
    fields: Seq<FieldBindingView>,
    object: Map<Seq<char>, V>,
    outcomes: Seq<Result<T, E>>,
) -> bool {
    &&& outcomes.len() <= fields.len()
    &&& forall|i: int|
        0 <= i < outcomes.len() && object.contains_key(fields[i].key) ==> call_ensures(
            convert,
            (i as usize, &object[fields[i].key]),
            #[trigger] outcomes[i],
        )
}

impl ObjectDecoder {
    /// Decodes the object of an event into the values of the fields, in
    /// the order of the declaration. For each field the entry under its
    /// outward name is looked up and converted by `convert`, which gets
    /// the index of the field with it. An absent entry gives `None` where
    /// the field is optional, and ends the decoding with an error where it
    /// is not; a conversion that fails ends it with its error. After the
    /// first failure nothing more is looked up or converted.
    pub fn decode<V, T, E, F: Fn(usize, &V) -> Result<T, E>>(
        &self,
        object: &Mapping<V>,
        convert: F,
    ) -> (res: Result<Vec<Option<T>>, DecodeError<E>>)
        requires
            forall|i: int|
                0 <= i < self@.fields.len() && object@.contains_key(
                    (#[trigger] self@.fields[i]).key,
                ) ==> call_requires(convert, (i as usize, &object@[self@.fields[i].key])),
        ensures
            exists|outcomes: Seq<Result<T, E>>|
                #[trigger] entries_seen(convert, self@.fields, object@, outcomes) && match res {
                    Ok(slots) => outcomes.len() == self@.fields.len() && decoded(
                        self@.fields,
                        object@,
                        outcomes,
                    ) == Ok::<Seq<Option<T>>, DecodeError<E>>(slots@),
                    Err(e) => decoded(
                        self@.fields.take(outcomes.len() as int),
                        object@,
                        outcomes,
                    ) == Err::<Seq<Option<T>>, DecodeError<E>>(e),
                },
    {
        let ghost fields = self@.fields;
        let mut slots: Vec<Option<T>> = Vec::new();
        let ghost mut outcomes: Seq<Result<T, E>> = Seq::empty();
        let mut i: usize = 0;
        while i < self.fields.len()
            invariant
                fields == self@.fields,
                forall|i: int|
                    0 <= i < fields.len() && object@.contains_key((#[trigger] fields[i]).key)
                        ==> call_requires(convert, (i as usize, &object@[fields[i].key])),
                i <= self.fields@.len(),
                outcomes.len() == i,
                entries_seen(convert, fields, object@, outcomes),
                decoded(fields.take(i as int), object@, outcomes) == Ok::<
                    Seq<Option<T>>,
                    DecodeError<E>,
                >(slots@),
            decreases self.fields@.len() - i,
        {
            let ghost before = outcomes;
            proof {
                assert(fields.take(i + 1).drop_last() == fields.take(i as int));
                assert(fields.take(i + 1).last() == self.fields@[i as int]@);
            }
            match object.get(self.fields[i].key.as_str()) {
                Some(value) => {
                    assert(fields[i as int].key == self.fields@[i as int].key@);
                    let outcome = convert(i, value);
                    proof {
                        outcomes = before.push(outcome);
                    }
                    assert(outcomes.drop_last() == before);
                    assert(entries_seen(convert, fields, object@, outcomes)) by {
                        assert forall|j: int|
                            0 <= j < outcomes.len() && object@.contains_key(
                                fields[j].key,
                            ) implies call_ensures(
                            convert,
                            (j as usize, &object@[fields[j].key]),
                            #[trigger] outcomes[j],
                        ) by {
                            if j < i {
                                assert(outcomes[j] == before[j]);
                            }
                        }
                    }
                    match outcome {
                        Ok(converted) => {
                            slots.push(Some(converted));
                        },
                        Err(error) => {
                            assert(decoded(fields.take(outcomes.len() as int), object@, outcomes)
                                == Err::<Seq<Option<T>>, DecodeError<E>>(
                                DecodeError::Conversion { member: i, error },
                            ));
                            return Err(DecodeError::Conversion { member: i, error });
                        },
                    }
                },
                None => {
                    proof {
                        outcomes = before.push(arbitrary());
                    }
                    assert(outcomes.drop_last() == before);
                    assert(entries_seen(convert, fields, object@, outcomes)) by {
                        assert forall|j: int|
                            0 <= j < outcomes.len() && object@.contains_key(
                                fields[j].key,
                            ) implies call_ensures(
                            convert,
                            (j as usize, &object@[fields[j].key]),
                            #[trigger] outcomes[j],
                        ) by {
                            if j < i {
                                assert(outcomes[j] == before[j]);
                            }
                        }
                    }
                    if self.fields[i].optional {
                        slots.push(None);
                    } else {
                        assert(decoded(fields.take(outcomes.len() as int), object@, outcomes)
                            == Err::<Seq<Option<T>>, DecodeError<E>>(
                            DecodeError::MissingMapping { field: i },
                        ));
                        return Err(DecodeError::MissingMapping { field: i });
                    }
                },
            }
            i += 1;
        }
        assert(fields.take(self.fields@.len() as int) == fields);
        Ok(slots)
    }
}

/// The variant that an event selects, and the value that it holds.
#[derive(Clone, Debug, PartialEq, Eq)]
pub struct Selected<T> {
    /// The index of the variant in the declaration.
    pub variant: usize,
    /// The converted value, or nothing where the event held none.
    pub value: Option<T>,
}

/// The index of the first variant that is bound to `path`. A path fits an
/// endpoint when the two are the same text.
pub open spec fn endpoint_index(variants: Seq<VariantBindingView>, path: Seq<char>) -> Option<int>
    decreases variants.len(),
{
    if variants.len() == 0 {
        None
    } else {
        match endpoint_index(variants.drop_last(), path) {
            Some(i) => Some(i),
            None => if variants.last().endpoint == path {
                Some(variants.len() - 1)
            } else {
                None
            },
        }
    }
}

/// What the bindings make of the path of an event, of whether the event
/// holds a value, and of the outcome of the conversion of that value.
pub open spec fn selected<T, E>(
    variants: Seq<VariantBindingView>,
    path: Seq<char>,
    present: bool,
    outcome: Result<T, E>,
) -> Result<Selected<T>, DecodeError<E>> {
    match endpoint_index(variants, path) {
        None => Err(DecodeError::UnknownEndpoint),
        Some(i) => if present {
            match outcome {
                Ok(value) => Ok(Selected { variant: i as usize, value: Some(value) }),
                Err(error) => Err(DecodeError::Conversion { member: i as usize, error }),
            }
        } else if variants[i].allow_unset {
            Ok(Selected { variant: i as usize, value: None })
        } else {
            Err(DecodeError::MissingValue { variant: i as usize })
        },
    }
}

/// `outcome` is a result that `convert` may give for the value of the
/// event, with the index of the variant that the path selects. Nothing is
/// said of it where no variant is selected or the event holds no value.
pub open spec fn value_seen<V, T, E, F: Fn(usize, &V) -> Result<T, E>>(
    convert: F,
    variants: Seq<VariantBindingView>,
    path: Seq<char>,
    payload: Option<&V>,
    outcome: Result<T, E>,
) -> bool {
    match (endpoint_index(variants, path), payload) {
        (Some(i), Some(value)) => call_ensures(convert, (i as usize, value), outcome),
        _ => true,
    }
}

/// [`endpoint_index`] is the first variant whose endpoint is the path,
/// and `None` only where no variant has that endpoint.
pub proof fn lemma_endpoint_is_first(variants: Seq<VariantBindingView>, path: Seq<char>)
    ensures
        match endpoint_index(variants, path) {
            Some(i) => {
                &&& 0 <= i < variants.len()
                &&& variants[i].endpoint == path
                &&& forall|j: int| 0 <= j < i ==> (#[trigger] variants[j]).endpoint != path
            },
            None => forall|j: int|
                0 <= j < variants.len() ==> (#[trigger] variants[j]).endpoint != path,
        },
    decreases variants.len(),
{
    if variants.len() > 0 {
        let rest = variants.drop_last();
        lemma_endpoint_is_first(rest, path);
        assert forall|j: int| 0 <= j < rest.len() implies rest[j] == variants[j] by {}
    }
}

proof fn lemma_endpoint_stays(variants: Seq<VariantBindingView>, path: Seq<char>, k: int)
    requires
        0 <= k <= variants.len(),
        endpoint_index(variants.take(k), path) is Some,
    ensures
        endpoint_index(variants, path) == endpoint_index(variants.take(k), path),
    decreases variants.len() - k,
{
    if k < variants.len() {
        assert(variants.take(k + 1).drop_last() == variants.take(k));
        lemma_endpoint_stays(variants, path, k + 1);
    } else {
        assert(variants.take(k) == variants);
    }
}

impl IndividualDecoder {
    /// The index of the first variant that is bound to `path`.
    pub fn find_endpoint(&self, path: &str) -> (res: Option<usize>)
        ensures
            match res {
                Some(i) => i < self@.variants.len() && endpoint_index(self@.variants, path@)
                    == Some(i as int),
                None => endpoint_index(self@.variants, path@) is None,
            },
    {
        let ghost variants = self@.variants;
        let mut i: usize = 0;
        while i < self.variants.len()
            invariant
                variants == self@.variants,
                i <= self.variants@.len(),
                endpoint_index(variants.take(i as int), path@) is None,
            decreases self.variants@.len() - i,
        {
            proof {
                assert(variants.take(i + 1).drop_last() == variants.take(i as int));
                assert(variants.take(i + 1).last() == self.variants@[i as int]@);
            }
            if same_text(self.variants[i].endpoint.as_str(), path) {
                proof {
                    lemma_endpoint_stays(variants, path@, i + 1);
                }
                return Some(i);
            }
            i += 1;
        }
        assert(variants.take(self.variants@.len() as int) == variants);
        None
    }

    /// Decodes the event of one endpoint: `path` is the path of the event
    /// and `payload` its value, if it holds one. The first variant whose
    /// endpoint is `path` is selected; a path that no variant is bound to
    /// is an error. A value is converted by `convert`, which gets the
    /// index of the variant with it, and a conversion that fails gives its
    /// error. Without a value the variant holds nothing where it allows
    /// that, and the event is in error where it does not.
    pub fn decode<V, T, E, F: Fn(usize, &V) -> Result<T, E>>(
        &self,
        path: &str,
        payload: Option<&V>,
        convert: F,
    ) -> (res: Result<Selected<T>, DecodeError<E>>)
        requires
            endpoint_index(self@.variants, path@) matches Some(i) && payload matches Some(value)
                ==> call_requires(convert, (i as usize, value)),
        ensures
            exists|outcome: Result<T, E>|
                #[trigger] value_seen(convert, self@.variants, path@, payload, outcome) && res
                    == selected(self@.variants, path@, payload is Some, outcome),
    {
        let variant = match self.find_endpoint(path) {
            None => {
                assert(value_seen::<V, T, E, F>(
                    convert,
                    self@.variants,
                    path@,
                    payload,
                    arbitrary(),
                ));
                return Err(DecodeError::UnknownEndpoint);
            },
            Some(variant) => variant,
        };
        match payload {
            Some(value) => {
                let outcome = convert(variant, value);
                let res = match outcome {
                    Ok(converted) => Ok(Selected { variant, value: Some(converted) }),
                    Err(error) => Err(DecodeError::Conversion { member: variant, error }),
                };
                assert(value_seen(convert, self@.variants, path@, payload, outcome));
                res
            },
            None => {
                let res = if self.variants[variant].allow_unset {
                    Ok(Selected { variant, value: None })
                } else {
                    Err(DecodeError::MissingValue { variant })
                };
                assert(value_seen::<V, T, E, F>(
                    convert,
                    self@.variants,
                    path@,
                    payload,
                    arbitrary(),
                ));
                res
            },
        }
    }
}

/// The steps of an encoding and the bindings of a decoding name the
/// fields alike.
pub open spec fn same_keys(steps: Seq<EncodeStepView>, fields: Seq<FieldBindingView>) -> bool {
    &&& steps.len() == fields.len()
    &&& forall|i: int| 0 <= i < steps.len() ==> (#[trigger] steps[i]).key == fields[i].key
}

/// `key` is the outward name of one of the first `k` fields.
pub open spec fn bound_before(fields: Seq<FieldBindingView>, k: int, key: Seq<char>) -> bool {
    exists|i: int| 0 <= i < k && (#[trigger] fields[i]).key == key
}

/// The outcomes of converting the entry of each field with `from`.
pub open spec fn entry_outcomes<V, T, D>(
    fields: Seq<FieldBindingView>,
    object: Map<Seq<char>, V>,
    from: spec_fn(int, V) -> Result<T, D>,
) -> Seq<Result<T, D>> {
    Seq::new(fields.len(), |i: int| from(i, object[fields[i].key]))
}

/// The outcomes of converting each decoded value with `to`.
pub open spec fn slot_outcomes<V, T, E>(
    slots: Seq<Option<T>>,
    to: spec_fn(int, Option<T>) -> Result<V, E>,
) -> Seq<Result<V, E>> {
    Seq::new(slots.len(), |i: int| to(i, slots[i]))
}

/// An object that lacks the entry of a field that is not optional does
/// not decode, whatever the conversions give. Where the conversion of
/// every entry before that field succeeds, the error is that of a missing
/// entry, for that field or for one before it.
pub proof fn lemma_missing_entry_fails<V, T, E>(
    fields: Seq<FieldBindingView>,
    object: Map<Seq<char>, V>,
    outcomes: Seq<Result<T, E>>,
    k: int,
)
    requires
        fields.len() <= usize::MAX,
        outcomes.len() == fields.len(),
        0 <= k < fields.len(),
        !fields[k].optional,
        !object.contains_key(fields[k].key),
    ensures
        decoded(fields, object, outcomes) is Err,
        (forall|i: int| 0 <= i < k && object.contains_key(fields[i].key) ==> outcomes[i] is Ok)
            ==> (decoded(fields, object, outcomes) matches Err(
            DecodeError::MissingMapping { field },
        ) && field <= k),
    decreases fields.len(),
{
    let rest = fields.drop_last();
    let rest_outcomes = outcomes.drop_last();
    if k < fields.len() - 1 {
        lemma_missing_entry_fails(rest, object, rest_outcomes, k);
    } else {
        lemma_decoded_meaning(rest, object, rest_outcomes);
    }
}

/// Whether field `i` decodes: its entry is there and converts, or is
/// absent and the field optional.
pub open spec fn field_decodes<V, T, E>(
    fields: Seq<FieldBindingView>,
    object: Map<Seq<char>, V>,
    outcomes: Seq<Result<T, E>>,
    i: int,
) -> bool {
    if object.contains_key(fields[i].key) {
        outcomes[i] is Ok
    } else {
        fields[i].optional
    }
}

/// What [`decoded`] comes to, field by field. An object decodes exactly
/// when every field decodes, and then each field holds the converted
/// value of its entry, or nothing where it has no entry. Otherwise the
/// error is that of the first field that does not decode: a missing
/// entry where it has none, else the error of its conversion.
pub proof fn lemma_decoded_meaning<V, T, E>(
    fields: Seq<FieldBindingView>,
    object: Map<Seq<char>, V>,
    outcomes: Seq<Result<T, E>>,
)
    requires
        fields.len() <= usize::MAX,
        outcomes.len() == fields.len(),
    ensures
        match decoded(fields, object, outcomes) {
            Ok(slots) => {
                &&& slots.len() == fields.len()
                &&& forall|i: int|
                    0 <= i < fields.len() ==> field_decodes(fields, object, outcomes, i)
                &&& forall|i: int|
                    0 <= i < fields.len() ==> #[trigger] slots[i] == if object.contains_key(
                        fields[i].key,
                    ) {
                        Some(outcomes[i]->Ok_0)
                    } else {
                        None
                    }
            },
            Err(DecodeError::MissingMapping { field }) => {
                &&& field < fields.len()
                &&& !object.contains_key(fields[field as int].key)
                &&& !fields[field as int].optional
                &&& forall|i: int| 0 <= i < field ==> field_decodes(fields, object, outcomes, i)
            },
            Err(DecodeError::Conversion { member, error }) => {
                &&& member < fields.len()
                &&& object.contains_key(fields[member as int].key)
                &&& outcomes[member as int] == Err::<T, E>(error)
                &&& forall|i: int| 0 <= i < member ==> field_decodes(fields, object, outcomes, i)
            },
            Err(_) => false,
        },
    decreases fields.len(),
{
    if fields.len() > 0 {
        let rest = fields.drop_last();
        let rest_outcomes = outcomes.drop_last();
        let last = fields.len() - 1;
        lemma_decoded_meaning(rest, object, rest_outcomes);
        assert forall|i: int| 0 <= i < rest.len() implies #[trigger] field_decodes(
            rest,
            object,
            rest_outcomes,
            i,
        ) == field_decodes(fields, object, outcomes, i) by {
            assert(rest[i] == fields[i]);
            assert(rest_outcomes[i] == outcomes[i]);
        }
        assert forall|i: int|
            0 <= i < rest.len() && field_decodes(
                rest,
                object,
                rest_outcomes,
                i,
            ) implies #[trigger] field_decodes(fields, object, outcomes, i) by {}
        match decoded(rest, object, rest_outcomes) {
            Ok(before) => {
                match decoded(fields, object, outcomes) {
                    Ok(slots) => {
                        assert forall|i: int| 0 <= i < fields.len() implies #[trigger] slots[i]
                            == if object.contains_key(fields[i].key) {
                            Some(outcomes[i]->Ok_0)
                        } else {
                            None
                        } by {
                            if i < last {
                                assert(slots[i] == before[i]);
                                assert(rest[i] == fields[i]);
                                assert(rest_outcomes[i] == outcomes[i]);
                            }
                        }
                    },
                    Err(_) => {},
                }
            },
            Err(_) => {},
        }
    }
}

/// Decoding an object and encoding the result gives the object back.
///
/// `steps` and `fields` come from one declaration, so they name the
/// fields alike. The object holds an entry for every field, and no other
/// entry. `from` converts the entry of each field and succeeds on it, and
/// `to` converts the decoded value back into the value of the entry. Then
/// the object decodes, and what the decoded values encode to is the
/// object.
pub proof fn lemma_object_round_trip<V, T, D, E>(
    steps: Seq<EncodeStepView>,
    fields: Seq<FieldBindingView>,
    object: Map<Seq<char>, V>,
    from: spec_fn(int, V) -> Result<T, D>,
    to: spec_fn(int, Option<T>) -> Result<V, E>,
)
    requires
        same_keys(steps, fields),
        forall|i: int| 0 <= i < fields.len() ==> object.contains_key((#[trigger] fields[i]).key),
        forall|key: Seq<char>|
            object.contains_key(key) ==> bound_before(fields, fields.len() as int, key),
        forall|i: int|
            0 <= i < fields.len() ==> (from(i, object[(#[trigger] fields[i]).key]) matches Ok(
                value,
            ) && to(i, Some(value)) == Ok::<V, E>(object[fields[i].key])),
    ensures
        decoded(fields, object, entry_outcomes(fields, object, from)) matches Ok(slots) && encoded(
            steps,
            slot_outcomes(slots, to),
        ) == Ok::<Map<Seq<char>, V>, EncodeError<E>>(object),
{
    let n = fields.len() as int;
    lemma_round_trip_upto(steps, fields, object, from, to, n);
    let back = entry_outcomes(fields, object, from);
    let slots = Seq::new(fields.len(), |i: int| Some(from(i, object[fields[i].key])->Ok_0));
    assert(fields.take(n) == fields);
    assert(steps.take(n) == steps);
    assert(back.take(n) == back);
    assert(slots.take(n) == slots);
    let forth = slot_outcomes(slots, to);
    assert(forth.take(n) == forth);
    let made = encoded(steps, forth)->Ok_0;
    assert(made =~= object) by {
        assert forall|key: Seq<char>| made.contains_key(key) <==> object.contains_key(key) by {
            if object.contains_key(key) {
                assert(bound_before(fields, n, key));
            }
            if made.contains_key(key) {
                assert(bound_before(fields, n, key));
                let i = choose|i: int| 0 <= i < n && (#[trigger] fields[i]).key == key;
                assert(object.contains_key(fields[i].key));
            }
        }
    }
}

/// The first `k` fields of an object as in [`lemma_object_round_trip`]
/// decode, and encode to the entries of those fields.
proof fn lemma_round_trip_upto<V, T, D, E>(
    steps: Seq<EncodeStepView>,
    fields: Seq<FieldBindingView>,
    object: Map<Seq<char>, V>,
    from: spec_fn(int, V) -> Result<T, D>,
    to: spec_fn(int, Option<T>) -> Result<V, E>,
    k: int,
)
    requires
        same_keys(steps, fields),
        0 <= k <= fields.len(),
        forall|i: int| 0 <= i < fields.len() ==> object.contains_key((#[trigger] fields[i]).key),
        forall|i: int|
            0 <= i < fields.len() ==> (from(i, object[(#[trigger] fields[i]).key]) matches Ok(
                value,
            ) && to(i, Some(value)) == Ok::<V, E>(object[fields[i].key])),
    ensures
        ({
            let slots = Seq::new(fields.len(), |i: int| Some(from(i, object[fields[i].key])->Ok_0));
            &&& decoded(fields.take(k), object, entry_outcomes(fields, object, from).take(k))
                == Ok::<Seq<Option<T>>, DecodeError<D>>(slots.take(k))
            &&& encoded(steps.take(k), slot_outcomes(slots, to).take(k)) matches Ok(made)
            &&& forall|key: Seq<char>| made.contains_key(key) <==> bound_before(fields, k, key)
            &&& forall|key: Seq<char>| made.contains_key(key) ==> made[key] == object[key]
        }),
    decreases k,
{
    let slots = Seq::new(fields.len(), |i: int| Some(from(i, object[fields[i].key])->Ok_0));
    let back = entry_outcomes(fields, object, from);
    let forth = slot_outcomes(slots, to);
    if k == 0 {
        assert(slots.take(0) =~= Seq::<Option<T>>::empty());
        let made = Map::<Seq<char>, V>::empty();
        assert(encoded(steps.take(0), forth.take(0)) == Ok::<Map<Seq<char>, V>, EncodeError<E>>(
            made,
        ));
    } else {
        lemma_round_trip_upto(steps, fields, object, from, to, k - 1);
        let last = k - 1;
        assert(fields.take(k).drop_last() == fields.take(last));
        assert(steps.take(k).drop_last() == steps.take(last));
        assert(back.take(k).drop_last() == back.take(last));
        assert(forth.take(k).drop_last() == forth.take(last));
        assert(fields.take(k).last() == fields[last]);
        assert(steps.take(k).last() == steps[last]);
        assert(back.take(k).last() == from(last, object[fields[last].key]));
        assert(forth.take(k).last() == to(last, slots[last]));
        assert(object.contains_key(fields[last].key));
        assert(slots.take(last).push(slots[last]) == slots.take(k));
        let before = encoded(steps.take(last), forth.take(last))->Ok_0;
        let made = before.insert(steps[last].key, object[fields[last].key]);
        assert(encoded(steps.take(k), forth.take(k)) == Ok::<Map<Seq<char>, V>, EncodeError<E>>(
            made,
        ));
        assert forall|key: Seq<char>| made.contains_key(key) <==> bound_before(
            fields,
            k,
            key,
        ) by {
            if made.contains_key(key) {
                if key == steps[last].key {
                    assert(fields[last].key == key);
                } else {
                    assert(bound_before(fields, last, key));
                    let i = choose|i: int| 0 <= i < last && (#[trigger] fields[i]).key == key;
                    assert(fields[i].key == key);
                }
            }
            if bound_before(fields, k, key) {
                let i = choose|i: int| 0 <= i < k && (#[trigger] fields[i]).key == key;
                if i < last {
                    assert(bound_before(fields, last, key));
                }
            }
        }
    }
}

/// A decoding names the fields as an encoding under the same rule does:
/// where the fields of a struct bind, there is one binding for each field,
/// in order, and its key is the outward name that the rule gives to the
/// identifier of the field.
pub proof fn lemma_bindings_follow_rule(rule: RenameRule, fields: Seq<FieldView>)
    requires
        field_bindings(rule, fields) is Ok,
    ensures
        field_bindings(rule, fields)->Ok_0.len() == fields.len(),
        forall|i: int|
            0 <= i < fields.len() ==> {
                let binding = #[trigger] field_bindings(rule, fields)->Ok_0[i];
                &&& fields[i].ident == Some(binding.ident)
                &&& binding.key == apply(rule, binding.ident)
            },
    decreases fields.len(),
{
    if fields.len() > 0 {
        lemma_bindings_follow_rule(rule, fields.drop_last());
    }
}

} // verus!
