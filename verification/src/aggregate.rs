//! The encode direction: from a struct with named fields to the steps that
//! turn an instance into a mapping from outward names to values.

use crate::attrs::{
    attribute_list, parse_attribute_list, parse_name_value_attrs, parsed, rename_option, AttrKind,
    NameValueView, NameValues,
};
use crate::case::{apply, RenameRule};
use crate::error::{viewed, viewed_each, BuildError, ErrorKind, Reason};
use crate::mapping::Mapping;
use crate::schema::{
    copy_texts, AttributeView, Attribute, Data, DataView, Declaration, DeclarationView, Field,
    FieldView, Fields, FieldsView, GenericParam, GenericParamView,
};
use vstd::prelude::*;

verus! {

/// The options of `#[astarte_aggregate(..)]`.
#[derive(Clone, Copy, Debug, PartialEq, Eq, Structural)]
pub struct AggregateAttributes {
    /// The rule that names the fields in the mapping.
    pub rename_all: Option<RenameRule>,
}

impl Default for AggregateAttributes {
    fn default() -> (res: Self)
        ensures
            res == AggregateAttributes::unset(),
    {
        AggregateAttributes { rename_all: None }
    }
}

impl AggregateAttributes {
    /// The options of a declaration without configuration.
    pub open spec fn unset() -> AggregateAttributes {
        AggregateAttributes { rename_all: None }
    }

    /// `self`, overridden by what `other` sets.
    pub open spec fn merged(self, other: AggregateAttributes) -> AggregateAttributes {
        AggregateAttributes {
            rename_all: match other.rename_all {
                Some(rule) => Some(rule),
                None => self.rename_all,
            },
        }
    }

    /// The options that one block sets: an error where the block holds an
    /// option other than `rename_all`, else what `rename_all` is set to.
    pub open spec fn resolved(vars: Seq<NameValueView>) -> Result<AggregateAttributes, BuildError> {
        match AttrKind::Aggregate.all_known(vars) {
            Err(e) => Err(e),
            Ok(_) => match rename_option(vars) {
                Err(e) => Err(e),
                Ok(rename_all) => Ok(AggregateAttributes { rename_all }),
            },
        }
    }

    /// The options that the text of one block sets.
    pub open spec fn parsed_from(tokens: Seq<char>) -> Result<AggregateAttributes, BuildError> {
        match parsed(tokens) {
            Err(e) => Err(e),
            Ok(vars) => AggregateAttributes::resolved(vars),
        }
    }

    /// The options of a declaration: those of its `astarte_aggregate`
    /// blocks, merged from the first to the last. The first block in error
    /// gives the error, placed in that attribute.
    pub open spec fn gathered(attrs: Seq<AttributeView>) -> Result<AggregateAttributes, BuildError>
        decreases attrs.len(),
    {
        if attrs.len() == 0 {
            Ok(AggregateAttributes::unset())
        } else {
            let at = (attrs.len() - 1) as usize;
            match AggregateAttributes::gathered(attrs.drop_last()) {
                Err(e) => Err(e),
                Ok(sofar) => match attribute_list(attrs.last(), "astarte_aggregate"@) {
                    None => Ok(sofar),
                    Some(Err(e)) => Err(e.in_attribute(at)),
                    Some(Ok(vars)) => match AggregateAttributes::resolved(vars) {
                        Err(e) => Err(e.in_attribute(at)),
                        Ok(block) => Ok(sofar.merged(block)),
                    },
                },
            }
        }
    }

    /// Merges the options of `other` into `self`: an option that `other`
    /// sets takes the value it has there, an option that `other` leaves
    /// unset keeps the value it has in `self`.
    pub fn merge(self, other: Self) -> (res: Self)
        ensures
            res == self.merged(other),
            other.rename_all is Some ==> res.rename_all == other.rename_all,
            other.rename_all is None ==> res.rename_all == self.rename_all,
    {
        let rename_all = match other.rename_all {
            Some(rule) => Some(rule),
            None => self.rename_all,
        };
        Self { rename_all }
    }

    /// Resolves the options of one block.
    pub fn from_name_values(vars: &NameValues) -> (res: Result<Self, BuildError>)
        ensures
            res == AggregateAttributes::resolved(vars@),
    {
        match AttrKind::Aggregate.check_known(vars) {
            Err(e) => Err(e),
            Ok(_) => match vars.get_rename() {
                Err(e) => Err(e),
                Ok(rename_all) => Ok(Self { rename_all }),
            },
        }
    }

    /// Reads the text of one block and resolves its options.
    pub fn parse(tokens: &str) -> (res: Result<Self, BuildError>)
        ensures
            res == AggregateAttributes::parsed_from(tokens@),
    {
        match parse_name_value_attrs(tokens) {
            Err(e) => Err(e),
            Ok(vars) => Self::from_name_values(&vars),
        }
    }

    /// Finds the `astarte_aggregate` blocks among `attrs` and merges them
    /// from the first to the last.
    pub fn from_attributes(attrs: &Vec<Attribute>) -> (res: Result<Self, BuildError>)
        ensures
            res == AggregateAttributes::gathered(attrs.deep_view()),
    {
        let ghost all = attrs.deep_view();
        let mut sofar = Self { rename_all: None };
        let mut i: usize = 0;
        while i < attrs.len()
            invariant
                all == attrs.deep_view(),
                i <= attrs@.len(),
                AggregateAttributes::gathered(all.take(i as int)) == Ok::<
                    AggregateAttributes,
                    BuildError,
                >(sofar),
            decreases attrs@.len() - i,
        {
            proof {
                let next = all.take(i + 1);
                assert(next.drop_last() == all.take(i as int));
                assert(next.last() == attrs@[i as int]@);
            }
            match parse_attribute_list(&attrs[i], "astarte_aggregate") {
                None => {},
                Some(Err(e)) => {
                    proof {
                        lemma_gathered_error_stays(all, i + 1);
                    }
                    return Err(e.at_attribute(i));
                },
                Some(Ok(vars)) => match Self::from_name_values(&vars) {
                    Err(e) => {
                        proof {
                            lemma_gathered_error_stays(all, i + 1);
                        }
                        return Err(e.at_attribute(i));
                    },
                    Ok(block) => {
                        sofar = sofar.merge(block);
                    },
                },
            }
            i += 1;
        }
        assert(all.take(attrs@.len() as int) == all);
        Ok(sofar)
    }
}

/// An error among the first `k` attributes is the error of them all.
proof fn lemma_gathered_error_stays(attrs: Seq<AttributeView>, k: int)
    requires
        0 <= k <= attrs.len(),
        AggregateAttributes::gathered(attrs.take(k)) is Err,
    ensures
        AggregateAttributes::gathered(attrs) == AggregateAttributes::gathered(attrs.take(k)),
    decreases attrs.len() - k,
{
    if k < attrs.len() {
        assert(attrs.take(k + 1).drop_last() == attrs.take(k));
        lemma_gathered_error_stays(attrs, k + 1);
    } else {
        assert(attrs.take(k) == attrs);
    }
}

/// Merging is associative, so the options of a declaration do not depend
/// on how its blocks are grouped, only on their order.
pub proof fn lemma_merge_associative(
    a: AggregateAttributes,
    b: AggregateAttributes,
    c: AggregateAttributes,
)
    ensures
        a.merged(b).merged(c) == a.merged(b.merged(c)),
        AggregateAttributes::unset().merged(a) == a,
        a.merged(AggregateAttributes::unset()) == a,
{
}

/// The identifiers of the fields of a struct with named fields. Any other
/// declaration is an error of shape about the declaration; a field without
/// identifier is one about that field.
pub open spec fn struct_fields(data: DataView) -> Result<Seq<Seq<char>>, BuildError> {
    match data {
        DataView::Struct(FieldsView::Named(fields)) => named_fields(fields),
        _ => Err(BuildError::of(Reason::NotNamedStruct)),
    }
}

/// The identifiers of `fields`, or an error at the first field that has
/// none.
pub open spec fn named_fields(fields: Seq<FieldView>) -> Result<Seq<Seq<char>>, BuildError> {
    match first_unnamed(fields) {
        Some(i) => Err(BuildError::of(Reason::FieldNotIdent).in_member(i as usize)),
        None => Ok(idents_of(fields)),
    }
}

/// The identifiers of `fields`, in order.
pub open spec fn idents_of(fields: Seq<FieldView>) -> Seq<Seq<char>> {
    Seq::new(fields.len(), |i: int| fields[i].ident->0)
}

/// The index of the first field without identifier.
pub open spec fn first_unnamed(fields: Seq<FieldView>) -> Option<int>
    decreases fields.len(),
{
    if fields.len() == 0 {
        None
    } else {
        match first_unnamed(fields.drop_last()) {
            Some(i) => Some(i),
            None => if fields.last().ident is None {
                Some(fields.len() - 1)
            } else {
                None
            },
        }
    }
}

proof fn lemma_first_unnamed_stays(fields: Seq<FieldView>, k: int)
    requires
        0 <= k <= fields.len(),
        first_unnamed(fields.take(k)) is Some,
    ensures
        first_unnamed(fields) == first_unnamed(fields.take(k)),
    decreases fields.len() - k,
{
    if k < fields.len() {
        assert(fields.take(k + 1).drop_last() == fields.take(k));
        lemma_first_unnamed_stays(fields, k + 1);
    } else {
        assert(fields.take(k) == fields);
    }
}

/// The identifiers of the fields in `fields`, in order.
pub fn field_idents(fields: &Vec<Field>) -> (res: Result<Vec<String>, BuildError>)
    ensures
        viewed_each(res) == named_fields(fields.deep_view()),
{
    let ghost all = fields.deep_view();
    let mut out: Vec<String> = Vec::new();
    let mut i: usize = 0;
    while i < fields.len()
        invariant
            all == fields.deep_view(),
            i <= fields@.len(),
            first_unnamed(all.take(i as int)) is None,
            out@.len() == i,
            forall|j: int| 0 <= j < i ==> (#[trigger] out@[j])@ == all[j].ident->0,
        decreases fields@.len() - i,
    {
        proof {
            let next = all.take(i + 1);
            assert(next.drop_last() == all.take(i as int));
            assert(next.last() == fields@[i as int]@);
        }
        match &fields[i].ident {
            None => {
                proof {
                    lemma_first_unnamed_stays(all, i + 1);
                }
                return Err(BuildError::new(Reason::FieldNotIdent).at_member(i));
            },
            Some(ident) => {
                out.push(ident.clone());
            },
        }
        i += 1;
    }
    assert(all.take(fields@.len() as int) == all);
    assert(out.deep_view() =~= idents_of(all));
    Ok(out)
}

/// Reads the fields of a struct with named fields.
pub fn parse_struct_fields(ast: &Declaration) -> (res: Result<Vec<String>, BuildError>)
    ensures
        viewed_each(res) == struct_fields(ast@.data),
{
    match &ast.data {
        Data::Struct(Fields::Named(fields)) => field_idents(fields),
        _ => Err(BuildError::new(Reason::NotNamedStruct)),
    }
}

/// The bound that every type parameter of an encodable struct gets: its
/// values convert into the generic value type.
pub open spec fn conversion_bound() -> Seq<char> {
    "std::convert::TryInto<astarte_device_sdk::types::AstarteType, Error = astarte_device_sdk::error::Error>"@
}

/// `param` with the conversion bound added where it is a type parameter.
pub open spec fn bounded(param: GenericParamView) -> GenericParamView {
    match param {
        GenericParamView::Type { name, bounds } => GenericParamView::Type {
            name,
            bounds: bounds.push(conversion_bound()),
        },
        other => other,
    }
}

/// A struct that can be encoded, as its declaration resolves.
#[derive(Clone, Debug, PartialEq, Eq)]
pub struct AggregateDerive {
    pub name: String,
    pub attrs: AggregateAttributes,
    pub fields: Vec<String>,
    pub generics: Vec<GenericParam>,
}

/// The mathematical value of an [`AggregateDerive`].
pub struct AggregateDeriveView {
    pub name: Seq<char>,
    pub attrs: AggregateAttributes,
    pub fields: Seq<Seq<char>>,
    pub generics: Seq<GenericParamView>,
}

impl View for AggregateDerive {
    type V = AggregateDeriveView;

    open spec fn view(&self) -> AggregateDeriveView {
        AggregateDeriveView {
            name: self.name@,
            attrs: self.attrs,
            fields: self.fields.deep_view(),
            generics: self.generics.deep_view(),
        }
    }
}

/// One step of the encoding: the field it reads and the name it writes.
#[derive(Clone, Debug, PartialEq, Eq)]
pub struct EncodeStep {
    pub field: String,
    pub key: String,
}

/// The mathematical value of an [`EncodeStep`].
pub struct EncodeStepView {
    pub field: Seq<char>,
    pub key: Seq<char>,
}

impl View for EncodeStep {
    type V = EncodeStepView;

    open spec fn view(&self) -> EncodeStepView {
        EncodeStepView { field: self.field@, key: self.key@ }
    }
}

impl DeepView for EncodeStep {
    type V = EncodeStepView;

    open spec fn deep_view(&self) -> EncodeStepView {
        self@
    }
}

/// The generated encoding of a struct: one step for each field, in the
/// order of the declaration.
#[derive(Clone, Debug, PartialEq, Eq)]
pub struct Encoder {
    pub name: String,
    pub generics: Vec<GenericParam>,
    pub steps: Vec<EncodeStep>,
}

/// The mathematical value of an [`Encoder`].
pub struct EncoderView {
    pub name: Seq<char>,
    pub generics: Seq<GenericParamView>,
    pub steps: Seq<EncodeStepView>,
}

impl View for Encoder {
    type V = EncoderView;

    open spec fn view(&self) -> EncoderView {
        EncoderView {
            name: self.name@,
            generics: self.generics.deep_view(),
            steps: self.steps.deep_view(),
        }
    }
}

/// The rule of a declaration: the one it configures, else the identity.
pub open spec fn rule_of(rename_all: Option<RenameRule>) -> RenameRule {
    match rename_all {
        Some(rule) => rule,
        None => RenameRule::Unchanged,
    }
}

impl AggregateDeriveView {
    /// What a declaration resolves to: its shape is checked first, then its
    /// options are gathered.
    pub open spec fn of(ast: DeclarationView) -> Result<AggregateDeriveView, BuildError> {
        match struct_fields(ast.data) {
            Err(e) => Err(e),
            Ok(fields) => match AggregateAttributes::gathered(ast.attrs) {
                Err(e) => Err(e),
                Ok(attrs) => Ok(
                    AggregateDeriveView {
                        name: ast.name,
                        attrs,
                        fields,
                        generics: ast.generics.map_values(|p: GenericParamView| bounded(p)),
                    },
                ),
            },
        }
    }

    /// The steps of the encoding: for each field, in order, its outward
    /// name under the rule.
    pub open spec fn steps(self) -> Seq<EncodeStepView> {
        Seq::new(
            self.fields.len(),
            |i: int|
                EncodeStepView {
                    field: self.fields[i],
                    key: apply(rule_of(self.attrs.rename_all), self.fields[i]),
                },
        )
    }
}

impl AggregateDerive {
    /// Resolves the declaration of a struct that is to be encoded. A
    /// declaration that is no struct with named fields is an error of
    /// shape, whatever its configuration holds.
    pub fn parse(ast: &Declaration) -> (res: Result<Self, BuildError>)
        ensures
            viewed(res) == AggregateDeriveView::of(ast@),
            !(ast@.data matches DataView::Struct(FieldsView::Named(_))) ==> (res matches Err(e)
                && e.reason.class() == ErrorKind::Shape),
    {
        let fields = match parse_struct_fields(ast) {
            Err(e) => {
                return Err(e);
            },
            Ok(fields) => fields,
        };
        let attrs = match AggregateAttributes::from_attributes(&ast.attrs) {
            Err(e) => {
                return Err(e);
            },
            Ok(attrs) => attrs,
        };
        let name = ast.name.clone();
        let generics = Self::add_trait_bound(copy_generics(&ast.generics));
        Ok(Self { name, attrs, fields, generics })
    }

    /// Adds to every type parameter the bound that its values convert into
    /// the generic value type. Lifetime and const parameters stay as they
    /// are.
    pub fn add_trait_bound(generics: Vec<GenericParam>) -> (res: Vec<GenericParam>)
        ensures
            res.deep_view() == generics.deep_view().map_values(|p: GenericParamView| bounded(p)),
    {
        let ghost before = generics.deep_view();
        let mut generics = generics;
        let mut out: Vec<GenericParam> = Vec::new();
        let mut i: usize = 0;
        while i < generics.len()
            invariant
                before == generics.deep_view(),
                i <= generics@.len(),
                out@.len() == i,
                forall|j: int| 0 <= j < i ==> (#[trigger] out@[j])@ == bounded(before[j]),
            decreases generics@.len() - i,
        {
            let param = match &generics[i] {
                GenericParam::Type { name, bounds } => {
                    let mut bounds = copy_texts(bounds);
                    let ghost old_bounds = bounds.deep_view();
                    bounds.push(
                        "std::convert::TryInto<astarte_device_sdk::types::AstarteType, Error = astarte_device_sdk::error::Error>".to_owned(),
                    );
                    assert(bounds.deep_view() =~= old_bounds.push(conversion_bound()));
                    GenericParam::Type { name: name.clone(), bounds }
                },
                GenericParam::Lifetime(name) => GenericParam::Lifetime(name.clone()),
                GenericParam::Const(name) => GenericParam::Const(name.clone()),
            };
            assert(param@ == bounded(before[i as int]));
            out.push(param);
            i += 1;
        }
        assert(out.deep_view() =~= before.map_values(|p: GenericParamView| bounded(p)));
        out
    }

    /// Generates the encoding: one step for each field, in the order of the
    /// declaration, that writes the field under its outward name.
    pub fn quote(&self) -> (res: Encoder)
        ensures
            res@.name == self@.name,
            res@.generics == self@.generics,
            res@.steps == self@.steps(),
    {
        let rename_rule = match self.attrs.rename_all {
            Some(rule) => rule,
            None => RenameRule::Unchanged,
        };
        let mut steps: Vec<EncodeStep> = Vec::new();
        let mut i: usize = 0;
        while i < self.fields.len()
            invariant
                i <= self.fields@.len(),
                rename_rule == rule_of(self.attrs.rename_all),
                steps@.len() == i,
                forall|j: int| 0 <= j < i ==> (#[trigger] steps@[j])@ == self@.steps()[j],
            decreases self.fields@.len() - i,
        {
            let field = self.fields[i].clone();
            let key = rename_rule.apply_to_field(self.fields[i].as_str());
            steps.push(EncodeStep { field, key });
            i += 1;
        }
        assert(steps.deep_view() =~= self@.steps());
        Encoder { name: self.name.clone(), generics: copy_generics(&self.generics), steps }
    }
}

/// A copy of the parameters in `generics`.
pub fn copy_generics(generics: &Vec<GenericParam>) -> (res: Vec<GenericParam>)
    ensures
        res.deep_view() == generics.deep_view(),
{
    let mut out: Vec<GenericParam> = Vec::new();
    let mut i: usize = 0;
    while i < generics.len()
        invariant
            i <= generics@.len(),
            out@.len() == i,
            forall|j: int| 0 <= j < i ==> (#[trigger] out@[j])@ == generics@[j]@,
        decreases generics@.len() - i,
    {
        let param = match &generics[i] {
            GenericParam::Type { name, bounds } => GenericParam::Type {
                name: name.clone(),
                bounds: copy_texts(bounds),
            },
            GenericParam::Lifetime(name) => GenericParam::Lifetime(name.clone()),
            GenericParam::Const(name) => GenericParam::Const(name.clone()),
        };
        out.push(param);
        i += 1;
    }
    assert(out.deep_view() =~= generics.deep_view());
    out
}

/// The error of an encoding: the conversion of the field `field` failed
/// with `error`.
#[derive(Clone, Debug, PartialEq, Eq)]
pub enum EncodeError<E> {
    Conversion { field: usize, error: E },
}

/// What the steps make of the outcomes of the conversions, the outcome
/// `i` being that of the field of step `i`: the mapping that holds each
/// converted value under the outward name of its field, a later step
/// replacing what an earlier one wrote under the same name; or the error
/// of the first conversion that failed.
pub open spec fn encoded<V, E>(steps: Seq<EncodeStepView>, outcomes: Seq<Result<V, E>>) -> Result<
    Map<Seq<char>, V>,
    EncodeError<E>,
>
    decreases steps.len(),
{
    if steps.len() == 0 {
        Ok(Map::empty())
    } else {
        match encoded(steps.drop_last(), outcomes.drop_last()) {
            Err(e) => Err(e),
            Ok(mapping) => match outcomes.last() {
                Ok(value) => Ok(mapping.insert(steps.last().key, value)),
                Err(error) => Err(
                    EncodeError::Conversion { field: (steps.len() - 1) as usize, error },
                ),
            },
        }
    }
}

/// What [`encoded`] comes to. The steps encode exactly when every
/// conversion succeeds; the mapping then holds the outward names of the
/// fields and nothing else, each with the converted value of the last
/// field of that name. Otherwise the error is that of the first
/// conversion that failed.
pub proof fn lemma_encoded_meaning<V, E>(steps: Seq<EncodeStepView>, outcomes: Seq<Result<V, E>>)
    requires
        steps.len() <= usize::MAX,
        outcomes.len() == steps.len(),
    ensures
        match encoded(steps, outcomes) {
            Ok(mapping) => {
                &&& forall|i: int| 0 <= i < steps.len() ==> (#[trigger] outcomes[i]) is Ok
                &&& forall|key: Seq<char>|
                    mapping.contains_key(key) <==> exists|i: int|
                        0 <= i < steps.len() && (#[trigger] steps[i]).key == key
                &&& forall|i: int|
                    0 <= i < steps.len() && (forall|j: int|
                        i < j < steps.len() ==> (#[trigger] steps[j]).key != steps[i].key)
                        ==> mapping[(#[trigger] steps[i]).key] == outcomes[i]->Ok_0
            },
            Err(EncodeError::Conversion { field, error }) => {
                &&& field < steps.len()
                &&& outcomes[field as int] == Err::<V, E>(error)
                &&& forall|i: int| 0 <= i < field ==> (#[trigger] outcomes[i]) is Ok
            },
        },
    decreases steps.len(),
{
    if steps.len() > 0 {
        let rest = steps.drop_last();
        let rest_outcomes = outcomes.drop_last();
        let last = steps.len() - 1;
        lemma_encoded_meaning(rest, rest_outcomes);
        assert forall|i: int| 0 <= i < rest.len() implies rest[i] == steps[i]
            && rest_outcomes[i] == outcomes[i] by {}
        match encoded(steps, outcomes) {
            Ok(mapping) => {
                let before = encoded(rest, rest_outcomes)->Ok_0;
                assert(mapping == before.insert(steps[last].key, outcomes[last]->Ok_0));
                assert forall|i: int| 0 <= i < steps.len() implies (#[trigger] outcomes[i]) is Ok by {
                    if i < last {
                        assert(rest_outcomes[i] is Ok);
                    }
                }
                assert forall|key: Seq<char>|
                    mapping.contains_key(key) <==> exists|i: int|
                        0 <= i < steps.len() && (#[trigger] steps[i]).key == key by {
                    if mapping.contains_key(key) {
                        if key == steps[last].key {
                            assert(steps[last].key == key);
                        } else {
                            assert(before.contains_key(key));
                            let i = choose|i: int|
                                0 <= i < rest.len() && (#[trigger] rest[i]).key == key;
                            assert(steps[i].key == key);
                        }
                    }
                    if exists|i: int| 0 <= i < steps.len() && (#[trigger] steps[i]).key == key {
                        let i = choose|i: int|
                            0 <= i < steps.len() && (#[trigger] steps[i]).key == key;
                        if i < last {
                            assert(rest[i].key == key);
                        }
                    }
                }
                assert forall|i: int|
                    0 <= i < steps.len() && (forall|j: int|
                        i < j < steps.len() ==> (#[trigger] steps[j]).key
                            != steps[i].key) implies mapping[(#[trigger] steps[i]).key]
                    == outcomes[i]->Ok_0 by {
                    if i < last {
                        assert(steps[last].key != steps[i].key);
                        assert forall|j: int| i < j < rest.len() implies (#[trigger] rest[j]).key
                            != rest[i].key by {
                            assert(steps[j].key != steps[i].key);
                        }
                        assert(before[rest[i].key] == rest_outcomes[i]->Ok_0);
                    }
                }
            },
            Err(EncodeError::Conversion { field, error }) => {
                assert forall|i: int| 0 <= i < field implies (#[trigger] outcomes[i]) is Ok by {
                    if i < rest.len() {
                        assert(rest_outcomes[i] == outcomes[i]);
                    }
                }
            },
        }
    }
}

/// `outcomes` are results that `convert` may give for the first fields,
/// each asked for by its index.
pub open spec fn conversions_seen<V, E, F: Fn(usize) -> Result<V, E>>(
    convert: F,
    outcomes: Seq<Result<V, E>>,
) -> bool {
    forall|i: int|
        0 <= i < outcomes.len() ==> call_ensures(convert, (i as usize,), #[trigger] outcomes[i])
}

impl Encoder {
    /// Encodes an instance. `convert` stands for the instance and for the
    /// conversion of its values: called with the index of a field, in the
    /// order of the declaration, it gives the value of that field in the
    /// generic value type, or the error of the conversion. Each converted
    /// value is written under the outward name of its field. The first
    /// conversion that fails ends the encoding with its error: no later
    /// field is converted and no mapping is returned.
    pub fn encode<V, E, F: Fn(usize) -> Result<V, E>>(&self, convert: F) -> (res: Result<
        Mapping<V>,
        EncodeError<E>,
    >)
        requires
            forall|i: usize| i < self.steps@.len() ==> call_requires(convert, (i,)),
        ensures
            exists|outcomes: Seq<Result<V, E>>|
                #[trigger] conversions_seen(convert, outcomes) && outcomes.len()
                    <= self@.steps.len() && match res {
                    Ok(mapping) => outcomes.len() == self@.steps.len() && encoded(
                        self@.steps,
                        outcomes,
                    ) == Ok::<Map<Seq<char>, V>, EncodeError<E>>(mapping@),
                    Err(e) => encoded(self@.steps.take(outcomes.len() as int), outcomes) == Err::<
                        Map<Seq<char>, V>,
                        EncodeError<E>,
                    >(e),
                },
    {
        let ghost steps = self@.steps;
        let mut result: Mapping<V> = Mapping::new();
        let ghost mut outcomes: Seq<Result<V, E>> = Seq::empty();
        let mut i: usize = 0;
        while i < self.steps.len()
            invariant
                steps == self@.steps,
                forall|i: usize| i < self.steps@.len() ==> call_requires(convert, (i,)),
                i <= self.steps@.len(),
                outcomes.len() == i,
                conversions_seen(convert, outcomes),
                encoded(steps.take(i as int), outcomes) == Ok::<Map<Seq<char>, V>, EncodeError<E>>(
                    result@,
                ),
            decreases self.steps@.len() - i,
        {
            let outcome = convert(i);
            proof {
                let before = outcomes;
                outcomes = outcomes.push(outcome);
                assert(outcomes.drop_last() == before);
                assert(steps.take(i + 1).drop_last() == steps.take(i as int));
                assert(steps.take(i + 1).last() == self.steps@[i as int]@);
                assert(conversions_seen(convert, outcomes)) by {
                    assert forall|j: int| 0 <= j < outcomes.len() implies call_ensures(
                        convert,
                        (j as usize,),
                        #[trigger] outcomes[j],
                    ) by {
                        if j < i {
                            assert(outcomes[j] == before[j]);
                        }
                    }
                }
            }
            match outcome {
                Err(error) => {
                    assert(encoded(steps.take(outcomes.len() as int), outcomes) == Err::<
                        Map<Seq<char>, V>,
                        EncodeError<E>,
                    >(EncodeError::Conversion { field: i, error }));
                    return Err(EncodeError::Conversion { field: i, error });
                },
                Ok(value) => {
                    result.insert(self.steps[i].key.clone(), value);
                },
            }
            i += 1;
        }
        assert(steps.take(self.steps@.len() as int) == steps);
        Ok(result)
    }
}

} // verus!
