//! Configuration blocks: their pairs, the options that each resolver knows,
//! and how blocks on one declaration are merged.

use crate::case::{rule_named, RenameRule};
use crate::error::{viewed, BuildError, Reason};
use crate::schema::{Attribute, AttributeView, Meta, MetaView};
use crate::text::same_text;
use crate::tokens::{tokenize, tokenized, AttrValue, AttrValueView, RawEntry, RawEntryView};
use vstd::prelude::*;

verus! {

/// One option of a block: its name and its value.
#[derive(Clone, Debug, PartialEq, Eq)]
pub struct NameValue {
    pub name: String,
    pub value: AttrValue,
}

/// The mathematical value of a [`NameValue`].
pub struct NameValueView {
    pub name: Seq<char>,
    pub value: AttrValueView,
}

impl View for NameValue {
    type V = NameValueView;

    open spec fn view(&self) -> NameValueView {
        NameValueView { name: self.name@, value: self.value@ }
    }
}

impl DeepView for NameValue {
    type V = NameValueView;

    open spec fn deep_view(&self) -> NameValueView {
        self@
    }
}

/// The options of one block in source order. Where a name occurs more than
/// once, the last occurrence is the one that counts.
#[derive(Clone, Debug, PartialEq, Eq)]
pub struct NameValues {
    pub entries: Vec<NameValue>,
}

impl View for NameValues {
    type V = Seq<NameValueView>;

    open spec fn view(&self) -> Seq<NameValueView> {
        self.entries.deep_view()
    }
}

/// The index of the first pair whose left-hand side is no bare identifier.
pub open spec fn first_without_ident(entries: Seq<RawEntryView>) -> Option<int>
    decreases entries.len(),
{
    if entries.len() == 0 {
        None
    } else {
        match first_without_ident(entries.drop_last()) {
            Some(i) => Some(i),
            None => if entries.last().ident is None {
                Some(entries.len() - 1)
            } else {
                None
            },
        }
    }
}

/// The options that the pairs of a block make: each pair with its
/// identifier as the name, or an error at the first pair that has none.
pub open spec fn collected(entries: Seq<RawEntryView>) -> Result<Seq<NameValueView>, BuildError> {
    match first_without_ident(entries) {
        Some(i) => Err(BuildError::of(Reason::KeyNotIdent).in_entry(i as usize)),
        None => Ok(
            Seq::new(
                entries.len(),
                |i: int| NameValueView { name: entries[i].ident->0, value: entries[i].value },
            ),
        ),
    }
}

/// The options that the text of a block makes: a syntax error where the
/// text is no list of pairs, else what its pairs make.
pub open spec fn parsed(tokens: Seq<char>) -> Result<Seq<NameValueView>, BuildError> {
    match tokenized(tokens) {
        None => Err(BuildError::of(Reason::Tokens)),
        Some(entries) => collected(entries),
    }
}

/// The index of the last option called `name`.
pub open spec fn position(vars: Seq<NameValueView>, name: Seq<char>) -> Option<int>
    decreases vars.len(),
{
    if vars.len() == 0 {
        None
    } else if vars.last().name == name {
        Some(vars.len() - 1)
    } else {
        position(vars.drop_last(), name)
    }
}

/// The text of the string literal `value`, or a syntax error.
pub open spec fn str_lit(value: AttrValueView) -> Result<Seq<char>, BuildError> {
    match value {
        AttrValueView::Str(text) => Ok(text),
        _ => Err(BuildError::of(Reason::NotStrLit)),
    }
}

/// The value of the boolean literal `value`, or a syntax error.
pub open spec fn bool_lit(value: AttrValueView) -> Result<bool, BuildError> {
    match value {
        AttrValueView::Bool(flag) => Ok(flag),
        _ => Err(BuildError::of(Reason::NotBoolLit)),
    }
}

/// The string that the option `name` is set to, `None` where it is not
/// set, or a syntax error at the option where its value is no string
/// literal.
pub open spec fn str_option(vars: Seq<NameValueView>, name: Seq<char>) -> Result<
    Option<Seq<char>>,
    BuildError,
> {
    match position(vars, name) {
        None => Ok(None),
        Some(i) => match str_lit(vars[i].value) {
            Ok(text) => Ok(Some(text)),
            Err(e) => Err(e.in_entry(i as usize)),
        },
    }
}

/// As [`str_option`], for an option that takes `true` or `false`.
pub open spec fn bool_option(vars: Seq<NameValueView>, name: Seq<char>) -> Result<
    Option<bool>,
    BuildError,
> {
    match position(vars, name) {
        None => Ok(None),
        Some(i) => match bool_lit(vars[i].value) {
            Ok(flag) => Ok(Some(flag)),
            Err(e) => Err(e.in_entry(i as usize)),
        },
    }
}

/// The rule that `rename_all` is set to, `None` where it is not set, or an
/// error at the option: of syntax where its value is no string literal, of
/// an invalid rule where the string names none.
pub open spec fn rename_option(vars: Seq<NameValueView>) -> Result<Option<RenameRule>, BuildError> {
    match str_option(vars, "rename_all"@) {
        Err(e) => Err(e),
        Ok(None) => Ok(None),
        Ok(Some(text)) => match rule_named(text) {
            Some(rule) => Ok(Some(rule)),
            None => Err(
                BuildError::of(Reason::InvalidRenameRule).in_entry(
                    position(vars, "rename_all"@)->0 as usize,
                ),
            ),
        },
    }
}

/// The resolvers, each with the options it knows.
#[derive(Clone, Copy, Debug, PartialEq, Eq, Structural)]
pub enum AttrKind {
    /// `astarte_aggregate` on a declaration: `rename_all`.
    Aggregate,
    /// `from_event` on a declaration: `interface`, `path`, `aggregation`,
    /// `rename_all`.
    FromEvent,
    /// `mapping` on a field of a struct: `allow_unset`.
    Field,
    /// `mapping` on a variant of an enum: `endpoint`, `allow_unset`.
    Variant,
}

impl AttrKind {
    /// Whether the resolver knows an option called `name`.
    pub open spec fn knows(self, name: Seq<char>) -> bool {
        match self {
            AttrKind::Aggregate => name == "rename_all"@,
            AttrKind::FromEvent => name == "interface"@ || name == "path"@ || name
                == "aggregation"@ || name == "rename_all"@,
            AttrKind::Field => name == "allow_unset"@,
            AttrKind::Variant => name == "endpoint"@ || name == "allow_unset"@,
        }
    }

    /// The index of the first option that the resolver does not know.
    pub open spec fn first_unknown(self, vars: Seq<NameValueView>) -> Option<int>
        decreases vars.len(),
    {
        if vars.len() == 0 {
            None
        } else {
            match self.first_unknown(vars.drop_last()) {
                Some(i) => Some(i),
                None => if self.knows(vars.last().name) {
                    None
                } else {
                    Some(vars.len() - 1)
                },
            }
        }
    }

    /// Nothing where the resolver knows every option, else an error at the
    /// first that it does not know.
    pub open spec fn all_known(self, vars: Seq<NameValueView>) -> Result<(), BuildError> {
        match self.first_unknown(vars) {
            Some(i) => Err(BuildError::of(Reason::UnknownOption).in_entry(i as usize)),
            None => Ok(()),
        }
    }

    /// Whether the resolver knows an option called `name`.
    pub fn recognizes(self, name: &str) -> (res: bool)
        ensures
            res == self.knows(name@),
    {
        match self {
            AttrKind::Aggregate => same_text(name, "rename_all"),
            AttrKind::FromEvent => same_text(name, "interface") || same_text(name, "path")
                || same_text(name, "aggregation") || same_text(name, "rename_all"),
            AttrKind::Field => same_text(name, "allow_unset"),
            AttrKind::Variant => same_text(name, "endpoint") || same_text(name, "allow_unset"),
        }
    }

    /// Checks that the resolver knows every option of `vars`.
    pub fn check_known(self, vars: &NameValues) -> (res: Result<(), BuildError>)
        ensures
            res == self.all_known(vars@),
    {
        let n = vars.entries.len();
        let mut i: usize = 0;
        while i < n
            invariant
                n == vars@.len(),
                n == vars.entries@.len(),
                i <= n,
                self.first_unknown(vars@.take(i as int)) is None,
            decreases n - i,
        {
            proof {
                let next = vars@.take(i + 1);
                assert(next.drop_last() == vars@.take(i as int));
                assert(next.last() == vars.entries@[i as int]@);
            }
            if !self.recognizes(vars.entries[i].name.as_str()) {
                proof {
                    lemma_first_unknown_stays(self, vars@, i + 1);
                }
                return Err(BuildError::new(Reason::UnknownOption).at_entry(i));
            }
            i += 1;
        }
        assert(vars@.take(n as int) == vars@);
        Ok(())
    }
}

/// [`position`] is the last option of that name, and `None` only where
/// no option has that name.
pub proof fn lemma_position_is_last(vars: Seq<NameValueView>, name: Seq<char>)
    ensures
        match position(vars, name) {
            Some(i) => {
                &&& 0 <= i < vars.len()
                &&& vars[i].name == name
                &&& forall|j: int| i < j < vars.len() ==> (#[trigger] vars[j]).name != name
            },
            None => forall|j: int| 0 <= j < vars.len() ==> (#[trigger] vars[j]).name != name,
        },
    decreases vars.len(),
{
    if vars.len() > 0 && vars.last().name != name {
        let rest = vars.drop_last();
        lemma_position_is_last(rest, name);
        assert forall|j: int| 0 <= j < rest.len() implies rest[j] == vars[j] by {}
    }
}

/// [`AttrKind::first_unknown`] is the first option that the resolver does
/// not know, and `None` only where it knows them all.
pub proof fn lemma_first_unknown_is_first(kind: AttrKind, vars: Seq<NameValueView>)
    ensures
        match kind.first_unknown(vars) {
            Some(i) => {
                &&& 0 <= i < vars.len()
                &&& !kind.knows(vars[i].name)
                &&& forall|j: int| 0 <= j < i ==> kind.knows((#[trigger] vars[j]).name)
            },
            None => forall|j: int| 0 <= j < vars.len() ==> kind.knows((#[trigger] vars[j]).name),
        },
    decreases vars.len(),
{
    if vars.len() > 0 {
        let rest = vars.drop_last();
        lemma_first_unknown_is_first(kind, rest);
        assert forall|j: int| 0 <= j < rest.len() implies rest[j] == vars[j] by {}
    }
}

/// [`first_without_ident`] is the first pair whose left-hand side is no
/// bare identifier, and `None` only where every pair has one.
pub proof fn lemma_first_without_ident_is_first(entries: Seq<RawEntryView>)
    ensures
        match first_without_ident(entries) {
            Some(i) => {
                &&& 0 <= i < entries.len()
                &&& entries[i].ident is None
                &&& forall|j: int| 0 <= j < i ==> (#[trigger] entries[j]).ident is Some
            },
            None => forall|j: int| 0 <= j < entries.len() ==> (#[trigger] entries[j]).ident is Some,
        },
    decreases entries.len(),
{
    if entries.len() > 0 {
        let rest = entries.drop_last();
        lemma_first_without_ident_is_first(rest);
        assert forall|j: int| 0 <= j < rest.len() implies rest[j] == entries[j] by {}
    }
}

/// An unknown option that is the first of a prefix is the first of the
/// whole list.
proof fn lemma_first_unknown_stays(kind: AttrKind, vars: Seq<NameValueView>, k: int)
    requires
        0 <= k <= vars.len(),
        kind.first_unknown(vars.take(k)) is Some,
    ensures
        kind.first_unknown(vars) == kind.first_unknown(vars.take(k)),
    decreases vars.len() - k,
{
    if k < vars.len() {
        assert(vars.take(k + 1).drop_last() == vars.take(k));
        lemma_first_unknown_stays(kind, vars, k + 1);
    } else {
        assert(vars.take(k) == vars);
    }
}

/// A pair without identifier that is the first of a prefix is the first of
/// the whole list.
proof fn lemma_first_without_ident_stays(entries: Seq<RawEntryView>, k: int)
    requires
        0 <= k <= entries.len(),
        first_without_ident(entries.take(k)) is Some,
    ensures
        first_without_ident(entries) == first_without_ident(entries.take(k)),
    decreases entries.len() - k,
{
    if k < entries.len() {
        assert(entries.take(k + 1).drop_last() == entries.take(k));
        lemma_first_without_ident_stays(entries, k + 1);
    } else {
        assert(entries.take(k) == entries);
    }
}

/// Turns the pairs of a block into options. The first pair whose left-hand
/// side is no bare identifier is a syntax error, placed at that pair.
pub fn collect_name_values(entries: &Vec<RawEntry>) -> (res: Result<NameValues, BuildError>)
    ensures
        viewed(res) == collected(entries.deep_view()),
{
    let ghost all = entries.deep_view();
    let n = entries.len();
    let mut out: Vec<NameValue> = Vec::new();
    let mut i: usize = 0;
    while i < n
        invariant
            all == entries.deep_view(),
            n == entries@.len(),
            i <= n,
            first_without_ident(all.take(i as int)) is None,
            out@.len() == i,
            forall|j: int|
                0 <= j < i ==> (#[trigger] out@[j])@ == (NameValueView {
                    name: all[j].ident->0,
                    value: all[j].value,
                }),
        decreases n - i,
    {
        proof {
            let next = all.take(i + 1);
            assert(next.drop_last() == all.take(i as int));
            assert(next.last() == entries@[i as int]@);
        }
        match &entries[i].ident {
            None => {
                proof {
                    lemma_first_without_ident_stays(all, i + 1);
                }
                return Err(BuildError::new(Reason::KeyNotIdent).at_entry(i));
            },
            Some(name) => {
                out.push(NameValue { name: name.clone(), value: entries[i].value.duplicate() });
            },
        }
        i += 1;
    }
    assert(all.take(n as int) == all);
    let vars = NameValues { entries: out };
    assert(vars@ =~= collected(all)->Ok_0);
    Ok(vars)
}

/// Reads the text of a block as a comma-separated list of
/// `identifier = value` pairs. A text that is no such list is a syntax
/// error, and so is a left-hand side that is no bare identifier.
pub fn parse_name_value_attrs(tokens: &str) -> (res: Result<NameValues, BuildError>)
    ensures
        viewed(res) == parsed(tokens@),
{
    match tokenize(tokens) {
        Err(_) => Err(BuildError::new(Reason::Tokens)),
        Ok(entries) => collect_name_values(&entries),
    }
}

/// The text that a string literal denotes; any other value is a syntax
/// error.
pub fn parse_str_lit(value: &AttrValue) -> (res: Result<String, BuildError>)
    ensures
        viewed(res) == str_lit(value@),
{
    match value {
        AttrValue::Str(text) => Ok(text.clone()),
        _ => Err(BuildError::new(Reason::NotStrLit)),
    }
}

/// The value of a boolean literal; any other value is a syntax error.
pub fn parse_bool_lit(value: &AttrValue) -> (res: Result<bool, BuildError>)
    ensures
        res == bool_lit(value@),
{
    match value {
        AttrValue::Bool(flag) => Ok(*flag),
        _ => Err(BuildError::new(Reason::NotBoolLit)),
    }
}

impl NameValues {
    /// The index of the last option called `name`.
    pub fn find(&self, name: &str) -> (res: Option<usize>)
        ensures
            match res {
                Some(i) => position(self@, name@) == Some(i as int),
                None => position(self@, name@) is None,
            },
            res matches Some(i) ==> i < self.entries@.len(),
    {
        let mut i: usize = self.entries.len();
        assert(self@.take(i as int) == self@);
        while i > 0
            invariant
                i <= self.entries@.len(),
                self@.len() == self.entries@.len(),
                position(self@, name@) == position(self@.take(i as int), name@),
            decreases i,
        {
            proof {
                let head = self@.take(i as int);
                assert(head.drop_last() == self@.take(i - 1));
                assert(head.last() == self.entries@[i - 1]@);
            }
            if same_text(self.entries[i - 1].name.as_str(), name) {
                return Some(i - 1);
            }
            i -= 1;
        }
        proof {
            assert(self@.take(0).len() == 0);
        }
        None
    }

    /// The string that the option `name` is set to.
    pub fn get_str(&self, name: &str) -> (res: Result<Option<String>, BuildError>)
        ensures
            match res {
                Ok(Some(text)) => str_option(self@, name@) == Ok::<Option<Seq<char>>, BuildError>(
                    Some(text@),
                ),
                Ok(None) => str_option(self@, name@) == Ok::<Option<Seq<char>>, BuildError>(None),
                Err(e) => str_option(self@, name@) == Err::<Option<Seq<char>>, BuildError>(e),
            },
    {
        match self.find(name) {
            None => Ok(None),
            Some(i) => match parse_str_lit(&self.entries[i].value) {
                Ok(text) => Ok(Some(text)),
                Err(e) => Err(e.at_entry(i)),
            },
        }
    }

    /// The boolean that the option `name` is set to.
    pub fn get_bool(&self, name: &str) -> (res: Result<Option<bool>, BuildError>)
        ensures
            res == bool_option(self@, name@),
    {
        match self.find(name) {
            None => Ok(None),
            Some(i) => match parse_bool_lit(&self.entries[i].value) {
                Ok(flag) => Ok(Some(flag)),
                Err(e) => Err(e.at_entry(i)),
            },
        }
    }

    /// The rule that `rename_all` is set to.
    pub fn get_rename(&self) -> (res: Result<Option<RenameRule>, BuildError>)
        ensures
            res == rename_option(self@),
    {
        match self.find("rename_all") {
            None => Ok(None),
            Some(i) => match parse_str_lit(&self.entries[i].value) {
                Err(e) => Err(e.at_entry(i)),
                Ok(text) => match RenameRule::from_str(text.as_str()) {
                    Ok(rule) => Ok(Some(rule)),
                    Err(_) => Err(BuildError::new(Reason::InvalidRenameRule).at_entry(i)),
                },
            },
        }
    }
}

/// The options of the attribute `attr` where it is called `name`: `None`
/// for an attribute of another name and for one without brackets, an error
/// for one written `#[name = value]`, else what the text in its brackets
/// makes.
pub open spec fn attribute_list(attr: AttributeView, name: Seq<char>) -> Option<
    Result<Seq<NameValueView>, BuildError>,
> {
    if attr.ident != Some(name) {
        None
    } else {
        match attr.meta {
            MetaView::Path => None,
            MetaView::NameValue => Some(Err(BuildError::of(Reason::NamedValue))),
            MetaView::List(tokens) => Some(parsed(tokens)),
        }
    }
}

/// Reads the attribute `#[name(..)]`. Attributes of other names are
/// skipped, and so is `#[name]` without brackets; `#[name = value]` is a
/// syntax error.
pub fn parse_attribute_list(attr: &Attribute, name: &str) -> (res: Option<
    Result<NameValues, BuildError>,
>)
    ensures
        match res {
            None => attribute_list(attr@, name@) is None,
            Some(Ok(vars)) => attribute_list(attr@, name@) == Some(
                Ok::<Seq<NameValueView>, BuildError>(vars@),
            ),
            Some(Err(e)) => attribute_list(attr@, name@) == Some(
                Err::<Seq<NameValueView>, BuildError>(e),
            ),
        },
{
    let is_attr = match &attr.ident {
        Some(ident) => same_text(ident.as_str(), name),
        None => false,
    };
    if !is_attr {
        return None;
    }
    match &attr.meta {
        Meta::Path => None,
        Meta::NameValue => Some(Err(BuildError::new(Reason::NamedValue))),
        Meta::List(tokens) => Some(parse_name_value_attrs(tokens.as_str())),
    }
}

} // verus!
