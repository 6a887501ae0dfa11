//! What can go wrong while a declaration is resolved, and where.

use vstd::prelude::*;

verus! {

/// The place in a declaration that an error speaks of. Each part counts from
/// zero in source order; a part that is `None` leaves the place at the next
/// larger element: no entry means the whole attribute, no attribute the whole
/// member, no member the declaration itself.
#[derive(Clone, Copy, Debug, PartialEq, Eq, Structural)]
pub struct Origin {
    /// The field or variant.
    pub member: Option<usize>,
    /// The attribute, counted among all attributes of the member or of the
    /// declaration.
    pub attribute: Option<usize>,
    /// The `name = value` pair inside the attribute.
    pub entry: Option<usize>,
}

/// The classes of errors that stop the generation for a declaration.
#[derive(Clone, Copy, Debug, PartialEq, Eq, Structural)]
pub enum ErrorKind {
    /// A configuration block is malformed.
    Syntax,
    /// The shape of the declaration is not supported.
    Shape,
    /// A configuration key is not one that the resolver knows.
    UnknownOption,
    /// The value of `rename_all` names no rule.
    InvalidRenameRule,
}

/// What exactly was wrong.
#[derive(Clone, Copy, Debug, PartialEq, Eq, Structural)]
pub enum Reason {
    /// The block is no comma-separated list of `name = value` pairs.
    Tokens,
    /// The left-hand side of a pair is no bare identifier.
    KeyNotIdent,
    /// The value must be a string literal and is not.
    NotStrLit,
    /// The value must be a boolean literal and is not.
    NotBoolLit,
    /// The attribute is written `#[name = value]`.
    NamedValue,
    /// The value of `aggregation` is neither `individual` nor `object`.
    InvalidAggregation,
    /// The key is not known to the resolver.
    UnknownOption,
    /// The value of `rename_all` names no rule.
    InvalidRenameRule,
    /// The declaration is no struct with named fields.
    NotNamedStruct,
    /// A field has no identifier.
    FieldNotIdent,
    /// The declaration is a struct and asks for individual aggregation, or an
    /// enum and does not.
    AggregationMismatch,
    /// The declaration is neither a struct nor an enum.
    NotStructOrEnum,
    /// A variant carries more than one value, or named ones.
    VariantPayload,
    /// A variant is bound to no endpoint.
    MissingEndpoint,
}

/// An error of the resolution of a declaration.
#[derive(Clone, Copy, Debug, PartialEq, Eq, Structural)]
pub struct BuildError {
    pub reason: Reason,
    pub origin: Origin,
}

impl Origin {
    /// The declaration as a whole.
    pub open spec fn whole() -> Origin {
        Origin { member: None, attribute: None, entry: None }
    }
}

impl Reason {
    /// The class that the reason falls under.
    pub open spec fn class(self) -> ErrorKind {
        match self {
            Reason::Tokens
            | Reason::KeyNotIdent
            | Reason::NotStrLit
            | Reason::NotBoolLit
            | Reason::NamedValue
            | Reason::InvalidAggregation => ErrorKind::Syntax,
            Reason::UnknownOption => ErrorKind::UnknownOption,
            Reason::InvalidRenameRule => ErrorKind::InvalidRenameRule,
            Reason::NotNamedStruct
            | Reason::FieldNotIdent
            | Reason::AggregationMismatch
            | Reason::NotStructOrEnum
            | Reason::VariantPayload
            | Reason::MissingEndpoint => ErrorKind::Shape,
        }
    }
}

impl BuildError {
    /// An error about `reason` that is not placed yet.
    pub open spec fn of(reason: Reason) -> BuildError {
        BuildError { reason, origin: Origin::whole() }
    }

    /// `self`, placed at the pair `index` of its attribute.
    pub open spec fn in_entry(self, index: usize) -> BuildError {
        BuildError {
            reason: self.reason,
            origin: Origin {
                member: self.origin.member,
                attribute: self.origin.attribute,
                entry: Some(index),
            },
        }
    }

    /// `self`, placed in the attribute `index`.
    pub open spec fn in_attribute(self, index: usize) -> BuildError {
        BuildError {
            reason: self.reason,
            origin: Origin {
                member: self.origin.member,
                attribute: Some(index),
                entry: self.origin.entry,
            },
        }
    }

    /// `self`, placed in the member `index`.
    pub open spec fn in_member(self, index: usize) -> BuildError {
        BuildError {
            reason: self.reason,
            origin: Origin {
                member: Some(index),
                attribute: self.origin.attribute,
                entry: self.origin.entry,
            },
        }
    }

    /// A new error about `reason`, not placed yet.
    pub fn new(reason: Reason) -> (res: BuildError)
        ensures
            res == BuildError::of(reason),
    {
        BuildError { reason, origin: Origin { member: None, attribute: None, entry: None } }
    }

    /// Places the error at the pair `index` of its attribute.
    pub fn at_entry(self, index: usize) -> (res: BuildError)
        ensures
            res == self.in_entry(index),
    {
        BuildError {
            reason: self.reason,
            origin: Origin {
                member: self.origin.member,
                attribute: self.origin.attribute,
                entry: Some(index),
            },
        }
    }

    /// Places the error in the attribute `index`.
    pub fn at_attribute(self, index: usize) -> (res: BuildError)
        ensures
            res == self.in_attribute(index),
    {
        BuildError {
            reason: self.reason,
            origin: Origin {
                member: self.origin.member,
                attribute: Some(index),
                entry: self.origin.entry,
            },
        }
    }

    /// Places the error in the member `index`.
    pub fn at_member(self, index: usize) -> (res: BuildError)
        ensures
            res == self.in_member(index),
    {
        BuildError {
            reason: self.reason,
            origin: Origin {
                member: Some(index),
                attribute: self.origin.attribute,
                entry: self.origin.entry,
            },
        }
    }

    /// The class of the error.
    pub fn kind(&self) -> (res: ErrorKind)
        ensures
            res == self.reason.class(),
    {
        match self.reason {
            Reason::Tokens
            | Reason::KeyNotIdent
            | Reason::NotStrLit
            | Reason::NotBoolLit
            | Reason::NamedValue
            | Reason::InvalidAggregation => ErrorKind::Syntax,
            Reason::UnknownOption => ErrorKind::UnknownOption,
            Reason::InvalidRenameRule => ErrorKind::InvalidRenameRule,
            Reason::NotNamedStruct
            | Reason::FieldNotIdent
            | Reason::AggregationMismatch
            | Reason::NotStructOrEnum
            | Reason::VariantPayload
            | Reason::MissingEndpoint => ErrorKind::Shape,
        }
    }

    /// The text of the error, as the compiler shows it.
    pub fn message(&self) -> (res: String)
        ensures
            res@ == self.reason.text(),
    {
        let text = match self.reason {
            Reason::Tokens => "expected a list of `name = value` pairs",
            Reason::KeyNotIdent => "expected an identifier like `rename_all`",
            Reason::NotStrLit => "expression must be a string literal",
            Reason::NotBoolLit => "expression must be a bool literal",
            Reason::NamedValue => "cannot be used as a named value",
            Reason::InvalidAggregation => "expected `individual` or `object`",
            Reason::UnknownOption => "unknown option",
            Reason::InvalidRenameRule => "invalid rename rule",
            Reason::NotNamedStruct => "a named struct is required",
            Reason::FieldNotIdent => "field is not an ident",
            Reason::AggregationMismatch => "the aggregation does not fit the declaration",
            Reason::NotStructOrEnum => "a struct or an enum is required",
            Reason::VariantPayload => "a variant holds at most one unnamed value",
            Reason::MissingEndpoint => "the variant has no endpoint",
        };
        text.to_owned()
    }
}

impl Reason {
    /// The text that describes the reason.
    pub open spec fn text(self) -> Seq<char> {
        match self {
            Reason::Tokens => "expected a list of `name = value` pairs"@,
            Reason::KeyNotIdent => "expected an identifier like `rename_all`"@,
            Reason::NotStrLit => "expression must be a string literal"@,
            Reason::NotBoolLit => "expression must be a bool literal"@,
            Reason::NamedValue => "cannot be used as a named value"@,
            Reason::InvalidAggregation => "expected `individual` or `object`"@,
            Reason::UnknownOption => "unknown option"@,
            Reason::InvalidRenameRule => "invalid rename rule"@,
            Reason::NotNamedStruct => "a named struct is required"@,
            Reason::FieldNotIdent => "field is not an ident"@,
            Reason::AggregationMismatch => "the aggregation does not fit the declaration"@,
            Reason::NotStructOrEnum => "a struct or an enum is required"@,
            Reason::VariantPayload => "a variant holds at most one unnamed value"@,
            Reason::MissingEndpoint => "the variant has no endpoint"@,
        }
    }
}

/// The mathematical value of a result: that of what it holds when it is
/// `Ok`, the error as it is otherwise.
pub open spec fn viewed<T: View, E>(res: Result<T, E>) -> Result<T::V, E> {
    match res {
        Ok(value) => Ok(value@),
        Err(e) => Err(e),
    }
}

/// As [`viewed`], for a result that holds a vector.
pub open spec fn viewed_each<T: DeepView, E>(res: Result<Vec<T>, E>) -> Result<Seq<T::V>, E> {
    match res {
        Ok(values) => Ok(values.deep_view()),
        Err(e) => Err(e),
    }
}

} // verus!
