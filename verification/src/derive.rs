//! The two derivations, from a declaration to its generated conversion.

use crate::aggregate::{AggregateDerive, AggregateDeriveView, Encoder, EncoderView};
use crate::error::{viewed, BuildError};
use crate::event::{FromEventDerive, FromEventDeriveView};
use crate::schema::{Declaration, DeclarationView};
use vstd::prelude::*;

verus! {

/// The encoding that a declaration derives, or the error of its
/// resolution.
pub open spec fn aggregate_derived(input: DeclarationView) -> Result<EncoderView, BuildError> {
    match AggregateDeriveView::of(input) {
        Err(e) => Err(e),
        Ok(derive) => Ok(
            EncoderView { name: derive.name, generics: derive.generics, steps: derive.steps() },
        ),
    }
}

/// Derives the encoding of a struct with named fields: resolves the
/// declaration and generates one step for each field.
pub fn astarte_aggregate_derive(input: &Declaration) -> (res: Result<Encoder, BuildError>)
    ensures
        viewed(res) == aggregate_derived(input@),
{
    match AggregateDerive::parse(input) {
        Err(e) => Err(e),
        Ok(aggregate) => Ok(aggregate.quote()),
    }
}

/// Derives the decoding of a struct with named fields from the object of
/// an event, or of an enum from the value of one endpoint.
pub fn from_event_derive(input: &Declaration) -> (res: Result<FromEventDerive, BuildError>)
    ensures
        viewed(res) == FromEventDeriveView::of(input@),
{
    FromEventDerive::parse(input)
}

} // verus!
