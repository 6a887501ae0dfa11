//! Schema-driven generation of the conversions between a user type and the
//! name-to-value mapping that a device exchanges with the cloud.
//!
//! A [`schema::Declaration`] describes a struct or an enum together with
//! the configuration attached to it. From it,
//! [`derive::astarte_aggregate_derive`] resolves the encoding of a struct
//! into a [`mapping::Mapping`], and [`derive::from_event_derive`] the
//! decoding of a struct or an enum from an inbound event.
//!
//! - [`tokens`] reads the text of a configuration block into pairs;
//! - [`attrs`] turns pairs into options and reads single options;
//! - [`case`] holds the naming conventions;
//! - [`aggregate`] resolves and runs the encode direction;
//! - [`event`] resolves and runs the decode direction;
//! - [`error`] holds the errors of the resolution.

pub mod aggregate;
pub mod attrs;
pub mod case;
pub mod derive;
pub mod error;
pub mod event;
pub mod mapping;
pub mod schema;
pub mod text;
pub mod tokens;
