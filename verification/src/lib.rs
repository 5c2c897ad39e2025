//! Coordinate-only sky-object matching and captured-footprint evidence.
//!
//! The floating-point geometry (angles, projections, polygon areas) is done by
//! the callers' code; this crate holds the decisions that sit on top of it and
//! proves them:
//!
//! - [`error`]: the typed errors and their messages;
//! - [`footprint`]: provenance identities, containment evidence, point
//!   coverage, and the order in which a captured union takes its panels;
//! - [`ranking`]: filtering, ordering and cutting of evaluated catalogue
//!   objects for each query mode;
//! - [`dec_index`]: the declination-sorted index and its band queries;
//! - [`rotation`]: the runs of in-band samples that become coverage intervals;
//! - [`ring`]: the edge pairs a simple-polygon check must test;
//! - [`sexagesimal`]: how a coordinate text is recognised and split into
//!   fields;
//! - [`text`]: white space, trimming and the lexicographic order of texts.

pub mod dec_index;
pub mod error;
pub mod footprint;
pub mod ranking;
pub mod ring;
pub mod rotation;
pub mod sexagesimal;
pub mod text;
