//! Typed errors for every fallible entry point.

use vstd::prelude::*;

verus! {

/// Everything that can go wrong constructing footprint or field values.
#[derive(Debug, Clone, PartialEq)]
pub enum Error {
    /// Optics or field inputs were non-positive, non-finite, or insufficient to
    /// derive a field of view.
    InvalidOptics(String),
    /// An ordered captured boundary is degenerate, self-intersecting, or does
    /// not contain its declared centre.
    InvalidFootprint {
        /// Caller-supplied evidence identity.
        provenance: String,
        /// Validation failure.
        reason: String,
    },
    /// Compared geometry uses different coordinate epochs.
    FootprintEpochMismatch,
    /// A common tangent anchor cannot be selected for antipodal geometry.
    AntipodalGeometry,
    /// A point is at or beyond the selected gnomonic projection horizon.
    ProjectionFailed(String),
    /// A footprint union requires at least one input.
    EmptyFootprintSet,
    /// Per-panel evidence requires unique provenance identities.
    DuplicateFootprintProvenance(String),
    /// A normalized coverage band is non-finite, reversed, or outside `[0, 1]`.
    InvalidCoverageBand(String),
    /// A residual-rotation search domain or resolution is invalid.
    InvalidRotationSearch(String),
    /// An ellipse has invalid axes, orientation, or sampling resolution.
    InvalidEllipse(String),
    /// Caller-supplied object geometry cannot produce a positive planar area.
    InvalidObjectGeometry(String),
}

/// The text that `{:?}` prints for a string slice: the characters between
/// double quotes, with quotes, backslashes and non-printable characters
/// escaped.
pub uninterp spec fn debug_quoted(text: Seq<char>) -> Seq<char>;

/// Calls std's `Debug` formatting of `str` (through `format!("{:?}")`).
/// Trusted: the result is a function of the text alone, named `debug_quoted`;
/// nothing else is claimed about the escaping rules.
#[verifier::external_body]
fn debug_quote(text: &str) -> (quoted: String)
    ensures
        quoted@ == debug_quoted(text@),
{
    format!("{:?}", text)
}

/// The human-readable message of an error.
pub open spec fn error_message(error: Error) -> Seq<char> {
    match error {
        Error::InvalidOptics(detail) => "invalid optics: "@ + detail@,
        Error::InvalidFootprint { provenance, reason } => "invalid footprint "@ + debug_quoted(
            provenance@,
        ) + ": "@ + reason@,
        Error::FootprintEpochMismatch => "footprint coordinates must use one epoch"@,
        Error::AntipodalGeometry => "antipodal geometry has no unique common tangent plane"@,
        Error::ProjectionFailed(detail) => "gnomonic projection failed for "@ + detail@,
        Error::EmptyFootprintSet => "footprint union requires at least one footprint"@,
        Error::DuplicateFootprintProvenance(detail) => "duplicate footprint provenance: "@
            + detail@,
        Error::InvalidCoverageBand(detail) => "invalid coverage band: "@ + detail@,
        Error::InvalidRotationSearch(detail) => "invalid rotation search: "@ + detail@,
        Error::InvalidEllipse(detail) => "invalid ellipse: "@ + detail@,
        Error::InvalidObjectGeometry(detail) => "invalid object geometry: "@ + detail@,
    }
}

/// `prefix` followed by `detail`, as a new string.
fn joined(prefix: &str, detail: &str) -> (text: String)
    ensures
        text@ == prefix@ + detail@,
{
    let mut text = String::from_str(prefix);
    text.append(detail);
    text
}

impl Error {
    /// The error's message, as the `Display` form of the error reads.
    pub fn to_string(&self) -> (text: String)
        ensures
            text@ == error_message(*self),
    {
        match self {
            Error::InvalidOptics(detail) => joined("invalid optics: ", detail.as_str()),
            Error::InvalidFootprint { provenance, reason } => {
                let quoted = debug_quote(provenance.as_str());
                let head = joined("invalid footprint ", quoted.as_str());
                let head = joined(head.as_str(), ": ");
                joined(head.as_str(), reason.as_str())
            },
            Error::FootprintEpochMismatch => String::from_str(
                "footprint coordinates must use one epoch",
            ),
            Error::AntipodalGeometry => String::from_str(
                "antipodal geometry has no unique common tangent plane",
            ),
            Error::ProjectionFailed(detail) => joined(
                "gnomonic projection failed for ",
                detail.as_str(),
            ),
            Error::EmptyFootprintSet => String::from_str(
                "footprint union requires at least one footprint",
            ),
            Error::DuplicateFootprintProvenance(detail) => joined(
                "duplicate footprint provenance: ",
                detail.as_str(),
            ),
            Error::InvalidCoverageBand(detail) => joined("invalid coverage band: ", detail.as_str()),
            Error::InvalidRotationSearch(detail) => joined(
                "invalid rotation search: ",
                detail.as_str(),
            ),
            Error::InvalidEllipse(detail) => joined("invalid ellipse: ", detail.as_str()),
            Error::InvalidObjectGeometry(detail) => joined(
                "invalid object geometry: ",
                detail.as_str(),
            ),
        }
    }
}

} // verus!
