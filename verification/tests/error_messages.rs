use target_match::error::Error;

#[test]
fn display_messages() {
    assert_eq!(
        Error::InvalidOptics("focal <= 0".into()).to_string(),
        "invalid optics: focal <= 0"
    );
    assert_eq!(
        Error::AntipodalGeometry.to_string(),
        "antipodal geometry has no unique common tangent plane"
    );
}

#[test]
fn every_variant_has_its_message() {
    let cases = vec![
        (
            Error::InvalidFootprint {
                provenance: "panel \"a\"".into(),
                reason: "boundary self-intersects".into(),
            },
            "invalid footprint \"panel \\\"a\\\"\": boundary self-intersects",
        ),
        (
            Error::FootprintEpochMismatch,
            "footprint coordinates must use one epoch",
        ),
        (
            Error::ProjectionFailed("object point".into()),
            "gnomonic projection failed for object point",
        ),
        (
            Error::EmptyFootprintSet,
            "footprint union requires at least one footprint",
        ),
        (
            Error::DuplicateFootprintProvenance("left".into()),
            "duplicate footprint provenance: left",
        ),
        (
            Error::InvalidCoverageBand("reversed".into()),
            "invalid coverage band: reversed",
        ),
        (
            Error::InvalidRotationSearch("residual rotation must be finite".into()),
            "invalid rotation search: residual rotation must be finite",
        ),
        (
            Error::InvalidEllipse("segments".into()),
            "invalid ellipse: segments",
        ),
        (
            Error::InvalidObjectGeometry("area".into()),
            "invalid object geometry: area",
        ),
    ];
    for (error, message) in cases {
        assert_eq!(error.to_string(), message);
    }
}

#[test]
fn footprint_message_quotes_the_provenance() {
    let error = Error::InvalidFootprint {
        provenance: "tab\there".into(),
        reason: "r".into(),
    };
    assert_eq!(error.to_string(), "invalid footprint \"tab\\there\": r");
}
