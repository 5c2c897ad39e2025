use target_match::error::Error;
use target_match::footprint::{
    invalid_footprint, union_panel_order, Containment, CoverageState, FootprintProvenance,
    ImageParity, PanelContainmentEvidence, PointContainmentEvidence,
};

fn provenance(id: &str) -> FootprintProvenance {
    FootprintProvenance::new(id).unwrap()
}

#[test]
fn blank_provenance_is_rejected() {
    for blank in ["", "  ", "\t\n", "\u{3000}\u{a0}"] {
        match FootprintProvenance::new(blank) {
            Err(Error::InvalidFootprint { provenance, reason }) => {
                assert_eq!(provenance, blank);
                assert_eq!(reason, "provenance must not be empty");
            }
            other => panic!("expected an invalid footprint, got {other:?}"),
        }
    }
}

#[test]
fn provenance_keeps_the_caller_text() {
    let p = provenance("  panel-7 ");
    assert_eq!(p.as_str(), "  panel-7 ");
    assert_eq!(provenance("wcs:abc").as_str(), "wcs:abc");
}

#[test]
fn invalid_footprint_names_provenance_and_reason() {
    let error = invalid_footprint(&provenance("bow-tie"), "boundary self-intersects");
    assert_eq!(
        error,
        Error::InvalidFootprint {
            provenance: "bow-tie".into(),
            reason: "boundary self-intersects".into(),
        }
    );
}

#[test]
fn boundary_counts_as_covered() {
    assert!(!Containment::Outside.is_covered());
    assert!(Containment::Boundary.is_covered());
    assert!(Containment::Interior.is_covered());
}

#[test]
fn point_evidence_lists_covering_components() {
    let panels = vec![
        PanelContainmentEvidence {
            provenance: provenance("left"),
            containment: Containment::Interior,
        },
        PanelContainmentEvidence {
            provenance: provenance("right"),
            containment: Containment::Outside,
        },
    ];
    let components = vec![
        Containment::Outside,
        Containment::Boundary,
        Containment::Outside,
        Containment::Interior,
    ];
    let evidence =
        PointContainmentEvidence::from_positions(Containment::Interior, &components, panels.clone());
    assert_eq!(evidence.containment, Containment::Interior);
    assert_eq!(evidence.component_indices, vec![1, 3]);
    assert_eq!(evidence.panels, panels);

    let gap = PointContainmentEvidence::from_positions(
        Containment::Outside,
        &vec![Containment::Outside, Containment::Outside],
        Vec::new(),
    );
    assert!(gap.component_indices.is_empty());
}

#[test]
fn point_coverage_state() {
    assert_eq!(
        CoverageState::for_point(Containment::Boundary),
        CoverageState::Full
    );
    assert_eq!(
        CoverageState::for_point(Containment::Interior),
        CoverageState::Full
    );
    assert_eq!(
        CoverageState::for_point(Containment::Outside),
        CoverageState::NotCovered
    );
}

#[test]
fn parity_is_its_own_value() {
    assert_ne!(ImageParity::Direct, ImageParity::Mirrored);
}

#[test]
fn union_order_sorts_by_provenance() {
    let panels = vec![
        provenance("top"),
        provenance("left"),
        provenance("island"),
        provenance("bottom"),
        provenance("right"),
    ];
    let order = union_panel_order(&panels).unwrap();
    let names: Vec<&str> = order.iter().map(|&i| panels[i].as_str()).collect();
    assert_eq!(names, vec!["bottom", "island", "left", "right", "top"]);
}

#[test]
fn union_order_ignores_input_order() {
    let forward = vec![provenance("b"), provenance("a"), provenance("ab"), provenance("Z")];
    let mut reversed = forward.clone();
    reversed.reverse();
    let names = |list: &Vec<FootprintProvenance>| -> Vec<String> {
        union_panel_order(list)
            .unwrap()
            .iter()
            .map(|&i| list[i].as_str().to_string())
            .collect()
    };
    assert_eq!(names(&forward), names(&reversed));
    assert_eq!(names(&forward), vec!["Z", "a", "ab", "b"]);
}

#[test]
fn union_order_rejects_empty_and_duplicates() {
    assert_eq!(union_panel_order(&Vec::new()), Err(Error::EmptyFootprintSet));
    let duplicated = vec![
        provenance("right"),
        provenance("left"),
        provenance("right"),
        provenance("left"),
    ];
    assert_eq!(
        union_panel_order(&duplicated),
        Err(Error::DuplicateFootprintProvenance("left".into()))
    );
    let once = vec![provenance("left"), provenance("left")];
    assert_eq!(
        union_panel_order(&once),
        Err(Error::DuplicateFootprintProvenance("left".into()))
    );
}

#[test]
fn union_order_compares_by_code_point() {
    let panels = vec![provenance("é"), provenance("z"), provenance("e")];
    let order = union_panel_order(&panels).unwrap();
    assert_eq!(order, vec![2, 1, 0]);
}
