use target_match::text::{blank, text_less, white_space};
use target_match::ring::crossing_candidates;
use target_match::rotation::{in_band_runs, SampleRun};
use target_match::sexagesimal::{looks_sexagesimal, split_sexagesimal, SexagesimalSplit};

#[test]
fn sexagesimal_shapes() {
    assert!(looks_sexagesimal("00:42:44.3"));
    assert!(looks_sexagesimal("05 35 17"));
    assert!(looks_sexagesimal("  -05 23 28  "));
    assert!(looks_sexagesimal("12:"));
    assert!(!looks_sexagesimal("10.6846"));
    assert!(!looks_sexagesimal("  41.2692\t"));
    assert!(!looks_sexagesimal(""));
    assert!(!looks_sexagesimal("abc"));
}

fn split(raw: &str) -> Option<(bool, Vec<String>)> {
    match split_sexagesimal(raw) {
        SexagesimalSplit::Empty => None,
        SexagesimalSplit::Fields { negative, fields } => Some((negative, fields)),
    }
}

#[test]
fn sexagesimal_fields() {
    assert_eq!(split("  \t"), None);
    assert_eq!(split(""), None);
    assert_eq!(
        split("+41:16:09"),
        Some((false, vec!["+41".into(), "16".into(), "09".into()]))
    );
    assert_eq!(
        split(" -05 23 28 "),
        Some((true, vec!["-05".into(), "23".into(), "28".into()]))
    );
    assert_eq!(
        split("00:70: 00 :"),
        Some((false, vec!["00".into(), "70".into(), "00".into()]))
    );
    assert_eq!(split(":"), Some((false, Vec::new())));
    assert_eq!(split("1 2 3 4").unwrap().1.len(), 4);
}

#[test]
fn runs_of_in_band_samples() {
    let inside = vec![true, true, false, false, true, true, false, true];
    assert_eq!(
        in_band_runs(&inside),
        vec![
            SampleRun { first: 0, last: 1 },
            SampleRun { first: 4, last: 5 },
            SampleRun { first: 7, last: 7 },
        ]
    );
    assert!(in_band_runs(&vec![false, false]).is_empty());
    assert_eq!(
        in_band_runs(&vec![true, true, true]),
        vec![SampleRun { first: 0, last: 2 }]
    );
    assert!(in_band_runs(&Vec::new()).is_empty());
}

#[test]
fn ring_edges_to_test_for_crossing() {
    assert!(crossing_candidates(3).is_empty());
    assert_eq!(crossing_candidates(4), vec![(0, 2), (1, 3)]);
    assert_eq!(
        crossing_candidates(5),
        vec![(0, 2), (0, 3), (1, 3), (1, 4), (2, 4)]
    );
    assert!(crossing_candidates(0).is_empty());
    assert!(crossing_candidates(1).is_empty());
}

#[test]
fn white_space_and_order_of_texts() {
    for c in [' ', '\t', '\n', '\u{85}', '\u{a0}', '\u{2003}', '\u{3000}'] {
        assert!(white_space(c));
    }
    for c in ['a', ':', '-', '\u{200b}'] {
        assert!(!white_space(c));
    }
    assert!(blank(""));
    assert!(blank(" \u{2028} "));
    assert!(!blank(" x "));
    assert!(text_less("", "a"));
    assert!(text_less("ab", "b"));
    assert!(text_less("a", "ab"));
    assert!(!text_less("b", "ab"));
    assert!(!text_less("same", "same"));
    assert!(text_less("Z", "a"));
}
