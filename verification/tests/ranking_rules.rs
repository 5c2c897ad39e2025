use target_match::dec_index::DeclinationIndex;
use target_match::ranking::{keep, rank_candidates, Candidate, RankQuery};

fn candidate(index: usize, order: u64, in_frame: bool, within_radius: bool) -> Candidate {
    Candidate {
        index,
        order,
        in_frame,
        within_radius,
    }
}

fn indices(ranked: &[Candidate]) -> Vec<usize> {
    ranked.iter().map(|c| c.index).collect()
}

fn catalogue() -> Vec<Candidate> {
    vec![
        candidate(0, 10, true, true),
        candidate(1, 500, true, true),
        candidate(2, 9_000, false, false),
        candidate(3, 40_000, false, false),
    ]
}

#[test]
fn nearest_one_takes_the_closest_in_frame() {
    let ranked = rank_candidates(&catalogue(), RankQuery::NearestOne);
    assert_eq!(indices(&ranked), vec![0]);
}

#[test]
fn all_within_field_is_ascending() {
    let ranked = rank_candidates(&catalogue(), RankQuery::AllWithinField);
    assert_eq!(indices(&ranked), vec![0, 1]);
}

#[test]
fn nearest_n_ignores_the_frame() {
    let unbounded: Vec<Candidate> = catalogue()
        .into_iter()
        .map(|mut c| {
            c.within_radius = true;
            c
        })
        .collect();
    let ranked = rank_candidates(&unbounded, RankQuery::NearestN { n: 3 });
    assert_eq!(indices(&ranked), vec![0, 1, 2]);
    let bounded = rank_candidates(&catalogue(), RankQuery::NearestN { n: 3 });
    assert_eq!(indices(&bounded), vec![0, 1]);
    assert!(rank_candidates(&catalogue(), RankQuery::NearestN { n: 0 }).is_empty());
}

#[test]
fn ties_break_by_catalogue_index() {
    let list = vec![
        candidate(7, 100, true, true),
        candidate(2, 100, true, true),
        candidate(5, 50, true, true),
        candidate(3, 100, true, true),
    ];
    let ranked = rank_candidates(&list, RankQuery::AllWithinField);
    assert_eq!(indices(&ranked), vec![5, 2, 3, 7]);
}

#[test]
fn empty_catalogue_ranks_nothing() {
    assert!(rank_candidates(&Vec::new(), RankQuery::AllWithinField).is_empty());
    let none_in_frame: Vec<Candidate> = catalogue()
        .into_iter()
        .map(|mut c| {
            c.in_frame = false;
            c
        })
        .collect();
    assert!(rank_candidates(&none_in_frame, RankQuery::AllWithinField).is_empty());
}

#[test]
fn keep_follows_the_query_mode() {
    let c = candidate(0, 1, false, true);
    assert!(!keep(&c, RankQuery::AllWithinField));
    assert!(!keep(&c, RankQuery::NearestOne));
    assert!(keep(&c, RankQuery::NearestN { n: 1 }));
}

#[test]
fn band_subset_ranks_like_the_full_catalogue() {
    let full = catalogue();
    let band = vec![full[1], full[0]];
    for query in [RankQuery::AllWithinField, RankQuery::NearestOne] {
        assert_eq!(
            rank_candidates(&full, query),
            rank_candidates(&band, query)
        );
    }
}

#[test]
fn declination_index_sorts_and_bands() {
    let keys = vec![30, 10, 20, 10, 50];
    let index = DeclinationIndex::from_keys(&keys);
    assert_eq!(index.all(), vec![1, 3, 2, 0, 4]);
    assert_eq!(index.band(10, 20), vec![1, 3, 2]);
    assert_eq!(index.band(11, 29), vec![2]);
    assert_eq!(index.band(31, 49), Vec::<usize>::new());
    assert_eq!(index.band(0, u64::MAX), vec![1, 3, 2, 0, 4]);
    assert_eq!(index.band(50, 50), vec![4]);
    let empty = DeclinationIndex::from_keys(&Vec::new());
    assert!(empty.all().is_empty());
    assert!(empty.band(0, 10).is_empty());
}
