use fortune_kind::file::{get_file_sizes, Candidate, CorpusError, Entry, Listing};
use fortune_kind::random::{
    chosen_file, get_random_file_weighted, random, selection_order, weight,
};
use rand::distributions::WeightedError;

/// `random(i)` always returns a value less than `i`.
#[test]
fn test_random_bounds() {
    let upper: usize = 100;
    for _ in 0..1000 {
        assert!(random(upper) < upper);
    }
}

/// Sampling a range of 1 always returns 0.
#[test]
fn test_random_unary() {
    assert_eq!(random(1), 0);
}

/// Over many draws `random` reaches the lowest and the highest index.
#[test]
fn test_random_reaches_both_ends() {
    let mut lowest: bool = false;
    let mut highest: bool = false;
    for _ in 0..2000 {
        let r: usize = random(4);
        if r == 0 {
            lowest = true;
        }
        if r == 3 {
            highest = true;
        }
    }
    assert!(lowest);
    assert!(highest);
}

/// One tiny file and one large file: after many draws the large file has
/// been picked far more often.
#[test]
fn test_weighted_selection_logic() {
    let listing = Listing::Directory(vec![
        Entry { size: 5, regular: true },
        Entry { size: 500, regular: true },
    ]);
    let files: Vec<Candidate> = get_file_sizes(&listing).unwrap();

    let mut large_picks: u32 = 0;
    let iterations: u32 = 100;

    for _ in 0..iterations {
        let chosen: Candidate = get_random_file_weighted(&files).unwrap();
        if chosen.size == 500 {
            large_picks += 1;
        }
    }

    // The 500-byte file should be picked about 99% of the time.
    assert!(
        large_picks > 90,
        "Weighted selection failed: Large file only picked {}/{} times",
        large_picks,
        iterations
    );
}

/// A location that is a single file has that file as its only candidate.
#[test]
fn test_selection_on_single_file() {
    let contents: &str = "sole content";
    let listing = Listing::File(contents.len() as u64);
    let files: Vec<Candidate> = get_file_sizes(&listing).unwrap();
    assert_eq!(files, vec![Candidate { size: 12, file: 0 }]);

    let result: Candidate = get_random_file_weighted(&files).unwrap();
    assert_eq!(result, Candidate { size: 12, file: 0 });
}

#[test]
fn test_selection_on_nothing_is_empty_corpus() {
    let files: Vec<Candidate> = Vec::new();
    assert_eq!(get_random_file_weighted(&files), Err(CorpusError::EmptyCorpus));
}

#[test]
fn test_selection_on_zero_weights_is_empty_corpus() {
    let files: Vec<Candidate> =
        vec![Candidate { size: 0, file: 0 }, Candidate { size: 0, file: 1 }];
    assert_eq!(get_random_file_weighted(&files), Err(CorpusError::EmptyCorpus));
}

#[test]
fn test_selection_never_takes_an_empty_file() {
    let files: Vec<Candidate> = vec![
        Candidate { size: 0, file: 0 },
        Candidate { size: 7, file: 1 },
        Candidate { size: 0, file: 2 },
    ];
    for _ in 0..300 {
        assert_eq!(get_random_file_weighted(&files), Ok(Candidate { size: 7, file: 1 }));
    }
}

#[test]
fn test_selection_returns_one_of_the_files() {
    let files: Vec<Candidate> = vec![
        Candidate { size: 3, file: 0 },
        Candidate { size: 9, file: 1 },
        Candidate { size: 1, file: 2 },
    ];
    let mut seen: Vec<bool> = vec![false, false, false];
    for _ in 0..2000 {
        let chosen: Candidate = get_random_file_weighted(&files).unwrap();
        assert!(files.contains(&chosen));
        seen[chosen.file] = true;
    }
    assert_eq!(seen, vec![true, true, true]);
}

#[test]
fn test_selection_with_the_largest_sizes() {
    let files: Vec<Candidate> =
        vec![Candidate { size: u64::MAX, file: 0 }, Candidate { size: u64::MAX, file: 1 }];
    for _ in 0..50 {
        let chosen: Candidate = get_random_file_weighted(&files).unwrap();
        assert_eq!(chosen.size, u64::MAX);
        assert!(chosen.file < 2);
    }
}

#[test]
fn test_weight_is_the_size() {
    assert_eq!(weight(&Candidate { size: 500, file: 3 }), 500);
    assert_eq!(weight(&Candidate { size: u64::MAX, file: 0 }), 18446744073709551615);
}

#[test]
fn test_selection_order_is_sorted_and_stable() {
    let files: Vec<Candidate> = vec![
        Candidate { size: 5, file: 0 },
        Candidate { size: 3, file: 1 },
        Candidate { size: 5, file: 2 },
        Candidate { size: 1, file: 3 },
        Candidate { size: 3, file: 4 },
    ];
    assert_eq!(
        selection_order(&files),
        vec![
            Candidate { size: 1, file: 3 },
            Candidate { size: 3, file: 1 },
            Candidate { size: 3, file: 4 },
            Candidate { size: 5, file: 0 },
            Candidate { size: 5, file: 2 },
        ]
    );
}

#[test]
fn test_selection_order_of_nothing() {
    let files: Vec<Candidate> = Vec::new();
    assert_eq!(selection_order(&files), Vec::new());
}

#[test]
fn test_selection_order_keeps_a_sorted_list() {
    let files: Vec<Candidate> = vec![
        Candidate { size: 1, file: 7 },
        Candidate { size: 1, file: 2 },
        Candidate { size: 2, file: 5 },
    ];
    assert_eq!(selection_order(&files), files);
}

#[test]
fn test_chosen_file_maps_each_outcome() {
    let file = Candidate { size: 9, file: 4 };
    assert_eq!(chosen_file(Ok(file)), Ok(file));
    assert_eq!(chosen_file(Err(WeightedError::NoItem)), Err(CorpusError::EmptyCorpus));
    assert_eq!(chosen_file(Err(WeightedError::AllWeightsZero)), Err(CorpusError::EmptyCorpus));
    assert_eq!(chosen_file(Err(WeightedError::InvalidWeight)), Err(CorpusError::EmptyCorpus));
    assert_eq!(chosen_file(Err(WeightedError::TooMany)), Err(CorpusError::EmptyCorpus));
}
