use jane_doe::freq::{BuildError, FreqChoice};
use jane_doe::sampler::{full_name, SampleFrom, SamplerPair};
use jane_doe::source::{table_from_csv, totals_fit, CsvSource, SourceError};
use jane_doe::tally::Combiner;
use jane_doe::unique::{StreamError, UniqueSampler};
use rand::rngs::StdRng;
use rand::SeedableRng;

fn table(pairs: &[(i128, &str)]) -> FreqChoice {
    FreqChoice::from_items(pairs.iter().map(|(w, s)| (*w, s.to_string())).collect()).unwrap()
}

fn build(pairs: &[(i128, &str)]) -> Result<FreqChoice, BuildError> {
    FreqChoice::from_items(pairs.iter().map(|(w, s)| (*w, s.to_string())).collect())
}

#[test]
fn it_works() {
    assert_eq!(2 + 2, 4);
}

#[test]
fn two_item_table_lookups() {
    let t = table(&[(3, "a"), (1, "b")]);
    assert_eq!(t.total(), 4);
    assert_eq!(t.sample_at(0), "a");
    assert_eq!(t.sample_at(2), "a");
    assert_eq!(t.sample_at(3), "b");
}

#[test]
fn empty_and_zero_inputs_are_rejected() {
    assert_eq!(build(&[]).err(), Some(BuildError::EmptyOrNonPositive));
    assert_eq!(build(&[(0, "x")]).err(), Some(BuildError::EmptyOrNonPositive));
    assert_eq!(build(&[(0, "x"), (0, "y")]).err(), Some(BuildError::EmptyOrNonPositive));
}

#[test]
fn negative_weight_is_rejected() {
    assert_eq!(build(&[(-1, "x"), (5, "y")]).err(), Some(BuildError::NegativeWeight));
    assert_eq!(build(&[(5, "y"), (-1, "x")]).err(), Some(BuildError::NegativeWeight));
    assert_eq!(build(&[(0, "y"), (-3, "x")]).err(), Some(BuildError::NegativeWeight));
}

#[test]
fn total_is_sum_of_weights() {
    let t = table(&[(0, "a"), (7, "b"), (2, "c"), (0, "d"), (11, "e")]);
    assert_eq!(t.total(), 20);
    let big = table(&[(i128::MAX - 1, "a"), (1, "b")]);
    assert_eq!(big.total(), i128::MAX);
    assert_eq!(big.sample_at(i128::MAX - 1), "b");
}

#[test]
fn each_item_covers_its_weight_in_offsets() {
    let weights: Vec<(i128, &str)> = vec![
        (5, "a"), (0, "z"), (3, "b"), (1, "c"), (1, "d"), (4, "e"), (2, "f"), (7, "g"),
        (1, "h"), (2, "i"),
    ];
    let t = table(&weights);
    let total = t.total();
    assert_eq!(total, 26);
    for (w, name) in &weights {
        let n = (0..total).filter(|o| t.sample_at(*o) == *name).count();
        assert_eq!(n as i128, *w);
    }
}

#[test]
fn lookup_is_deterministic() {
    let t = table(&[(1, "a"), (2, "b"), (3, "c"), (4, "d"), (5, "e")]);
    for o in 0..t.total() {
        assert_eq!(t.sample_at(o), t.sample_at(o));
    }
    assert_eq!(t.sample_at(0), "a");
    assert_eq!(t.sample_at(1), "b");
    assert_eq!(t.sample_at(5), "c");
    assert_eq!(t.sample_at(6), "d");
    assert_eq!(t.sample_at(14), "e");
}

#[test]
fn draws_follow_the_weights() {
    let t = table(&[(3, "a"), (1, "b")]);
    let mut rng = StdRng::seed_from_u64(7);
    let draws = 20000;
    let mut a = 0;
    for _ in 0..draws {
        let x = t.sample_using(&mut rng);
        assert!(x == "a" || x == "b");
        if x == "a" {
            a += 1;
        }
    }
    let share = a as f64 / draws as f64;
    assert!((share - 0.75).abs() < 0.02, "share of a: {}", share);
}

#[test]
fn zero_weight_item_is_never_drawn() {
    let t = table(&[(0, "never"), (2, "x"), (0, "nor"), (2, "y")]);
    let mut rng = StdRng::seed_from_u64(1);
    for _ in 0..2000 {
        let x = t.sample_using(&mut rng);
        assert!(x == "x" || x == "y");
    }
    let y = t.sample();
    assert!(y == "x" || y == "y");
}

#[test]
fn pair_of_single_tables_gives_full_name() {
    let pair = SamplerPair { first: table(&[(1, "Jane")]), second: table(&[(1, "Doe")]), combiner: full_name };
    let mut rng = StdRng::seed_from_u64(3);
    for _ in 0..20 {
        assert_eq!(pair.sample_using(&mut rng), "Jane Doe");
    }
    assert_eq!(pair.sample(), "Jane Doe");
}

#[test]
fn full_name_joins_with_a_space() {
    assert_eq!(full_name("Ada".to_string(), "Lovelace".to_string()), "Ada Lovelace");
    assert_eq!(full_name(String::new(), String::new()), " ");
}

#[test]
fn unique_stream_yields_distinct_items() {
    let names: Vec<String> = (0..40).map(|i| format!("n{}", i)).collect();
    let t = FreqChoice::from_items(names.iter().map(|s| (1, s.clone())).collect()).unwrap();
    let mut rng = StdRng::seed_from_u64(11);
    let mut stream = UniqueSampler::new(&t, 20, &mut rng);
    assert_eq!(stream.remaining(), 20);
    let out = stream.take_all().unwrap();
    assert_eq!(out.len(), 20);
    let mut sorted = out.clone();
    sorted.sort();
    sorted.dedup();
    assert_eq!(sorted.len(), 20);
    assert!(out.iter().all(|s| names.contains(s)));
    assert_eq!(stream.remaining(), 0);
    assert_eq!(stream.next(), Ok(None));
    assert_eq!(stream.next(), Ok(None));
}

#[test]
fn unique_stream_steps_one_at_a_time() {
    let t = table(&[(1, "a"), (1, "b"), (1, "c"), (1, "d")]);
    let mut rng = StdRng::seed_from_u64(5);
    let mut stream = UniqueSampler::new(&t, 2, &mut rng);
    let x = stream.next().unwrap().unwrap();
    assert_eq!(stream.remaining(), 1);
    let y = stream.next().unwrap().unwrap();
    assert_ne!(x, y);
    assert_eq!(stream.remaining(), 0);
    assert_eq!(stream.next(), Ok(None));
}

#[test]
fn unique_stream_of_zero_items_is_empty() {
    let t = table(&[(1, "a")]);
    let mut rng = StdRng::seed_from_u64(5);
    let mut stream = UniqueSampler::new(&t, 0, &mut rng);
    assert_eq!(stream.take_all(), Ok(vec![]));
    assert_eq!(stream.next(), Ok(None));
}

#[test]
fn unique_stream_gives_up_on_too_small_population() {
    let t = table(&[(1, "only")]);
    let mut rng = StdRng::seed_from_u64(5);
    let mut stream = UniqueSampler::new(&t, 2, &mut rng);
    assert_eq!(stream.next(), Ok(Some("only".to_string())));
    assert_eq!(stream.next(), Err(StreamError::PopulationTooSmall));
    assert_eq!(stream.remaining(), 1);
}

#[test]
fn combiner_sums_counts_per_name() {
    let mut c = Combiner::new();
    c.add("Mary", 5);
    c.add("John", 9);
    c.add("Mary", 7);
    c.add("Ann", 1);
    let sorted = c.into_sorted();
    assert_eq!(
        sorted,
        vec![("Mary".to_string(), 12), ("John".to_string(), 9), ("Ann".to_string(), 1)]
    );
}

#[test]
fn combiner_of_nothing_is_empty() {
    assert_eq!(Combiner::new().into_sorted(), vec![]);
}

#[test]
fn csv_records_become_a_table() {
    let t = table_from_csv(b"Mary,5\nJohn,+3\n").unwrap();
    assert_eq!(t.total(), 8);
    assert_eq!(t.sample_at(4), "Mary");
    assert_eq!(t.sample_at(5), "John");
    assert_eq!(t.sample_at(7), "John");
}

#[test]
fn csv_errors_are_reported() {
    assert_eq!(table_from_csv(b"Mary\n").err(), Some(SourceError::MissingCount));
    assert_eq!(table_from_csv(b"Mary,5\nJohn,x\n").err(), Some(SourceError::InvalidCount));
    assert_eq!(table_from_csv(b"Mary,-5\n").err(), Some(SourceError::InvalidCount));
    assert_eq!(
        table_from_csv(b"Mary,18446744073709551616\n").err(),
        Some(SourceError::InvalidCount)
    );
    assert_eq!(
        table_from_csv(b"Mary,0\n").err(),
        Some(SourceError::Build(BuildError::EmptyOrNonPositive))
    );
    assert_eq!(
        table_from_csv(b"").err(),
        Some(SourceError::Build(BuildError::EmptyOrNonPositive))
    );
    assert_eq!(table_from_csv(b"Mary,1\nJohn,2,3\n").err(), Some(SourceError::Malformed));
}

#[test]
fn bundled_file_names() {
    assert_eq!(CsvSource::USGiven.file_name(), "us-given.csv");
    assert_eq!(CsvSource::USSurnames.file_name(), "us-surnames.csv");
}

#[test]
fn csv_counts_up_to_u64_are_accepted() {
    let t = table_from_csv(b"Mary,18446744073709551615\nJohn,18446744073709551615\n").unwrap();
    assert_eq!(t.total(), 2 * (u64::MAX as i128));
    assert_eq!(t.sample_at(u64::MAX as i128 - 1), "Mary");
    assert_eq!(t.sample_at(u64::MAX as i128), "John");
}

#[test]
fn totals_fit_stops_at_first_negative() {
    let v = |pairs: &[(i128, &str)]| -> Vec<(i128, String)> {
        pairs.iter().map(|(w, s)| (*w, s.to_string())).collect()
    };
    assert!(totals_fit(&v(&[(1, "a"), (2, "b")])));
    assert!(totals_fit(&v(&[])));
    assert!(!totals_fit(&v(&[(i128::MAX, "a"), (1, "b")])));
    assert!(totals_fit(&v(&[(i128::MAX, "a"), (-1, "b"), (i128::MAX, "c")])));
    assert!(!totals_fit(&v(&[(i128::MAX, "a"), (1, "b"), (-1, "c")])));
    assert_eq!(
        FreqChoice::from_items(v(&[(i128::MAX, "a"), (-1, "b"), (i128::MAX, "c")])).err(),
        Some(BuildError::NegativeWeight)
    );
}
