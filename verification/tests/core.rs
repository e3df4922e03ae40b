use read_json::permutate::{factorial, Permutations, MAX_INTERMEDIATE};
use read_json::parse::parse_coord;
use read_json::rows::{format_tenths, title, u64_to_string, vec_row};
use read_json::{Location, RouteError};

fn fact_usize(n: usize) -> usize {
    (1..=n).product::<usize>().max(1)
}

fn collect_permutations(n: usize) -> Vec<Vec<usize>> {
    let mut gen = Permutations::new(n).unwrap();
    let mut all: Vec<Vec<usize>> = Vec::new();
    while let Some(p) = gen.next() {
        all.push(p);
    }
    all
}

#[test]
fn permutations_yield_factorial_many_distinct_orderings() {
    for n in 0..=6usize {
        let all = collect_permutations(n);
        assert_eq!(all.len(), fact_usize(n));
        for p in &all {
            let mut sorted = p.clone();
            sorted.sort();
            let expected: Vec<usize> = (0..n).collect();
            assert_eq!(sorted, expected);
        }
        for a in 0..all.len() {
            for b in (a + 1)..all.len() {
                assert_ne!(all[a], all[b]);
            }
        }
    }
}

#[test]
fn permutations_exhausted_generator_stays_exhausted() {
    let mut gen = Permutations::new(2).unwrap();
    assert!(gen.next().is_some());
    assert!(gen.next().is_some());
    assert!(gen.next().is_none());
    assert!(gen.next().is_none());
}

#[test]
fn permutations_reject_oversized_sets() {
    assert!(Permutations::new(MAX_INTERMEDIATE).is_ok());
    assert_eq!(
        Permutations::new(MAX_INTERMEDIATE + 1).unwrap_err(),
        RouteError::InvalidInput
    );
}

#[test]
fn factorial_matches_known_values() {
    assert_eq!(factorial(0), 1);
    assert_eq!(factorial(1), 1);
    assert_eq!(factorial(2), 2);
    assert_eq!(factorial(5), 120);
    assert_eq!(factorial(12), 479001600);
}

#[test]
fn title_names_key_states_distance() {
    let header = title(6);
    assert_eq!(
        header,
        vec!["KEY", "STATE_1", "STATE_2", "STATE_3", "STATE_4", "DISTANCE"]
    );
}

#[test]
fn title_length_equals_requested_width() {
    for k in 0..12usize {
        assert_eq!(title(k).len(), k);
    }
    assert_eq!(title(0), Vec::<String>::new());
    assert_eq!(title(1), vec!["KEY"]);
    assert_eq!(title(2), vec!["KEY", "DISTANCE"]);
}

#[test]
fn vec_row_wraps_route_with_key_and_distance() {
    let route = vec!["IA".to_string(), "OH".to_string(), "DC".to_string()];
    let row = vec_row(3, 1234, route);
    assert_eq!(row, vec!["3", "IA", "OH", "DC", "123.4"]);
    assert_eq!(row.len(), 3 + 2);
}

#[test]
fn vec_row_handles_empty_route() {
    let row = vec_row(1, 7, Vec::new());
    assert_eq!(row, vec!["1", "0.7"]);
    assert_eq!(row.len(), 2);
}

#[test]
fn numerals_render_in_decimal() {
    assert_eq!(u64_to_string(0), "0");
    assert_eq!(u64_to_string(7), "7");
    assert_eq!(u64_to_string(120), "120");
    assert_eq!(u64_to_string(1000000), "1000000");
}

#[test]
fn tenths_render_with_one_decimal() {
    assert_eq!(format_tenths(0), "0.0");
    assert_eq!(format_tenths(5), "0.5");
    assert_eq!(format_tenths(1234), "123.4");
    assert_eq!(format_tenths(1000), "100.0");
}

#[test]
fn parse_coord_accepts_plain_decimals() {
    assert_eq!(parse_coord(&b"42.0".to_vec()), Ok(42_000_000));
    assert_eq!(parse_coord(&b"-93.5".to_vec()), Ok(-93_500_000));
    assert_eq!(parse_coord(&b"31".to_vec()), Ok(31_000_000));
    assert_eq!(parse_coord(&b"42.".to_vec()), Ok(42_000_000));
    assert_eq!(parse_coord(&b"0.000001".to_vec()), Ok(1));
    assert_eq!(parse_coord(&b"-0.5".to_vec()), Ok(-500_000));
    assert_eq!(parse_coord(&b"999999999.999999".to_vec()), Ok(999_999_999_999_999));
}

#[test]
fn parse_coord_rejects_malformed_fields() {
    assert_eq!(parse_coord(&b"".to_vec()), Err(RouteError::ParseError));
    assert_eq!(parse_coord(&b"-".to_vec()), Err(RouteError::ParseError));
    assert_eq!(parse_coord(&b"abc".to_vec()), Err(RouteError::ParseError));
    assert_eq!(parse_coord(&b"4a".to_vec()), Err(RouteError::ParseError));
    assert_eq!(parse_coord(&b".5".to_vec()), Err(RouteError::ParseError));
    assert_eq!(parse_coord(&b"--1".to_vec()), Err(RouteError::ParseError));
    assert_eq!(parse_coord(&b"1.2345678".to_vec()), Err(RouteError::ParseError));
    assert_eq!(parse_coord(&b"1234567890".to_vec()), Err(RouteError::ParseError));
    assert_eq!(parse_coord(&b"1.2.3".to_vec()), Err(RouteError::ParseError));
}

#[test]
fn location_carries_output_file_state() {
    let loc = Location {
        path: "cypher.csv".to_string(),
        boolean: false,
        cnt: 0,
    };
    assert_eq!(loc.path, "cypher.csv");
    assert!(!loc.boolean);
    assert_eq!(loc.cnt, 0);
}
