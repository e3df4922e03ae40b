use read_json::route::{build_route, evaluate, intermediates, lookup, run_routes, Place};
use read_json::RouteError;

/// The great-circle distance in miles, rounded to one decimal place:
/// the same haversine computation the host application feeds the
/// library's distance table with.
fn haversine_dist(mut th1: f64, mut ph1: f64, mut th2: f64, ph2: f64) -> f64 {
    ph1 -= ph2;
    ph1 = ph1.to_radians();
    th1 = th1.to_radians();
    th2 = th2.to_radians();
    let dz: f64 = th1.sin() - th2.sin();
    let dx: f64 = ph1.cos() * th1.cos() - th2.cos();
    let dy: f64 = ph1.sin() * th1.cos();
    let r: f64 = 6371.0;
    let km_to_mi = 1.609344_f64;
    let d: f64 = ((dx * dx + dy * dy + dz * dz).sqrt() / 2.0).asin() * 2.0 * r;
    ((d / km_to_mi) * 10.0).round() / 10.0
}

fn place(id: &str, lat: f64, lon: f64) -> Place {
    Place {
        id: id.to_string(),
        lat_micro: (lat * 1_000_000.0).round() as i64,
        lon_micro: (lon * 1_000_000.0).round() as i64,
    }
}

fn coords(p: &Place) -> (f64, f64) {
    (p.lat_micro as f64 / 1_000_000.0, p.lon_micro as f64 / 1_000_000.0)
}

/// The pairwise distance table in tenths of a mile, as the host
/// application tabulates it from the lookup table.
fn matrix(table: &Vec<Place>) -> Vec<Vec<u64>> {
    let mut m: Vec<Vec<u64>> = Vec::new();
    for a in table {
        let (lat1, lon1) = coords(a);
        let mut row: Vec<u64> = Vec::new();
        for b in table {
            let (lat2, lon2) = coords(b);
            let d = haversine_dist(lat1, lon1, lat2, lon2);
            row.push((d * 10.0).round() as u64);
        }
        m.push(row);
    }
    m
}

fn sample_table() -> Vec<Place> {
    vec![
        place("IA", 42.0, -93.5),
        place("OH", 40.4, -82.9),
        place("TX", 31.0, -99.9),
        place("DC", 38.9, -77.0),
    ]
}

/// Stepwise accumulation with rounding to one decimal after every leg,
/// as the route walk performs it.
fn accumulate(legs: &[f64]) -> f64 {
    let mut sum: f64 = 0.0;
    for d in legs {
        sum += d;
        sum = (sum * 10.0).round() / 10.0;
    }
    sum
}

#[test]
fn identical_coordinates_are_zero_distance() {
    assert_eq!(haversine_dist(42.0, -93.5, 42.0, -93.5), 0.0);
    assert_eq!(haversine_dist(0.0, 0.0, 0.0, 0.0), 0.0);
    assert_eq!(haversine_dist(-38.9, 77.0, -38.9, 77.0), 0.0);
}

#[test]
fn distance_is_symmetric() {
    let pairs = [
        ((42.0, -93.5), (40.4, -82.9)),
        ((31.0, -99.9), (38.9, -77.0)),
        ((0.0, 0.0), (45.0, 90.0)),
    ];
    for ((lat1, lon1), (lat2, lon2)) in pairs {
        assert_eq!(
            haversine_dist(lat1, lon1, lat2, lon2),
            haversine_dist(lat2, lon2, lat1, lon1)
        );
    }
}

#[test]
fn lookup_returns_first_match() {
    let mut table = sample_table();
    table.push(place("OH", 1.0, 1.0));
    assert_eq!(lookup(&table, &"OH".to_string()), Some(1));
    assert_eq!(lookup(&table, &"IA".to_string()), Some(0));
    assert_eq!(lookup(&table, &"ZZ".to_string()), None);
}

#[test]
fn intermediates_drop_start_and_end() {
    let table = sample_table();
    let inter = intermediates(&table, &"IA".to_string(), &"DC".to_string());
    assert_eq!(inter, vec!["OH", "TX"]);
    assert_eq!(inter.len(), table.len() - 2);
}

#[test]
fn build_route_brackets_the_permutation() {
    let perm = vec!["TX".to_string(), "OH".to_string()];
    let route = build_route(&perm, &"IA".to_string(), &"DC".to_string());
    assert_eq!(route, vec!["IA", "TX", "OH", "DC"]);
}

#[test]
fn evaluate_sums_legs_with_stepwise_rounding() {
    let table = sample_table();
    let m = matrix(&table);
    let perm = vec!["OH".to_string(), "TX".to_string()];
    let (route, total) = evaluate(&perm, &table, &m, &"IA".to_string(), &"DC".to_string()).unwrap();
    assert_eq!(route, vec!["IA", "OH", "TX", "DC"]);

    let (ia_lat, ia_lon) = coords(&table[0]);
    let (oh_lat, oh_lon) = coords(&table[1]);
    let (tx_lat, tx_lon) = coords(&table[2]);
    let (dc_lat, dc_lon) = coords(&table[3]);
    let legs = [
        haversine_dist(ia_lat, ia_lon, oh_lat, oh_lon),
        haversine_dist(oh_lat, oh_lon, tx_lat, tx_lon),
        haversine_dist(tx_lat, tx_lon, dc_lat, dc_lon),
    ];
    let expected = accumulate(&legs);
    assert_eq!(total, (expected * 10.0).round() as u64);
}

#[test]
fn evaluate_reports_missing_stops() {
    let table = sample_table();
    let m = matrix(&table);
    let perm = vec!["OH".to_string(), "NV".to_string()];
    assert_eq!(
        evaluate(&perm, &table, &m, &"IA".to_string(), &"DC".to_string()),
        Err(RouteError::LookupError)
    );
}

#[test]
fn two_intermediates_yield_two_rows() {
    let table = sample_table();
    let m = matrix(&table);
    let rows = run_routes(&table, &m, &"IA".to_string(), &"DC".to_string()).unwrap();

    assert_eq!(rows.len(), 1 + 2);
    assert_eq!(
        rows[0],
        vec!["KEY", "STATE_1", "STATE_2", "STATE_3", "STATE_4", "DISTANCE"]
    );

    let (ia_lat, ia_lon) = coords(&table[0]);
    let (oh_lat, oh_lon) = coords(&table[1]);
    let (tx_lat, tx_lon) = coords(&table[2]);
    let (dc_lat, dc_lon) = coords(&table[3]);
    let via_oh_tx = accumulate(&[
        haversine_dist(ia_lat, ia_lon, oh_lat, oh_lon),
        haversine_dist(oh_lat, oh_lon, tx_lat, tx_lon),
        haversine_dist(tx_lat, tx_lon, dc_lat, dc_lon),
    ]);
    let via_tx_oh = accumulate(&[
        haversine_dist(ia_lat, ia_lon, tx_lat, tx_lon),
        haversine_dist(tx_lat, tx_lon, oh_lat, oh_lon),
        haversine_dist(oh_lat, oh_lon, dc_lat, dc_lon),
    ]);

    let mut seen_oh_tx = false;
    let mut seen_tx_oh = false;
    for (idx, row) in rows[1..].iter().enumerate() {
        assert_eq!(row.len(), 6);
        assert_eq!(row[0], format!("{}", idx + 1));
        assert_eq!(row[1], "IA");
        assert_eq!(row[4], "DC");
        if row[2] == "OH" && row[3] == "TX" {
            seen_oh_tx = true;
            assert_eq!(row[5], format!("{:.1}", via_oh_tx));
        } else if row[2] == "TX" && row[3] == "OH" {
            seen_tx_oh = true;
            assert_eq!(row[5], format!("{:.1}", via_tx_oh));
        } else {
            panic!("unexpected middle stops: {:?}", row);
        }
    }
    assert!(seen_oh_tx && seen_tx_oh);
}

#[test]
fn empty_intermediate_set_yields_one_row() {
    let table = vec![place("IA", 42.0, -93.5), place("DC", 38.9, -77.0)];
    let m = matrix(&table);
    let rows = run_routes(&table, &m, &"IA".to_string(), &"DC".to_string()).unwrap();

    assert_eq!(rows.len(), 2);
    assert_eq!(rows[0], vec!["KEY", "STATE_1", "STATE_2", "DISTANCE"]);

    let (ia_lat, ia_lon) = coords(&table[0]);
    let (dc_lat, dc_lon) = coords(&table[1]);
    let d = haversine_dist(ia_lat, ia_lon, dc_lat, dc_lon);
    assert_eq!(rows[1], vec![
        "1".to_string(),
        "IA".to_string(),
        "DC".to_string(),
        format!("{:.1}", d),
    ]);
}

#[test]
fn run_routes_reports_missing_endpoints() {
    let table = sample_table();
    let m = matrix(&table);
    assert_eq!(
        run_routes(&table, &m, &"NV".to_string(), &"DC".to_string()),
        Err(RouteError::LookupError)
    );
    assert_eq!(
        run_routes(&table, &m, &"IA".to_string(), &"NV".to_string()),
        Err(RouteError::LookupError)
    );
}

#[test]
fn run_routes_rejects_oversized_intermediate_sets() {
    let mut table = vec![place("IA", 42.0, -93.5), place("DC", 38.9, -77.0)];
    for i in 0..11 {
        table.push(place(&format!("S{}", i), 30.0 + i as f64, -90.0));
    }
    let m = matrix(&table);
    assert_eq!(
        run_routes(&table, &m, &"IA".to_string(), &"DC".to_string()),
        Err(RouteError::InvalidInput)
    );
}

#[test]
fn two_leg_route_matches_manual_accumulation() {
    let table = vec![
        place("IA", 42.0, -93.5),
        place("OH", 40.4, -82.9),
        place("DC", 38.9, -77.0),
    ];
    let m = matrix(&table);
    let perm = vec!["OH".to_string()];
    let (route, total) = evaluate(&perm, &table, &m, &"IA".to_string(), &"DC".to_string()).unwrap();
    assert_eq!(route, vec!["IA", "OH", "DC"]);

    let (ia_lat, ia_lon) = coords(&table[0]);
    let (oh_lat, oh_lon) = coords(&table[1]);
    let (dc_lat, dc_lon) = coords(&table[2]);
    let d1 = haversine_dist(ia_lat, ia_lon, oh_lat, oh_lon);
    let d2 = haversine_dist(oh_lat, oh_lon, dc_lat, dc_lon);
    let mut sum: f64 = 0.0;
    sum += d1;
    sum = (sum * 10.0).round() / 10.0;
    sum += d2;
    sum = (sum * 10.0).round() / 10.0;
    assert_eq!(total, (sum * 10.0).round() as u64);
}
