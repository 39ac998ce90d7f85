use salesman::edge::NodeLatLon;
use salesman::latlon::gronland_tbane;
use salesman::latlon::kampen;
use salesman::statue::select_candidates;
use salesman::statue::validate_all;
use salesman::statue::MaybeStatue;
use salesman::statue::RouteError;
use salesman::statue::Statue;

fn record(
    title: &str,
    lat: Option<i64>,
    lon: Option<i64>,
    address: Option<&str>,
) -> MaybeStatue {
    MaybeStatue {
        title: title.to_string(),
        where_label: "somewhere".to_string(),
        link: "https://example.invalid".to_string(),
        lat,
        lon,
        address: address.map(|a| a.to_string()),
    }
}

fn statue(title: &str, lat: i64, lon: i64) -> Statue {
    Statue {
        title: title.to_string(),
        where_label: "somewhere".to_string(),
        link: "https://example.invalid".to_string(),
        lat,
        lon,
        address: "addr".to_string(),
    }
}

#[test]
fn validation_keeps_only_complete_records() {
    let batch = vec![
        record("a", Some(599000000), Some(107000000), Some("addr a")),
        record("b", None, Some(107000000), Some("addr b")),
        record("c", Some(599000000), None, Some("addr c")),
        record("d", Some(599000000), Some(107000000), None),
        record("e", Some(599100000), Some(107100000), Some("addr e")),
        record("f", None, None, None),
    ];
    let incomplete = 4;
    let total = batch.len();
    let kept = validate_all(batch);
    assert_eq!(kept.len(), total - incomplete);
    assert_eq!(kept[0].title, "a");
    assert_eq!(kept[1].title, "e");
    assert_eq!(kept[0].lat, 599000000);
    assert_eq!(kept[1].address, "addr e");
}

#[test]
fn to_validated_requires_all_three_fields() {
    let complete = record("done", Some(1), Some(2), Some("addr"));
    let validated = complete.to_validated().unwrap();
    assert_eq!(validated.title, "done");
    assert_eq!(validated.lat, 1);
    assert_eq!(validated.lon, 2);
    assert_eq!(validated.address, "addr");

    let missing = record("gone", Some(1), Some(2), None);
    match missing.to_validated() {
        Err(RouteError::MissingData { title }) => assert_eq!(title, "gone"),
        other => panic!("expected MissingData, got {:?}", other),
    }
}

#[test]
fn has_position_ignores_address() {
    assert!(record("p", Some(1), Some(2), None).has_position());
    assert!(!record("q", Some(1), None, Some("addr")).has_position());
    assert!(!record("r", None, Some(2), None).has_position());

    let with_pos = record("p", Some(5), Some(6), None);
    let coord = with_pos.position().unwrap();
    assert_eq!(coord.lat, 5);
    assert_eq!(coord.lon, 6);
    assert!(record("s", None, Some(2), Some("addr")).position().is_none());
}

#[test]
fn select_candidates_sorts_by_key_and_truncates() {
    let statues = vec![
        statue("far", 1, 1),
        statue("near", 2, 2),
        statue("middle", 3, 3),
        statue("farthest", 4, 4),
    ];
    let keys = vec![300, 10, 150, 900];
    let picked = select_candidates(statues, keys, 3).unwrap();
    let titles: Vec<&str> = picked.iter().map(|s| s.title.as_str()).collect();
    assert_eq!(titles, vec!["near", "middle", "far"]);
}

#[test]
fn select_candidates_keeps_input_order_on_ties() {
    let statues = vec![
        statue("first", 1, 1),
        statue("second", 2, 2),
        statue("third", 3, 3),
    ];
    let keys = vec![50, 50, 10];
    let picked = select_candidates(statues, keys, 3).unwrap();
    let titles: Vec<&str> = picked.iter().map(|s| s.title.as_str()).collect();
    assert_eq!(titles, vec!["third", "first", "second"]);
}

#[test]
fn select_candidates_rejects_empty_problems() {
    let empty = select_candidates(Vec::new(), Vec::new(), 25);
    assert!(matches!(empty, Err(RouteError::InvalidInput)));
    let statues = vec![statue("lonely", 1, 1)];
    let keys = vec![7];
    let none_wanted = select_candidates(statues, keys, 0);
    assert!(matches!(none_wanted, Err(RouteError::InvalidInput)));
}

#[test]
fn fixed_origins_carry_their_coordinates() {
    let gronland = gronland_tbane();
    assert_eq!(gronland.latlon().lat, 599127300);
    assert_eq!(gronland.latlon().lon, 107613900);
    assert_eq!(gronland.where_label(), "Grønland T-bane");

    let kampen_point = kampen();
    assert_eq!(kampen_point.latlon().lat, 599133400);
    assert_eq!(kampen_point.latlon().lon, 107745240);
    assert_eq!(kampen_point.where_label(), "Kampen");
}

#[test]
fn routable_node_exposes_either_coordinate() {
    let origin = NodeLatLon::StartingPoint(gronland_tbane());
    assert_eq!(origin.latlon().lat, 599127300);

    let poi = NodeLatLon::Statue(statue("statue", 42, 43));
    assert_eq!(poi.latlon().lat, 42);
    assert_eq!(poi.latlon().lon, 43);
}

#[test]
fn validate_all_of_empty_batch_is_empty() {
    assert!(validate_all(Vec::new()).is_empty());
}

#[test]
fn select_candidates_with_large_bound_keeps_everything() {
    let statues = vec![statue("b", 1, 1), statue("a", 2, 2)];
    let keys = vec![20, 10];
    let picked = select_candidates(statues, keys, 100).unwrap();
    let titles: Vec<&str> = picked.iter().map(|s| s.title.as_str()).collect();
    assert_eq!(titles, vec!["a", "b"]);
}
