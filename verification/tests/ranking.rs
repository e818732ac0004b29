use lobby_ping::endpoint::Room;
use lobby_ping::rank::{displayable, none_is_high, rank, ABSENT_LATENCY_MS};

fn room(name: &str, ping: Option<u64>) -> Room {
    Room {
        port: 24872,
        name: String::from(name),
        description: Some(String::from("a lobby")),
        game_name: String::from("Super Smash Bros. Ultimate"),
        address: b"1.2.3.4".to_vec(),
        players: Vec::new(),
        ping,
    }
}

#[test]
fn none_is_high_keeps_present_values() {
    assert_eq!(none_is_high(&Some(50)), 50);
    assert_eq!(none_is_high(&Some(0)), 0);
}

#[test]
fn none_is_high_maps_absent_to_sentinel() {
    assert_eq!(none_is_high(&None), ABSENT_LATENCY_MS);
    assert!(none_is_high(&None) > 3 * 500);
}

#[test]
fn rank_orders_ascending_with_absent_last() {
    let rooms = vec![room("fifty", Some(50)), room("silent", None), room("ten", Some(10))];
    let ranked = rank(rooms);
    let names: Vec<&str> = ranked.iter().map(|r| r.name.as_str()).collect();
    assert_eq!(names, vec!["ten", "fifty", "silent"]);
}

#[test]
fn rank_keeps_every_endpoint() {
    let rooms = vec![room("a", None), room("b", Some(3)), room("c", None), room("d", Some(1))];
    let ranked = rank(rooms);
    assert_eq!(ranked.len(), 4);
    let mut names: Vec<&str> = ranked.iter().map(|r| r.name.as_str()).collect();
    names.sort();
    assert_eq!(names, vec!["a", "b", "c", "d"]);
}

#[test]
fn display_shows_best_then_worst_and_drops_absent() {
    let rooms = vec![room("fifty", Some(50)), room("silent", None), room("ten", Some(10))];
    let shown = displayable(rank(rooms));
    let pings: Vec<Option<u64>> = shown.iter().map(|r| r.ping).collect();
    assert_eq!(pings, vec![Some(10), Some(50)]);
    let names: Vec<&str> = shown.iter().map(|r| r.name.as_str()).collect();
    assert_eq!(names, vec!["ten", "fifty"]);
}

#[test]
fn display_of_all_absent_is_empty() {
    let rooms = vec![room("a", None), room("b", None)];
    let shown = displayable(rank(rooms));
    assert!(shown.is_empty());
}

#[test]
fn rank_of_empty_batch_is_empty() {
    let ranked = rank(Vec::new());
    assert!(ranked.is_empty());
    assert!(displayable(ranked).is_empty());
}

#[test]
fn display_keeps_ties_together() {
    let rooms = vec![room("x", Some(20)), room("y", Some(20)), room("z", Some(5))];
    let shown = displayable(rank(rooms));
    let pings: Vec<Option<u64>> = shown.iter().map(|r| r.ping).collect();
    assert_eq!(pings, vec![Some(5), Some(20), Some(20)]);
}
