use lobby_ping::batch::{ProgressCounter, SlotLimiter, MAX_IN_FLIGHT};
use lobby_ping::endpoint::{record_outcome, record_outcomes, Player, Response, Room};

fn room(name: &str, address: &[u8]) -> Room {
    Room {
        port: 24872,
        name: String::from(name),
        description: None,
        game_name: String::from("Super Smash Bros. Ultimate"),
        address: address.to_vec(),
        players: Vec::new(),
        ping: None,
    }
}

#[test]
fn response_hands_its_rooms_over() {
    let mut listed = room("lobby", b"1.2.3.4");
    listed.players.push(Player {
        nickname: String::from("guest"),
        game: String::from("Super Smash Bros. Ultimate"),
    });
    let directory = Response { rooms: vec![listed] };
    assert_eq!(directory.rooms.len(), 1);
    assert_eq!(directory.rooms[0].players.len(), 1);
    assert_eq!(directory.rooms[0].players[0].nickname, "guest");
}

#[test]
fn limiter_grants_at_most_ten_slots() {
    let mut limiter = SlotLimiter::new();
    let mut granted = 0;
    for _ in 0..25 {
        if limiter.try_acquire() {
            granted += 1;
        }
    }
    assert_eq!(granted, MAX_IN_FLIGHT);
}

#[test]
fn limiter_frees_slots_on_release() {
    let mut limiter = SlotLimiter::new();
    for _ in 0..MAX_IN_FLIGHT {
        assert!(limiter.try_acquire());
    }
    assert!(!limiter.try_acquire());
    limiter.release();
    assert!(limiter.try_acquire());
    assert!(!limiter.try_acquire());
}

#[test]
fn progress_labels_count_up() {
    let mut progress = ProgressCounter::new(3);
    assert_eq!(progress.note_started(), (0, 3));
    assert_eq!(progress.note_started(), (1, 3));
    assert_eq!(progress.note_started(), (2, 3));
}

#[test]
fn spawn_failure_leaves_latency_absent() {
    let mut endpoint = room("quiet", b"1.2.3.4");
    record_outcome(&mut endpoint, &None);
    assert_eq!(endpoint.ping, None);
    assert_eq!(endpoint.name, "quiet");
}

#[test]
fn batch_with_one_failed_spawn_still_completes() {
    let mut rooms = vec![
        room("first", b"1.2.3.4"),
        room("second", b"5.6.7.8"),
        room("third", b"9.9.9.9"),
    ];
    let outcomes: Vec<Option<Vec<u8>>> = vec![
        Some(b"reply from 1.2.3.4: time=42ms\n".to_vec()),
        None,
        Some(b"reply from 9.9.9.9: time=7ms\n".to_vec()),
    ];
    record_outcomes(&mut rooms, &outcomes);
    assert_eq!(rooms[0].ping, Some(42));
    assert_eq!(rooms[1].ping, None);
    assert_eq!(rooms[2].ping, Some(7));
}

#[test]
fn probe_output_for_wrong_address_leaves_latency_absent() {
    let mut rooms = vec![room("first", b"1.2.3.4")];
    let outcomes: Vec<Option<Vec<u8>>> = vec![Some(b"reply from 9.9.9.9: time=3ms\n".to_vec())];
    record_outcomes(&mut rooms, &outcomes);
    assert_eq!(rooms[0].ping, None);
}
