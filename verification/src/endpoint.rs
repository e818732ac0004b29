use vstd::prelude::*;
use crate::parsing::{parse, parse_post};

verus! {

/// One participant of a lobby room, as the directory lists it.
pub struct Player {
    pub nickname: String,
    pub game: String,
}

/// One discoverable endpoint: identity fields from the directory, plus the
/// latency this run measured for it, in whole milliseconds. The latency is
/// absent until a probe of this endpoint succeeds and its output yields a
/// sample.
pub struct Room {
    pub port: u32,
    pub name: String,
    pub description: Option<String>,
    pub game_name: String,
    /// The target address, as the bytes that probe output is matched against.
    pub address: Vec<u8>,
    pub players: Vec<Player>,
    pub ping: Option<u64>,
}

/// The directory service's reply: the rooms it lists.
pub struct Response {
    pub rooms: Vec<Room>,
}

/// The identity fields of two room values agree; only the measured latency
/// may differ.
pub open spec fn same_identity(a: Room, b: Room) -> bool {
    &&& a.port == b.port
    &&& a.name == b.name
    &&& a.description == b.description
    &&& a.game_name == b.game_name
    &&& a.address == b.address
    &&& a.players == b.players
}

/// Store on the endpoint the latency parsed out of a successful probe's
/// captured output, attributed to the endpoint's own address.
pub fn apply_probe_output(room: &mut Room, raw: &[u8])
    ensures
        same_identity(*old(room), *final(room)),
        parse_post(raw@, old(room).address@, final(room).ping),
{
    let p = parse(room.address.as_slice(), raw);
    room.ping = p;
}

/// Record what one probe invocation came to: parse the captured output when
/// the external tool ran, and leave the endpoint untouched when it could not
/// be spawned — a failed probe never aborts anything, the endpoint simply
/// keeps no latency.
pub fn record_outcome(room: &mut Room, outcome: &Option<Vec<u8>>)
    ensures
        same_identity(*old(room), *final(room)),
        (outcome matches Some(raw) ==> parse_post(raw@, old(room).address@, final(room).ping)),
        (outcome is None ==> *final(room) == *old(room)),
{
    match outcome {
        Some(raw) => apply_probe_output(room, raw.as_slice()),
        None => {},
    }
}

/// Record a whole batch of probe outcomes: outcome `i` belongs to endpoint
/// `i`, each endpoint gets exactly its own result, and no endpoint's failure
/// touches any other.
pub fn record_outcomes(rooms: &mut Vec<Room>, outcomes: &Vec<Option<Vec<u8>>>)
    requires
        old(rooms)@.len() == outcomes@.len(),
    ensures
        final(rooms)@.len() == old(rooms)@.len(),
        forall|i: int|
            0 <= i < old(rooms)@.len() ==> {
                &&& same_identity(old(rooms)@[i], #[trigger] final(rooms)@[i])
                &&& (outcomes@[i] matches Some(raw) ==> parse_post(
                    raw@,
                    old(rooms)@[i].address@,
                    final(rooms)@[i].ping,
                ))
                &&& (outcomes@[i] is None ==> final(rooms)@[i] == old(rooms)@[i])
            },
{
    let total = rooms.len();
    let mut i: usize = 0;
    while i < total
        invariant
            total == old(rooms)@.len() == outcomes@.len(),
            rooms@.len() == total,
            i <= total,
            forall|k: int| i <= k < total ==> rooms@[k] == old(rooms)@[k],
            forall|k: int|
                0 <= k < i ==> {
                    &&& same_identity(old(rooms)@[k], #[trigger] rooms@[k])
                    &&& (outcomes@[k] matches Some(raw) ==> parse_post(
                        raw@,
                        old(rooms)@[k].address@,
                        rooms@[k].ping,
                    ))
                    &&& (outcomes@[k] is None ==> rooms@[k] == old(rooms)@[k])
                },
        decreases total - i,
    {
        let ghost prev = rooms@;
        let mut room = rooms.remove(i);
        record_outcome(&mut room, &outcomes[i]);
        rooms.insert(i, room);
        proof {
            assert(rooms@ =~= prev.update(i as int, room));
        }
        i += 1;
    }
}

} // verus!
