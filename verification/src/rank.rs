use vstd::prelude::*;
use crate::endpoint::Room;

verus! {

broadcast use vstd::seq_lib::group_to_multiset_ensures;

/// Milliseconds that stand in for a missing latency when endpoints are
/// ordered: longer than any round trip the probe tool itself reports, so
/// unreachable endpoints sort after every measured one.
pub const ABSENT_LATENCY_MS: u64 = 1000000;

/// The sort key of a possibly missing latency: the measurement itself when
/// one is present, the sentinel otherwise.
pub open spec fn latency_key(ping: Option<u64>) -> u64 {
    match ping {
        Some(ms) => ms,
        None => ABSENT_LATENCY_MS,
    }
}

/// Executable form of `latency_key`: a missing latency counts as very high.
pub fn none_is_high(dur: &Option<u64>) -> (r: u64)
    ensures
        r == latency_key(*dur),
{
    match dur {
        Some(ms) => *ms,
        None => ABSENT_LATENCY_MS,
    }
}

/// The key an endpoint is ranked by.
pub open spec fn room_key(room: Room) -> u64 {
    latency_key(room.ping)
}

/// Ascending by latency, missing measurements counted as very high.
pub open spec fn sorted_by_latency(s: Seq<Room>) -> bool {
    forall|i: int, j: int| 0 <= i < j < s.len() ==> room_key(s[i]) <= room_key(s[j])
}

/// Order endpoints by measured latency, the unreachable ones last: the
/// result holds exactly the given rooms, ascending by `room_key`.
pub fn rank(rooms: Vec<Room>) -> (r: Vec<Room>)
    ensures
        r@.to_multiset() == rooms@.to_multiset(),
        sorted_by_latency(r@),
{
    let ghost orig = rooms@;
    let mut rest = rooms;
    let mut out: Vec<Room> = Vec::new();
    while rest.len() > 0
        invariant
            out@.to_multiset().add(rest@.to_multiset()) == orig.to_multiset(),
            sorted_by_latency(out@),
            forall|a: int, b: int|
                0 <= a < out@.len() && 0 <= b < rest@.len() ==> room_key(#[trigger] out@[a])
                    <= room_key(#[trigger] rest@[b]),
        decreases rest@.len(),
    {
        let mut m: usize = 0;
        let mut k: usize = 1;
        while k < rest.len()
            invariant
                0 < rest@.len(),
                m < k,
                k <= rest@.len(),
                forall|q: int| 0 <= q < k ==> room_key(rest@[m as int]) <= room_key(
                    #[trigger] rest@[q],
                ),
            decreases rest@.len() - k,
        {
            if none_is_high(&rest[k].ping) < none_is_high(&rest[m].ping) {
                m = k;
            }
            k += 1;
        }
        let ghost prev_rest = rest@;
        let ghost prev_out = out@;
        let room = rest.remove(m);
        out.push(room);
        proof {
            assert(prev_rest.to_multiset().count(room) > 0);
            assert(out@.to_multiset().add(rest@.to_multiset()) =~= prev_out.to_multiset().add(
                prev_rest.to_multiset(),
            ));
            assert forall|b: int| 0 <= b < rest@.len() implies room_key(room) <= room_key(
                #[trigger] rest@[b],
            ) by {
                if b < m {
                    assert(rest@[b] == prev_rest[b]);
                } else {
                    assert(rest@[b] == prev_rest[b + 1]);
                }
            }
        }
    }
    out
}

/// Whether an endpoint obtained a latency and so appears in the printed
/// ranking.
pub open spec fn has_ping(room: Room) -> bool {
    room.ping is Some
}

/// The endpoints that obtained a latency, their order kept.
pub open spec fn present_only(s: Seq<Room>) -> Seq<Room>
    decreases s.len(),
{
    if s.len() == 0 {
        Seq::empty()
    } else {
        let rest = present_only(s.drop_last());
        if has_ping(s.last()) {
            rest.push(s.last())
        } else {
            rest
        }
    }
}

/// Everything kept by `present_only` comes from the given rooms.
proof fn lemma_present_only_contained(s: Seq<Room>, x: Room)
    requires
        present_only(s).contains(x),
    ensures
        s.contains(x),
    decreases s.len(),
{
    if s.len() > 0 {
        let p = present_only(s.drop_last());
        if has_ping(s.last()) {
            let q = p.push(s.last());
            let i = choose|i: int| 0 <= i < q.len() && q[i] == x;
            if i < p.len() {
                lemma_present_only_contained(s.drop_last(), x);
                let k = choose|k: int| 0 <= k < s.drop_last().len() && s.drop_last()[k] == x;
                assert(s[k] == x);
            } else {
                assert(s[s.len() - 1] == x);
            }
        } else {
            lemma_present_only_contained(s.drop_last(), x);
            let k = choose|k: int| 0 <= k < s.drop_last().len() && s.drop_last()[k] == x;
            assert(s[k] == x);
        }
    }
}

/// The printed ranking of a sorted batch is itself sorted ascending by
/// latency, and holds only endpoints that obtained one: dropping the
/// unreachable endpoints never reorders the reachable ones.
pub proof fn lemma_display_order(s: Seq<Room>)
    requires
        sorted_by_latency(s),
    ensures
        sorted_by_latency(present_only(s)),
        forall|i: int| 0 <= i < present_only(s).len() ==> has_ping(#[trigger] present_only(s)[i]),
    decreases s.len(),
{
    if s.len() > 0 {
        let rest = s.drop_last();
        assert(sorted_by_latency(rest)) by {
            assert forall|i: int, j: int| 0 <= i < j < rest.len() implies room_key(rest[i])
                <= room_key(rest[j]) by {
                assert(rest[i] == s[i] && rest[j] == s[j]);
            }
        }
        lemma_display_order(rest);
        let p = present_only(rest);
        if has_ping(s.last()) {
            let q = p.push(s.last());
            assert forall|i: int, j: int| 0 <= i < j < q.len() implies room_key(q[i]) <= room_key(
                q[j],
            ) by {
                if j == q.len() - 1 {
                    assert(p.contains(q[i]));
                    lemma_present_only_contained(rest, q[i]);
                    let k = choose|k: int| 0 <= k < rest.len() && rest[k] == q[i];
                    assert(rest[k] == s[k]);
                    assert(room_key(s[k]) <= room_key(s[s.len() - 1]));
                }
            }
        }
    }
}

/// Keep, in order, only the endpoints that obtained a latency: endpoints
/// that never got one took part in the sort but are left out of the printed
/// ranking.
pub fn displayable(rooms: Vec<Room>) -> (r: Vec<Room>)
    ensures
        r@ == present_only(rooms@),
{
    let ghost orig = rooms@;
    let mut rest = rooms;
    let mut r: Vec<Room> = Vec::new();
    let ghost mut i: int = 0;
    while rest.len() > 0
        invariant
            0 <= i,
            i + rest@.len() == orig.len(),
            rest@ == orig.skip(i),
            r@ == present_only(orig.take(i)),
        decreases rest@.len(),
    {
        let room = rest.remove(0);
        proof {
            assert(rest@ =~= orig.skip(i + 1));
            assert(room == orig[i]);
            assert(orig.take(i + 1).drop_last() =~= orig.take(i));
            assert(orig.take(i + 1).last() == orig[i]);
        }
        if room.ping.is_some() {
            r.push(room);
        }
        proof {
            i = i + 1;
        }
    }
    proof {
        assert(orig.take(orig.len() as int) =~= orig);
    }
    r
}

} // verus!
