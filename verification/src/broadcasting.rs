use vstd::prelude::*;

use crate::actions::NetIdentifier;

verus! {

/// Frames between two broadcasts of world updates.
pub const BROADCAST_FRAME_INTERVAL: u64 = 5;

/// A world update computed by the server for one frame.
pub struct ServerWorldUpdate<U> {
    pub frame_number: u64,
    pub data: U,
}

/// World updates waiting to be broadcast, each with its update number, oldest
/// first.
pub struct ServerWorldUpdates<U> {
    pub updates: Vec<(u64, ServerWorldUpdate<U>)>,
}

/// The update number and frame number of each queued world update.
pub open spec fn update_keys<U>(updates: Seq<(u64, ServerWorldUpdate<U>)>) -> Seq<(u64, u64)> {
    updates.map_values(|u: (u64, ServerWorldUpdate<U>)| (u.0, u.1.frame_number))
}

/// Whether update number `id` is newer than the last update a client
/// acknowledged (every update is, when it acknowledged none).
pub open spec fn is_unacknowledged(id: u64, last_acknowledged_update: Option<u64>) -> bool {
    match last_acknowledged_update {
        Some(ack) => id > ack,
        None => true,
    }
}

/// Whether the update at position `j` of `keys` is sent to a client that last
/// acknowledged `ack`: it and every later update are unacknowledged, and its
/// frame is older than the frame of every later update (a repeated or
/// out-of-order frame is sent once, in its latest update).
pub open spec fn is_sent(keys: Seq<(u64, u64)>, ack: Option<u64>, j: int) -> bool {
    &&& 0 <= j < keys.len()
    &&& forall|k: int| j <= k < keys.len() ==> is_unacknowledged((#[trigger] keys[k]).0, ack)
    &&& forall|k: int| j < k < keys.len() ==> keys[j].1 < (#[trigger] keys[k]).1
}

/// `sent` lists, oldest first, exactly the positions of the updates of `keys`
/// that are sent to a client that last acknowledged `ack`.
pub open spec fn sends_exactly(keys: Seq<(u64, u64)>, ack: Option<u64>, sent: Seq<usize>) -> bool {
    &&& forall|i: int| 0 <= i < sent.len() ==> is_sent(keys, ack, #[trigger] sent[i] as int)
    &&& forall|j: int| is_sent(keys, ack, j) ==> exists|i: int| 0 <= i < sent.len() && sent[i] == j
    &&& forall|i: int, i2: int| 0 <= i < i2 < sent.len() ==> sent[i] < sent[i2]
}

/// The positions, oldest first, of the queued world updates that a client
/// that last acknowledged `last_acknowledged_update` needs: the updates after
/// the last acknowledged one, one per frame.
pub fn updates_to_send<U>(
    updates: &Vec<(u64, ServerWorldUpdate<U>)>,
    last_acknowledged_update: Option<u64>,
) -> (sent: Vec<usize>)
    ensures
        sends_exactly(update_keys(updates@), last_acknowledged_update, sent@),
        forall|i: int, i2: int| 0 <= i < i2 < sent@.len() ==>
            updates@[sent@[i] as int].1.frame_number < updates@[sent@[i2] as int].1.frame_number,
{
    let ghost keys = update_keys(updates@);
    let n = updates.len();
    // Scanned from the newest update back; `reversed` holds the sent
    // positions newest first.
    let mut reversed: Vec<usize> = Vec::new();
    let mut oldest_added_frame: Option<u64> = None;
    let mut j: usize = n;
    let mut done = false;
    while j > 0 && !done
        invariant
            done ==> forall|m: int| 0 <= m < j ==> !is_sent(keys, last_acknowledged_update, m),
            n == keys.len(),
            keys == update_keys(updates@),
            j <= n,
            forall|k: int| j <= k < n ==> is_unacknowledged((#[trigger] keys[k]).0, last_acknowledged_update),
            match oldest_added_frame {
                None => j == n,
                Some(f) => j < n && (forall|k: int| j <= k < n ==> f <= (#[trigger] keys[k]).1)
                    && exists|k: int| j <= k < n && (#[trigger] keys[k]).1 == f,
            },
            forall|i: int| 0 <= i < reversed@.len() ==> j <= #[trigger] reversed@[i] < n,
            forall|i: int, i2: int| 0 <= i < i2 < reversed@.len() ==> reversed@[i] > reversed@[i2],
            forall|i: int| 0 <= i < reversed@.len() ==> is_sent(keys, last_acknowledged_update, #[trigger] reversed@[i] as int),
            forall|k: int| j <= k < n && is_sent(keys, last_acknowledged_update, k) ==>
                exists|i: int| 0 <= i < reversed@.len() && reversed@[i] == k,
        decreases j, (if done { 0int } else { 1int }),
    {
        let ghost reversed0 = reversed@;
        let k = j - 1;
        let id = updates[k].0;
        let unacknowledged = match last_acknowledged_update {
            Some(ack) => id > ack,
            None => true,
        };
        if !unacknowledged {
            proof {
                assert forall|m: int| 0 <= m < j implies !is_sent(keys, last_acknowledged_update, m) by {
                    if is_sent(keys, last_acknowledged_update, m) {
                        assert(is_unacknowledged(keys[k as int].0, last_acknowledged_update));
                    }
                }
            }
            done = true;
        } else {
        let frame = updates[k].1.frame_number;
        let newer = match oldest_added_frame {
            Some(f) => frame < f,
            None => true,
        };
        if newer {
            proof {
                assert(is_sent(keys, last_acknowledged_update, k as int));
            }
            reversed.push(k);
            oldest_added_frame = Some(frame);
        } else {
            proof {
                let f = oldest_added_frame.unwrap();
                let w = choose|w: int| j <= w < n && (#[trigger] keys[w]).1 == f;
                assert(!is_sent(keys, last_acknowledged_update, k as int));
            }
        }
        proof {
            assert forall|m: int| k <= m < n && is_sent(keys, last_acknowledged_update, m) implies
                exists|i: int| 0 <= i < reversed@.len() && reversed@[i] == m by {
                if m == k {
                    assert(reversed@[reversed@.len() - 1] == m);
                } else {
                    let w = choose|w: int| 0 <= w < reversed0.len() && reversed0[w] == m;
                    assert(reversed@[w] == m);
                }
            }
        }
        j = k;
        }
    }
    proof {
        assert forall|m: int| is_sent(keys, last_acknowledged_update, m) implies
            exists|i: int| 0 <= i < reversed@.len() && reversed@[i] == m by {
            assert(0 <= m);
        }
    }
    let mut sent: Vec<usize> = Vec::new();
    let r = reversed.len();
    let mut i: usize = r;
    while i > 0
        invariant
            i <= r,
            r == reversed@.len(),
            sent@.len() == r - i,
            forall|t: int| 0 <= t < sent@.len() ==> sent@[t] == reversed@[r - 1 - t],
        decreases i,
    {
        i = i - 1;
        sent.push(reversed[i]);
    }
    proof {
        assert forall|m: int| is_sent(keys, last_acknowledged_update, m) implies
            exists|t: int| 0 <= t < sent@.len() && sent@[t] == m by {
            let w = choose|w: int| 0 <= w < reversed@.len() && reversed@[w] == m;
            assert(sent@[r - 1 - w] == m);
        }
        assert forall|t: int, t2: int| 0 <= t < t2 < sent@.len() implies
            updates@[sent@[t] as int].1.frame_number < updates@[sent@[t2] as int].1.frame_number by {
            assert(is_sent(keys, last_acknowledged_update, sent@[t] as int));
            assert(keys[sent@[t2] as int].1 == updates@[sent@[t2] as int].1.frame_number);
        }
    }
    sent
}

/// Frames from `since` to `now`, counted modulo 2^64.
pub open spec fn wrapping_frames_since(now: u64, since: u64) -> u64 {
    (if now >= since { now - since } else { now - since + 0x1_0000_0000_0000_0000 }) as u64
}

/// Whether world updates are broadcast at frame `game_frame_number`, when they
/// were last broadcast at `last_broadcasted_frame`.
pub open spec fn is_time_to_broadcast(game_frame_number: u64, last_broadcasted_frame: u64) -> bool {
    wrapping_frames_since(game_frame_number, last_broadcasted_frame) > BROADCAST_FRAME_INTERVAL
}

/// What the server sends at a broadcast: to the `i`-th connection, an
/// `UpdateWorld` message numbered `id` with the updates of `updates` at the
/// positions `recipients[i]`, in that order.
pub struct WorldUpdatesBroadcast<U> {
    pub id: u64,
    pub updates: Vec<(u64, ServerWorldUpdate<U>)>,
    pub recipients: Vec<Vec<usize>>,
}

/// Sends the queued world updates to the clients every few frames while a
/// multiplayer game runs.
pub struct GameUpdatesBroadcastingSystem;

impl Default for GameUpdatesBroadcastingSystem {
    fn default() -> (res: Self)
        ensures
            res == GameUpdatesBroadcastingSystem,
    {
        GameUpdatesBroadcastingSystem
    }
}

impl GameUpdatesBroadcastingSystem {
    pub fn new() -> (res: Self)
        ensures
            res == GameUpdatesBroadcastingSystem,
    {
        GameUpdatesBroadcastingSystem
    }

    /// At a broadcast frame of a running multiplayer game, takes every queued
    /// world update out of `server_world_updates`, records the broadcast frame,
    /// and returns, for each client (given by the last update it
    /// acknowledged), the updates it needs, numbered after the latest queued
    /// update. Otherwise changes nothing and returns `None`.
    pub fn run<U>(
        &mut self,
        multiplayer_is_running: bool,
        game_frame_number: u64,
        last_broadcasted_frame: &mut u64,
        server_world_updates: &mut ServerWorldUpdates<U>,
        last_acknowledged_updates: &Vec<Option<u64>>,
    ) -> (res: Option<WorldUpdatesBroadcast<U>>)
        requires
            multiplayer_is_running && is_time_to_broadcast(game_frame_number, *old(last_broadcasted_frame)) ==> {
                &&& old(server_world_updates).updates@.len() > 0
                &&& old(server_world_updates).updates@.last().1.frame_number < u64::MAX
            },
        ensures
            !(multiplayer_is_running && is_time_to_broadcast(game_frame_number, *old(last_broadcasted_frame))) ==> {
                &&& res is None
                &&& *final(last_broadcasted_frame) == *old(last_broadcasted_frame)
                &&& final(server_world_updates).updates@ == old(server_world_updates).updates@
            },
            multiplayer_is_running && is_time_to_broadcast(game_frame_number, *old(last_broadcasted_frame)) ==> {
                &&& res is Some
                &&& *final(last_broadcasted_frame) == game_frame_number
                &&& final(server_world_updates).updates@ == Seq::<(u64, ServerWorldUpdate<U>)>::empty()
                &&& res->0.id == old(server_world_updates).updates@.last().0
                &&& res->0.updates@ == old(server_world_updates).updates@
                &&& res->0.recipients@.len() == last_acknowledged_updates@.len()
                &&& forall|i: int| 0 <= i < last_acknowledged_updates@.len() ==> sends_exactly(
                    update_keys(old(server_world_updates).updates@),
                    last_acknowledged_updates@[i],
                    (#[trigger] res->0.recipients@[i])@,
                )
            },
    {
        if !multiplayer_is_running {
            return None;
        }
        let is_time_to_broadcast = game_frame_number.wrapping_sub(*last_broadcasted_frame) > BROADCAST_FRAME_INTERVAL;
        if !is_time_to_broadcast {
            return None;
        }
        *last_broadcasted_frame = game_frame_number;
        let n = server_world_updates.updates.len();
        let latest_update_number = server_world_updates.updates[n - 1].0;
        let mut recipients: Vec<Vec<usize>> = Vec::new();
        let mut i: usize = 0;
        while i < last_acknowledged_updates.len()
            invariant
                i <= last_acknowledged_updates@.len(),
                recipients@.len() == i,
                forall|t: int| 0 <= t < i ==> sends_exactly(
                    update_keys(server_world_updates.updates@),
                    last_acknowledged_updates@[t],
                    (#[trigger] recipients@[t])@,
                ),
            decreases last_acknowledged_updates@.len() - i,
        {
            recipients.push(updates_to_send(&server_world_updates.updates, last_acknowledged_updates[i]));
            i = i + 1;
        }
        let mut updates: Vec<(u64, ServerWorldUpdate<U>)> = Vec::new();
        std::mem::swap(&mut updates, &mut server_world_updates.updates);
        Some(WorldUpdatesBroadcast { id: latest_update_number, updates, recipients })
    }
}

/// A client that has not acknowledged the latest queued update is always sent
/// it; a client that has acknowledged it is sent nothing.
pub proof fn lemma_latest_update_decides(keys: Seq<(u64, u64)>, ack: Option<u64>)
    requires
        keys.len() > 0,
    ensures
        is_sent(keys, ack, keys.len() - 1) == is_unacknowledged(keys.last().0, ack),
        !is_unacknowledged(keys.last().0, ack) ==> forall|j: int| !is_sent(keys, ack, j),
{
    assert forall|j: int| !is_unacknowledged(keys.last().0, ack) implies !is_sent(keys, ack, j) by {
        if is_sent(keys, ack, j) {
            assert(is_unacknowledged(keys[keys.len() - 1].0, ack));
        }
    }
}

/// Right after a broadcast, the next one is not due in the same frame.
pub proof fn lemma_no_broadcast_twice_in_a_frame(game_frame_number: u64)
    ensures
        !is_time_to_broadcast(game_frame_number, game_frame_number),
{
}


/// When update numbers and frames both increase along the queue, a client is
/// sent exactly the updates numbered after the last one it acknowledged (all
/// of them, when it acknowledged none).
pub proof fn lemma_sent_updates_follow_acknowledgement(keys: Seq<(u64, u64)>, ack: Option<u64>)
    requires
        forall|i: int, j: int| 0 <= i < j < keys.len() ==> (#[trigger] keys[i]).0 < (#[trigger] keys[j]).0 && keys[i].1
            < keys[j].1,
    ensures
        forall|j: int| 0 <= j < keys.len() ==> (is_sent(keys, ack, j) <==> match ack {
            Some(a) => (#[trigger] keys[j]).0 > a,
            None => true,
        }),
{
    assert forall|j: int| 0 <= j < keys.len() implies (is_sent(keys, ack, j) <==> match ack {
        Some(a) => (#[trigger] keys[j]).0 > a,
        None => true,
    }) by {
        assert forall|k: int| j < k < keys.len() implies keys[j].1 < (#[trigger] keys[k]).1 by {
            assert(keys[j].1 < keys[k].1);
        }
        assert forall|k: int| j <= k < keys.len() && (match ack {
            Some(a) => keys[j].0 > a,
            None => true,
        }) implies is_unacknowledged((#[trigger] keys[k]).0, ack) by {
            if k > j {
                assert(keys[j].0 < keys[k].0);
            }
        }
    }
}

/// While frames only move forward, world updates are broadcast exactly when
/// more than `BROADCAST_FRAME_INTERVAL` frames passed since the last
/// broadcast.
pub proof fn lemma_broadcast_interval(game_frame_number: u64, last_broadcasted_frame: u64)
    requires
        last_broadcasted_frame <= game_frame_number,
    ensures
        is_time_to_broadcast(game_frame_number, last_broadcasted_frame) <==> game_frame_number
            - last_broadcasted_frame > BROADCAST_FRAME_INTERVAL,
{
}

} // verus!
