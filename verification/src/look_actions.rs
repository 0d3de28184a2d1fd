use vstd::prelude::*;

use crate::actions::{
    contains_entity, first_entity_index, ActionNotApplicable, NetUpdate, PlayerLookActionUpdates, LAG_COMPENSATION_FRAMES_LIMIT};
use crate::cast_actions::oldest_possible_frame;
use crate::framed_updates::{first_index_from, reserved_frames, with_look, FrameView, FramedUpdates};

verus! {

/// `look` after storing `update`: it replaces the first look action of the
/// same entity, or is appended when there is none.
pub open spec fn upsert_look<L>(look: Seq<NetUpdate<L>>, update: NetUpdate<L>) -> Seq<NetUpdate<L>> {
    if contains_entity(look, update.entity_net_id) {
        look.update(first_entity_index(look, update.entity_net_id), update)
    } else {
        look.push(update)
    }
}

/// `look` after storing each of `updates`, one after the other.
pub open spec fn upsert_looks<L>(look: Seq<NetUpdate<L>>, updates: Seq<NetUpdate<L>>) -> Seq<NetUpdate<L>>
    decreases updates.len(),
{
    if updates.len() == 0 {
        look
    } else {
        upsert_look(upsert_looks(look, updates.drop_last()), updates.last())
    }
}

/// The latest frame among the entries of `entries` that hold a look action.
pub open spec fn latest_look_frame<L>(entries: Seq<(u64, Seq<NetUpdate<L>>)>) -> Option<u64>
    decreases entries.len(),
{
    if entries.len() == 0 {
        None
    } else {
        let rest = latest_look_frame(entries.drop_last());
        let last = entries.last();
        if last.1.len() == 0 {
            rest
        } else {
            match rest {
                Some(f) => if last.0 >= f { Some(last.0) } else { Some(f) },
                None => Some(last.0),
            }
        }
    }
}

/// The frames held once the frame of the latest look action is reserved.
pub open spec fn look_reserved_frames<W, L, C>(
    frames: Seq<FrameView<W, L, C>>,
    entries: Seq<(u64, Seq<NetUpdate<L>>)>,
) -> Seq<FrameView<W, L, C>> {
    match latest_look_frame(entries) {
        Some(f) => reserved_frames(frames, f),
        None => frames,
    }
}

/// What adding look actions acts on: the frames, the position of the next
/// frame to consider, the oldest updated frame, and whether adding stopped.
pub struct LookState<W, L, C> {
    pub frames: Seq<FrameView<W, L, C>>,
    pub cursor: int,
    pub oldest_updated_frame: u64,
    pub stopped: bool,
}

/// The position that the look actions of frame `update_frame` go to, when
/// the next frame to consider is at `st.cursor`; `None` when that frame is not
/// held from there on, which stops adding.
///
/// Actions older than the oldest frame that can still change go to the next
/// frame to consider.
pub open spec fn look_target<W, L, C>(st: LookState<W, L, C>, update_frame: u64, oldest_possible: u64) -> Option<int> {
    if update_frame >= oldest_possible {
        if st.frames[st.cursor].frame_number <= update_frame && update_frame < st.frames[0].frame_number
            + st.frames.len() {
            Some(update_frame - st.frames[0].frame_number)
        } else {
            None
        }
    } else {
        Some(st.cursor)
    }
}

/// The look actions of one frame.
pub open spec fn look_step<W, L, C>(
    st: LookState<W, L, C>,
    entry: (u64, Seq<NetUpdate<L>>),
    oldest_possible: u64,
) -> LookState<W, L, C> {
    if st.stopped {
        st
    } else {
        match look_target(st, entry.0, oldest_possible) {
            None => LookState { cursor: st.frames.len() as int, stopped: true, ..st },
            Some(k) => {
                let f = st.frames[k];
                LookState {
                    frames: st.frames.update(k, with_look(f, upsert_looks(f.look, entry.1))),
                    cursor: k + 1,
                    oldest_updated_frame: if entry.1.len() > 0 && f.frame_number < st.oldest_updated_frame {
                        f.frame_number
                    } else {
                        st.oldest_updated_frame
                    },
                    stopped: false,
                }
            },
        }
    }
}

pub open spec fn look_run<W, L, C>(
    st: LookState<W, L, C>,
    entries: Seq<(u64, Seq<NetUpdate<L>>)>,
    oldest_possible: u64,
) -> LookState<W, L, C>
    decreases entries.len(),
{
    if entries.len() == 0 {
        st
    } else {
        look_step(look_run(st, entries.drop_last(), oldest_possible), entries.last(), oldest_possible)
    }
}

/// Adding the look actions of each frame needs a frame left to consider.
pub open spec fn look_run_returns<W, L, C>(
    st: LookState<W, L, C>,
    entries: Seq<(u64, Seq<NetUpdate<L>>)>,
    oldest_possible: u64,
) -> bool
    decreases entries.len(),
{
    entries.len() == 0 || (look_run_returns(st, entries.drop_last(), oldest_possible) && {
        let s = look_run(st, entries.drop_last(), oldest_possible);
        s.stopped || s.cursor < s.frames.len()
    })
}

/// The look action entries of `actions` as plain sequences.
pub open spec fn look_entries<L>(actions: PlayerLookActionUpdates<L>) -> Seq<(u64, Seq<NetUpdate<L>>)> {
    actions.updates@.map_values(|e: (u64, Vec<NetUpdate<L>>)| (e.0, e.1@))
}

/// Where adding look actions starts from: the frames with the frame of the
/// latest look action reserved, the first frame that can still change, and
/// the oldest updated frame.
pub open spec fn look_start_from<W, L, C>(
    frames: Seq<FrameView<W, L, C>>,
    oldest_updated_frame: u64,
    actions: PlayerLookActionUpdates<L>,
    frame_number: u64,
) -> LookState<W, L, C> {
    let frames = look_reserved_frames(frames, look_entries(actions));
    LookState {
        frames,
        cursor: first_index_from(frames, oldest_possible_frame(frame_number)),
        oldest_updated_frame,
        stopped: false,
    }
}

pub open spec fn look_start<W, L, C>(
    framed_updates: FramedUpdates<W, L, C>,
    actions: PlayerLookActionUpdates<L>,
    frame_number: u64,
) -> LookState<W, L, C> {
    look_start_from(framed_updates.frames(), framed_updates.oldest_updated_frame, actions, frame_number)
}

fn compute_latest_look_frame<L>(actions: &PlayerLookActionUpdates<L>) -> (res: Option<u64>)
    ensures
        res == latest_look_frame(look_entries(*actions)),
{
    let ghost entries = look_entries(*actions);
    let mut res: Option<u64> = None;
    let mut i: usize = 0;
    while i < actions.updates.len()
        invariant
            i <= actions.updates@.len(),
            entries == look_entries(*actions),
            res == latest_look_frame(entries.take(i as int)),
        decreases actions.updates@.len() - i,
    {
        assert(entries.take(i + 1).drop_last() =~= entries.take(i as int));
        assert(entries.take(i + 1).last() == entries[i as int]);
        let frame = actions.updates[i].0;
        if actions.updates[i].1.len() > 0 {
            res = match res {
                Some(f) => if frame >= f { Some(frame) } else { Some(f) },
                None => Some(frame),
            };
        }
        i = i + 1;
    }
    assert(entries.take(i as int) =~= entries);
    res
}

fn upsert_look_updates<W, L, C>(framed_updates: &mut FramedUpdates<W, L, C>, k: usize, updates: Vec<NetUpdate<L>>)
    requires
        k < old(framed_updates).frames().len(),
    ensures
        final(framed_updates).frames() == old(framed_updates).frames().update(
            k as int,
            with_look(old(framed_updates).frames()[k as int], upsert_looks(old(framed_updates).frames()[k as int].look, updates@)),
        ),
        final(framed_updates).oldest_updated_frame == old(framed_updates).oldest_updated_frame,
{
    let ghost frames0 = framed_updates.frames();
    let ghost all = updates@;
    for update in it: updates.into_iter()
        invariant
            all == it.seq(),
            k < frames0.len(),
            framed_updates.oldest_updated_frame == old(framed_updates).oldest_updated_frame,
            framed_updates.frames() == frames0.update(
                k as int,
                with_look(frames0[k as int], upsert_looks(frames0[k as int].look, all.take(it.index() as int))),
            ),
    {
        let ghost idx = it.index() as int;
        assert(all.take(idx + 1).drop_last() =~= all.take(idx));
        assert(all.take(idx + 1).last() == update);
        match framed_updates.look_position(k, update.entity_net_id) {
            Some(i) => framed_updates.set_look(k, i, update),
            None => framed_updates.push_look(k, update),
        }
        assert(framed_updates.frames() =~= frames0.update(
            k as int,
            with_look(frames0[k as int], upsert_looks(frames0[k as int].look, all.take(idx + 1))),
        ));
    }
    assert(all.take(all.len() as int) =~= all);
}

/// Adds look actions, grouped by the frame they were taken at, when the server
/// is at frame `frame_number`.
///
/// The frame of the latest look action is reserved first. The groups then go
/// to frames in turn, from the oldest frame that can still change: a group of
/// a frame that can still change goes to that frame, found among the frames
/// after the previous group's; an older group goes to the next frame. A look
/// action replaces the stored one of its entity in that frame. Adding stops
/// when a group's frame is not found.
///
/// As long as each group has a frame left to go to; at the first that has
/// none, stops and reports its position, with the groups before it added.
pub fn try_add_look_actions<W, L, C>(
    framed_updates: &mut FramedUpdates<W, L, C>,
    actions: PlayerLookActionUpdates<L>,
    frame_number: u64,
) -> (res: Result<(), ActionNotApplicable>)
    requires
        old(framed_updates).well_formed(),
    ensures
        final(framed_updates).well_formed(),
        ({
            let start = look_start(*old(framed_updates), actions, frame_number);
            let entries = look_entries(actions);
            let op = oldest_possible_frame(frame_number);
            match res {
                Ok(()) => {
                    let res = look_run(start, entries, op);
                    &&& look_run_returns(start, entries, op)
                    &&& final(framed_updates).frames() == res.frames
                    &&& final(framed_updates).oldest_updated_frame == res.oldest_updated_frame
                },
                Err(e) => {
                    let n = e.index as int;
                    let s = look_run(start, entries.take(n), op);
                    &&& n < entries.len()
                    &&& look_run_returns(start, entries.take(n), op)
                    &&& !s.stopped && s.cursor >= s.frames.len()
                    &&& !look_run_returns(start, entries, op)
                    &&& final(framed_updates).frames() == s.frames
                },
            }
        }),
{
    let ghost entries = look_entries(actions);
    let ghost init = look_start(*framed_updates, actions, frame_number);
    let frame_to_reserve = compute_latest_look_frame(&actions);
    if let Some(frame_to_reserve) = frame_to_reserve {
        framed_updates.reserve_updates(frame_to_reserve);
    }
    assert(framed_updates.frames() == init.frames);
    let mut oldest_updated_frame = framed_updates.oldest_updated_frame;
    let oldest_possible_frame = frame_number.saturating_sub(LAG_COMPENSATION_FRAMES_LIMIT);
    let n = framed_updates.len();
    // Position of the first frame that can still change.
    let mut cursor: usize = 0;
    while cursor < n && framed_updates.frame_number_at(cursor) < oldest_possible_frame
        invariant
            cursor <= n,
            n == framed_updates.frames().len(),
            framed_updates.well_formed(),
            forall|j: int| 0 <= j < cursor ==> (#[trigger] framed_updates.frames()[j]).frame_number < oldest_possible_frame,
        decreases n - cursor,
    {
        cursor = cursor + 1;
    }
    proof {
        let fs = framed_updates.frames();
        if fs.len() > 0 {
            if cursor < n {
                assert(fs[cursor as int].frame_number == fs[0].frame_number + cursor);
                if cursor > 0 {
                    assert(fs[cursor - 1].frame_number == fs[0].frame_number + cursor - 1);
                }
            } else {
                assert(fs[n - 1].frame_number == fs[0].frame_number + n - 1);
            }
        }
    }
    assert(cursor == init.cursor);
    let mut stopped = false;
    let ghost all = actions.updates@;
    let entries_len = actions.updates.len();
    let mut index: usize = 0;
    for entry in it: actions.updates.into_iter()
        invariant
            all == it.seq(),
            all.len() == entries_len,
            index == it.index(),
            init == look_start(*old(framed_updates), actions, frame_number),
            entries == look_entries(actions),
            entries == all.map_values(|e: (u64, Vec<NetUpdate<L>>)| (e.0, e.1@)),
            oldest_possible_frame == crate::cast_actions::oldest_possible_frame(frame_number),
            framed_updates.well_formed(),
            n == framed_updates.frames().len(),
            look_run_returns(init, entries.take(it.index() as int), oldest_possible_frame),
            ({
                let s = look_run(init, entries.take(it.index() as int), oldest_possible_frame);
                &&& framed_updates.frames() == s.frames
                &&& cursor == s.cursor
                &&& oldest_updated_frame == s.oldest_updated_frame
                &&& stopped == s.stopped
                &&& 0 <= s.cursor <= s.frames.len()
            }),
    {
        let ghost idx = it.index() as int;
        proof {
            assert(idx < all.len());
            assert(entries.take(idx + 1).drop_last() =~= entries.take(idx));
            assert(entries.take(idx + 1).last() == entries[idx]);
        }
        if !stopped && cursor >= n {
            proof {
                lemma_look_run_returns_extends(init, entries, oldest_possible_frame, idx);
            }
            return Err(ActionNotApplicable { index });
        }
        let (update_frame_number, updates) = entry;
        assert(entries[idx] == (update_frame_number, updates@));
        if !stopped {
            let ghost fs = framed_updates.frames();
            let ghost k0 = cursor as int;
            let mut k = cursor;
            cursor = cursor + 1;
            if update_frame_number >= oldest_possible_frame {
                while !stopped && framed_updates.frame_number_at(k) != update_frame_number
                    invariant
                        framed_updates.frames() == fs,
                        framed_updates.well_formed(),
                        n == fs.len(),
                        k0 <= k < n,
                        cursor == k + 1,
                        stopped ==> cursor == n,
                        forall|j: int| k0 <= j < k ==> (#[trigger] fs[j]).frame_number != update_frame_number,
                        stopped ==> fs[k as int].frame_number != update_frame_number,
                    decreases n - cursor + (if stopped { 0int } else { 1int }),
                {
                    if cursor < n {
                        k = cursor;
                        cursor = cursor + 1;
                    } else {
                        stopped = true;
                    }
                }
                proof {
                    assert(fs[k0].frame_number == fs[0].frame_number + k0);
                    assert(fs[k as int].frame_number == fs[0].frame_number + k);
                    if stopped {
                        assert(fs[n - 1].frame_number == fs[0].frame_number + n - 1);
                        if fs[k0].frame_number <= update_frame_number && update_frame_number < fs[0].frame_number + n {
                            let j = update_frame_number - fs[0].frame_number;
                            assert(fs[j].frame_number == fs[0].frame_number + j);
                        }
                    }
                }
            }
            if !stopped {
                if updates.len() > 0 {
                    let frame = framed_updates.frame_number_at(k);
                    if frame < oldest_updated_frame {
                        oldest_updated_frame = frame;
                    }
                }
                upsert_look_updates(framed_updates, k, updates);
                proof {
                    let after = framed_updates.frames();
                    assert forall|j: int| 0 <= j < after.len() implies
                        (#[trigger] after[j]).frame_number == after[0].frame_number + j by {
                        assert(fs[j].frame_number == fs[0].frame_number + j);
                    }
                }
            }
        }
        index = index + 1;
    }
    assert(entries.take(entries.len() as int) =~= entries);
    framed_updates.oldest_updated_frame = oldest_updated_frame;
    Ok(())
}

/// Adds look actions, grouped by the frame they were taken at, when the server
/// is at frame `frame_number`, as `try_add_look_actions` does; every group has
/// a frame left to go to.
pub fn add_look_actions<W, L, C>(
    framed_updates: &mut FramedUpdates<W, L, C>,
    actions: PlayerLookActionUpdates<L>,
    frame_number: u64,
)
    requires
        old(framed_updates).well_formed(),
        look_run_returns(
            look_start(*old(framed_updates), actions, frame_number),
            look_entries(actions),
            oldest_possible_frame(frame_number),
        ),
    ensures
        final(framed_updates).well_formed(),
        ({
            let res = look_run(
                look_start(*old(framed_updates), actions, frame_number),
                look_entries(actions),
                oldest_possible_frame(frame_number),
            );
            &&& final(framed_updates).frames() == res.frames
            &&& final(framed_updates).oldest_updated_frame == res.oldest_updated_frame
        }),
{
    match try_add_look_actions(framed_updates, actions, frame_number) {
        Ok(()) => {},
        Err(_) => {
            proof {
                assert(false);
            }
        },
    }
}

proof fn lemma_look_run_returns_extends<W, L, C>(
    st: LookState<W, L, C>,
    entries: Seq<(u64, Seq<NetUpdate<L>>)>,
    oldest_possible: u64,
    n: int,
)
    requires
        0 <= n < entries.len(),
        ({
            let s = look_run(st, entries.take(n), oldest_possible);
            !s.stopped && s.cursor >= s.frames.len()
        }),
    ensures
        !look_run_returns(st, entries, oldest_possible),
    decreases entries.len(),
{
    if n == entries.len() - 1 {
        assert(entries.take(n) =~= entries.drop_last());
    } else {
        assert(entries.drop_last().take(n) =~= entries.take(n));
        lemma_look_run_returns_extends(st, entries.drop_last(), oldest_possible, n);
    }
}

/// No two updates of `updates` concern the same entity.
pub open spec fn unique_entities<T>(updates: Seq<NetUpdate<T>>) -> bool {
    forall|i: int, j: int|
        0 <= i < j < updates.len() ==> (#[trigger] updates[i]).entity_net_id != (#[trigger] updates[j]).entity_net_id
}

/// The update at position `i` is the last one of its entity in `updates`.
pub open spec fn is_latest_of_entity<T>(updates: Seq<NetUpdate<T>>, i: int) -> bool {
    &&& 0 <= i < updates.len()
    &&& forall|j: int| i < j < updates.len() ==> (#[trigger] updates[j]).entity_net_id != updates[i].entity_net_id
}

proof fn lemma_upsert_look<L>(look: Seq<NetUpdate<L>>, update: NetUpdate<L>)
    requires
        unique_entities(look),
    ensures
        unique_entities(upsert_look(look, update)),
        upsert_look(look, update).contains(update),
        forall|i: int| 0 <= i < look.len() && look[i].entity_net_id != update.entity_net_id
            ==> upsert_look(look, update).contains(#[trigger] look[i]),
{
    let res = upsert_look(look, update);
    if contains_entity(look, update.entity_net_id) {
        let w = choose|w: int| 0 <= w < look.len() && (#[trigger] look[w]).entity_net_id == update.entity_net_id;
        let p = first_entity_index(look, update.entity_net_id);
        assert(crate::actions::is_first_entity_index(look, update.entity_net_id, p)) by {
            if forall|j: int| 0 <= j < w ==> (#[trigger] look[j]).entity_net_id != update.entity_net_id {
                assert(crate::actions::is_first_entity_index(look, update.entity_net_id, w));
            } else {
                let j = choose|j: int| 0 <= j < w && (#[trigger] look[j]).entity_net_id == update.entity_net_id;
                assert(crate::actions::is_first_entity_index(look, update.entity_net_id, j));
            }
        }
        assert(res[p] == update);
        assert forall|i: int| 0 <= i < look.len() && look[i].entity_net_id != update.entity_net_id implies
            res.contains(#[trigger] look[i]) by {
            assert(i != p);
            assert(res[i] == look[i]);
        }
        assert forall|i: int, j: int| 0 <= i < j < res.len() implies
            (#[trigger] res[i]).entity_net_id != (#[trigger] res[j]).entity_net_id by {
            if i == p {
                assert(look[j].entity_net_id != look[p].entity_net_id);
            } else if j == p {
                assert(look[i].entity_net_id != look[p].entity_net_id);
            }
        }
    } else {
        assert(res[look.len() as int] == update);
        assert forall|i: int| 0 <= i < look.len() && look[i].entity_net_id != update.entity_net_id implies
            res.contains(#[trigger] look[i]) by {
            assert(res[i] == look[i]);
        }
        assert forall|i: int, j: int| 0 <= i < j < res.len() implies
            (#[trigger] res[i]).entity_net_id != (#[trigger] res[j]).entity_net_id by {
            if j == look.len() {
                assert(res[i] == look[i]);
                assert(look[i].entity_net_id != update.entity_net_id);
            }
        }
    }
}

/// Storing look actions keeps at most one look action per entity in a frame,
/// and the frame then holds the latest received look action of each entity.
pub proof fn lemma_upsert_looks<L>(look: Seq<NetUpdate<L>>, updates: Seq<NetUpdate<L>>)
    requires
        unique_entities(look),
    ensures
        unique_entities(upsert_looks(look, updates)),
        forall|i: int| is_latest_of_entity(updates, i) ==> upsert_looks(look, updates).contains(#[trigger] updates[i]),
    decreases updates.len(),
{
    if updates.len() > 0 {
        let rest = updates.drop_last();
        let u = updates.last();
        lemma_upsert_looks(look, rest);
        let mid = upsert_looks(look, rest);
        lemma_upsert_look(mid, u);
        assert forall|i: int| is_latest_of_entity(updates, i) implies
            upsert_looks(look, updates).contains(#[trigger] updates[i]) by {
            if i < updates.len() - 1 {
                assert(is_latest_of_entity(rest, i));
                assert(mid.contains(rest[i]));
                let w = choose|w: int| 0 <= w < mid.len() && mid[w] == rest[i];
                assert(updates[updates.len() - 1].entity_net_id != updates[i].entity_net_id);
                assert(mid[w].entity_net_id != u.entity_net_id);
            }
        }
    }
}

/// Every frame holds at most one look action per entity.
pub open spec fn looks_unique<W, L, C>(frames: Seq<FrameView<W, L, C>>) -> bool {
    forall|k: int| 0 <= k < frames.len() ==> unique_entities((#[trigger] frames[k]).look)
}

/// Adding look actions keeps at most one look action per entity in every
/// frame.
pub proof fn lemma_look_run_keeps_looks_unique<W, L, C>(
    st: LookState<W, L, C>,
    entries: Seq<(u64, Seq<NetUpdate<L>>)>,
    oldest_possible: u64,
)
    requires
        looks_unique(st.frames),
        look_run_returns(st, entries, oldest_possible),
        0 <= st.cursor <= st.frames.len(),
        crate::framed_updates::frames_consecutive(st.frames),
    ensures
        looks_unique(look_run(st, entries, oldest_possible).frames),
        crate::framed_updates::frames_consecutive(look_run(st, entries, oldest_possible).frames),
        0 <= look_run(st, entries, oldest_possible).cursor <= look_run(st, entries, oldest_possible).frames.len(),
        look_run(st, entries, oldest_possible).frames.len() == st.frames.len(),
    decreases entries.len(),
{
    if entries.len() > 0 {
        lemma_look_run_keeps_looks_unique(st, entries.drop_last(), oldest_possible);
        let prev = look_run(st, entries.drop_last(), oldest_possible);
        let e = entries.last();
        if !prev.stopped {
            match look_target(prev, e.0, oldest_possible) {
                Some(k) => {
                    assert(prev.frames[prev.cursor].frame_number == prev.frames[0].frame_number + prev.cursor);
                    let f = prev.frames[k];
                    lemma_upsert_looks(f.look, e.1);
                    let next = prev.frames.update(k, with_look(f, upsert_looks(f.look, e.1)));
                    assert forall|j: int| 0 <= j < next.len() implies
                        (#[trigger] next[j]).frame_number == next[0].frame_number + j by {
                        assert(prev.frames[j].frame_number == prev.frames[0].frame_number + j);
                    }
                },
                None => {},
            }
        }
    }
}

/// Reserving empty frames keeps at most one look action per entity in every
/// frame.
pub proof fn lemma_reserved_frames_keep_looks_unique<W, L, C>(frames: Seq<FrameView<W, L, C>>, frame_number: u64)
    requires
        looks_unique(frames),
    ensures
        looks_unique(reserved_frames(frames, frame_number)),
{
    let res = reserved_frames(frames, frame_number);
    assert forall|k: int| 0 <= k < res.len() implies unique_entities((#[trigger] res[k]).look) by {
        if k >= frames.len() {
            assert(res[k].look.len() == 0);
        }
    }
}

/// Adding look actions keeps at most one look action per entity in every
/// frame of `framed_updates`.
pub proof fn lemma_add_look_actions_keeps_looks_unique<W, L, C>(
    framed_updates: FramedUpdates<W, L, C>,
    actions: PlayerLookActionUpdates<L>,
    frame_number: u64,
)
    requires
        framed_updates.well_formed(),
        looks_unique(framed_updates.frames()),
        look_run_returns(
            look_start(framed_updates, actions, frame_number),
            look_entries(actions),
            oldest_possible_frame(frame_number),
        ),
    ensures
        looks_unique(
            look_run(
                look_start(framed_updates, actions, frame_number),
                look_entries(actions),
                oldest_possible_frame(frame_number),
            ).frames,
        ),
{
    let st = look_start(framed_updates, actions, frame_number);
    match latest_look_frame(look_entries(actions)) {
        Some(f) => {
            lemma_reserved_frames_keep_looks_unique(framed_updates.frames(), f);
            crate::framed_updates::lemma_reserved_frames_consecutive(framed_updates.frames(), f);
        },
        None => {},
    }
    lemma_look_run_keeps_looks_unique(st, look_entries(actions), oldest_possible_frame(frame_number));
}

/// Adding look actions never moves the oldest updated frame later.
pub proof fn lemma_look_run_oldest_only_decreases<W, L, C>(
    st: LookState<W, L, C>,
    entries: Seq<(u64, Seq<NetUpdate<L>>)>,
    oldest_possible: u64,
)
    ensures
        look_run(st, entries, oldest_possible).oldest_updated_frame <= st.oldest_updated_frame,
    decreases entries.len(),
{
    if entries.len() > 0 {
        lemma_look_run_oldest_only_decreases(st, entries.drop_last(), oldest_possible);
    }
}


/// The frame reserved before adding look actions is the latest frame among
/// the groups that hold at least one look action: there is one exactly when
/// some group holds a look action, it is the frame of such a group, and no
/// such group has a later frame.
pub proof fn lemma_latest_look_frame_is_max<L>(entries: Seq<(u64, Seq<NetUpdate<L>>)>)
    ensures
        latest_look_frame(entries) is Some <==> exists|i: int|
            0 <= i < entries.len() && (#[trigger] entries[i]).1.len() > 0,
        latest_look_frame(entries) is Some ==> {
            let f = latest_look_frame(entries)->0;
            &&& exists|i: int| 0 <= i < entries.len() && (#[trigger] entries[i]).1.len() > 0 && entries[i].0 == f
            &&& forall|i: int| 0 <= i < entries.len() && (#[trigger] entries[i]).1.len() > 0 ==> entries[i].0 <= f
        },
    decreases entries.len(),
{
    if entries.len() > 0 {
        let rest = entries.drop_last();
        lemma_latest_look_frame_is_max(rest);
        let n = entries.len() - 1;
        assert forall|i: int| 0 <= i < n implies #[trigger] entries[i] == rest[i] by {}
        if latest_look_frame(rest) is Some {
            let i = choose|i: int| 0 <= i < rest.len() && (#[trigger] rest[i]).1.len() > 0 && rest[i].0
                == latest_look_frame(rest)->0;
            assert(entries[i] == rest[i]);
        }
        if entries[n].1.len() > 0 {
            assert(entries[n] == entries.last());
        }
        if exists|i: int| 0 <= i < entries.len() && (#[trigger] entries[i]).1.len() > 0 {
            let i = choose|i: int| 0 <= i < entries.len() && (#[trigger] entries[i]).1.len() > 0;
            if i < n {
                assert(rest[i] == entries[i]);
            }
        }
    }
}

/// Once the frame of the latest look action is reserved, frames are held up
/// to the frame of every group that holds a look action.
pub proof fn lemma_look_groups_are_reserved<W, L, C>(
    frames: Seq<FrameView<W, L, C>>,
    oldest_updated_frame: u64,
    actions: PlayerLookActionUpdates<L>,
    frame_number: u64,
)
    requires
        crate::framed_updates::frames_consecutive(frames),
    ensures
        ({
            let reserved = look_start_from(frames, oldest_updated_frame, actions, frame_number).frames;
            let entries = look_entries(actions);
            &&& crate::framed_updates::frames_consecutive(reserved)
            &&& reserved.len() >= frames.len()
            &&& forall|j: int| 0 <= j < frames.len() ==> #[trigger] reserved[j] == frames[j]
            &&& forall|j: int| frames.len() <= j < reserved.len() ==> (#[trigger] reserved[j]).look.len() == 0
            &&& forall|i: int| 0 <= i < entries.len() && (#[trigger] entries[i]).1.len() > 0 ==> {
                &&& reserved.len() > 0
                &&& entries[i].0 <= reserved.last().frame_number
            }
        }),
{
    let entries = look_entries(actions);
    lemma_latest_look_frame_is_max(entries);
    match latest_look_frame(entries) {
        Some(f) => {
            crate::framed_updates::lemma_reserved_frames_consecutive(frames, f);
            let reserved = reserved_frames(frames, f);
            if frames.len() > 0 {
                assert(frames.last().frame_number == frames[0].frame_number + frames.len() - 1);
            }
            assert(reserved.len() > 0);
            assert(reserved.last().frame_number >= f);
        },
        None => {},
    }
}

/// After adding look actions, the oldest updated frame is at most the frame
/// number of every frame whose look actions changed: a frame that received a
/// group holding a look action is marked, whatever its frame, so the world is
/// simulated again from it.
pub proof fn lemma_changed_look_frames_are_marked<W, L, C>(
    st: LookState<W, L, C>,
    entries: Seq<(u64, Seq<NetUpdate<L>>)>,
    oldest_possible: u64,
)
    requires
        look_run_returns(st, entries, oldest_possible),
        0 <= st.cursor <= st.frames.len(),
        crate::framed_updates::frames_consecutive(st.frames),
    ensures
        ({
            let res = look_run(st, entries, oldest_possible);
            &&& res.frames.len() == st.frames.len()
            &&& res.oldest_updated_frame <= st.oldest_updated_frame
            &&& forall|j: int| 0 <= j < st.frames.len() ==> (#[trigger] res.frames[j]).frame_number
                == st.frames[j].frame_number
            &&& forall|j: int| 0 <= j < st.frames.len() && (#[trigger] res.frames[j]).look != st.frames[j].look
                ==> res.oldest_updated_frame <= res.frames[j].frame_number
        }),
    decreases entries.len(),
{
    if entries.len() > 0 {
        let rest = entries.drop_last();
        lemma_changed_look_frames_are_marked(st, rest, oldest_possible);
        lemma_look_run_keeps_looks_unique_frames(st, rest, oldest_possible);
        let prev = look_run(st, rest, oldest_possible);
        let e = entries.last();
        let res = look_run(st, entries, oldest_possible);
        if !prev.stopped {
            match look_target(prev, e.0, oldest_possible) {
                Some(k) => {
                    assert(prev.frames[prev.cursor].frame_number == prev.frames[0].frame_number + prev.cursor);
                    let f = prev.frames[k];
                    if e.1.len() == 0 {
                        assert(upsert_looks(f.look, e.1) == f.look);
                    }
                    assert forall|j: int| 0 <= j < st.frames.len() && (#[trigger] res.frames[j]).look
                        != st.frames[j].look implies res.oldest_updated_frame <= res.frames[j].frame_number by {
                        if j != k {
                            assert(res.frames[j] == prev.frames[j]);
                        }
                    }
                },
                None => {},
            }
        }
    }
}

/// Adding look actions keeps the frames consecutive, their number, and the
/// position of the next frame to consider within them.
proof fn lemma_look_run_keeps_looks_unique_frames<W, L, C>(
    st: LookState<W, L, C>,
    entries: Seq<(u64, Seq<NetUpdate<L>>)>,
    oldest_possible: u64,
)
    requires
        look_run_returns(st, entries, oldest_possible),
        0 <= st.cursor <= st.frames.len(),
        crate::framed_updates::frames_consecutive(st.frames),
    ensures
        crate::framed_updates::frames_consecutive(look_run(st, entries, oldest_possible).frames),
        0 <= look_run(st, entries, oldest_possible).cursor <= look_run(st, entries, oldest_possible).frames.len(),
        look_run(st, entries, oldest_possible).frames.len() == st.frames.len(),
    decreases entries.len(),
{
    if entries.len() > 0 {
        lemma_look_run_keeps_looks_unique_frames(st, entries.drop_last(), oldest_possible);
        let prev = look_run(st, entries.drop_last(), oldest_possible);
        let e = entries.last();
        if !prev.stopped {
            match look_target(prev, e.0, oldest_possible) {
                Some(k) => {
                    assert(prev.frames[prev.cursor].frame_number == prev.frames[0].frame_number + prev.cursor);
                    let f = prev.frames[k];
                    let next = prev.frames.update(k, with_look(f, upsert_looks(f.look, e.1)));
                    assert forall|j: int| 0 <= j < next.len() implies
                        (#[trigger] next[j]).frame_number == next[0].frame_number + j by {
                        assert(prev.frames[j].frame_number == prev.frames[0].frame_number + j);
                    }
                },
                None => {},
            }
        }
    }
}


/// After `add_look_actions`, the oldest updated frame is at most the frame
/// number of every frame whose look actions changed, and of every newly
/// reserved frame that received a look action.
pub proof fn lemma_add_look_actions_marks_changed_frames<W, L, C>(
    framed_updates: FramedUpdates<W, L, C>,
    actions: PlayerLookActionUpdates<L>,
    frame_number: u64,
)
    requires
        framed_updates.well_formed(),
        look_run_returns(
            look_start(framed_updates, actions, frame_number),
            look_entries(actions),
            oldest_possible_frame(frame_number),
        ),
    ensures
        ({
            let old_frames = framed_updates.frames();
            let res = look_run(
                look_start(framed_updates, actions, frame_number),
                look_entries(actions),
                oldest_possible_frame(frame_number),
            );
            &&& res.oldest_updated_frame <= framed_updates.oldest_updated_frame
            &&& forall|j: int| 0 <= j < old_frames.len() && (#[trigger] res.frames[j]).look != old_frames[j].look
                ==> res.oldest_updated_frame <= res.frames[j].frame_number
            &&& forall|j: int| old_frames.len() <= j < res.frames.len() && (#[trigger] res.frames[j]).look.len() > 0
                ==> res.oldest_updated_frame <= res.frames[j].frame_number
        }),
{
    let st = look_start(framed_updates, actions, frame_number);
    lemma_look_groups_are_reserved(framed_updates.frames(), framed_updates.oldest_updated_frame, actions, frame_number);
    lemma_changed_look_frames_are_marked(st, look_entries(actions), oldest_possible_frame(frame_number));
    let res = look_run(st, look_entries(actions), oldest_possible_frame(frame_number));
    assert forall|j: int| 0 <= j < res.frames.len() && (#[trigger] res.frames[j]).look
        != st.frames[j].look implies res.oldest_updated_frame <= res.frames[j].frame_number by {}
}


/// Where one group of look actions goes. A group taken at a frame that can
/// still change goes to that frame when it is held at or after the next frame
/// to consider, and adding stops when it is not; an older group goes to the
/// next frame to consider. The frame it goes to becomes the oldest updated one
/// when the group holds a look action and no older one already is, and the
/// next frame to consider is the one after it.
pub proof fn lemma_look_group_placement<W, L, C>(
    st: LookState<W, L, C>,
    entry: (u64, Seq<NetUpdate<L>>),
    oldest_possible: u64,
)
    requires
        crate::framed_updates::frames_consecutive(st.frames),
        !st.stopped,
        0 <= st.cursor < st.frames.len(),
    ensures
        ({
            let res = look_step(st, entry, oldest_possible);
            let first = st.frames[0].frame_number;
            let found = st.frames[st.cursor].frame_number <= entry.0 < first + st.frames.len();
            let k = if entry.0 >= oldest_possible { entry.0 - first } else { st.cursor };
            &&& entry.0 >= oldest_possible && !found ==> res == LookState {
                cursor: st.frames.len() as int,
                stopped: true,
                ..st
            }
            &&& entry.0 < oldest_possible || found ==> {
                &&& st.cursor <= k < st.frames.len()
                &&& st.frames[k].frame_number == if entry.0 >= oldest_possible {
                    entry.0 as int
                } else {
                    st.frames[st.cursor].frame_number as int
                }
                &&& res == LookState {
                    frames: st.frames.update(
                        k,
                        FrameView { look: upsert_looks(st.frames[k].look, entry.1), ..st.frames[k] },
                    ),
                    cursor: k + 1,
                    oldest_updated_frame: if entry.1.len() > 0 && st.frames[k].frame_number
                        < st.oldest_updated_frame {
                        st.frames[k].frame_number
                    } else {
                        st.oldest_updated_frame
                    },
                    stopped: false,
                }
            }
        }),
{
    assert(st.frames[st.cursor].frame_number == st.frames[0].frame_number + st.cursor);
}

} // verus!
