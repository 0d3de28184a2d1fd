use vstd::multiset::Multiset;
use vstd::prelude::*;

use crate::actions::{
    contains_entity, first_entity_index, ActionNotApplicable, ImmediatePlayerActionsUpdates, NetIdentifier,
    WalkActionUpdate, LAG_COMPENSATION_FRAMES_LIMIT,
};
use crate::cast_actions::{
    compute_lag_compensated_frame, lag_compensated_frame, oldest_possible_frame, saturating_sub,
};
use crate::framed_updates::{frame_index, has_frame, with_walk, FrameView, FramedUpdates};

verus! {

/// Actions taken at `actions_frame` are badly late at server frame
/// `frame_number` when they are older than twice the lag compensation limit.
pub open spec fn is_badly_late(actions_frame: u64, frame_number: u64) -> bool {
    actions_frame < saturating_sub(frame_number, (LAG_COMPENSATION_FRAMES_LIMIT * 2) as u64)
}

/// How many frames late actions taken at `actions_frame` are, beyond the lag
/// compensation limit.
pub open spec fn frames_to_move(actions_frame: u64, frame_number: u64) -> u64 {
    saturating_sub(oldest_possible_frame(frame_number), actions_frame)
}

/// Whether the walk actions of `entity` stored from `actual_frame` on have to
/// be rearranged before a late walk action of it is added.
pub open spec fn moves_walk_updates(actions_frame: u64, frame_number: u64) -> bool {
    !is_badly_late(actions_frame, frame_number) && frames_to_move(actions_frame, frame_number) > 0
}

/// Whether a walk action of `entity` is stored at frame `from_frame` or later.
pub open spec fn has_walk_from<W, L, C>(frames: Seq<FrameView<W, L, C>>, from_frame: u64, entity: NetIdentifier) -> bool {
    exists|k: int|
        0 <= k < frames.len() && (#[trigger] frames[k]).frame_number >= from_frame
            && contains_entity(frames[k].walk, entity)
}

/// Whether the first walk action of `entity` in frame `f` is taken out when a
/// late action of `entity` is added.
pub open spec fn is_moved<W, L, C>(f: FrameView<W, L, C>, entity: NetIdentifier, actual_frame: u64) -> bool {
    f.frame_number >= actual_frame && contains_entity(f.walk, entity)
}

/// Whether a taken-out walk action in frame `f` is discarded rather than put
/// back: shifting it by `shift` frames would take it past the server frame.
pub open spec fn is_dropped_by_move(frame: u64, shift: u64, frame_number: u64) -> bool {
    frame + shift > frame_number
}

/// Frame `f` after the first walk action of `entity` in it is taken out and,
/// unless it is discarded, put back at the end of the frame's walk actions.
pub open spec fn move_frame<W, L, C>(
    f: FrameView<W, L, C>,
    entity: NetIdentifier,
    shift: u64,
    frame_number: u64,
    actual_frame: u64,
) -> FrameView<W, L, C> {
    if is_moved(f, entity, actual_frame) {
        let p = first_entity_index(f.walk, entity);
        if is_dropped_by_move(f.frame_number, shift, frame_number) {
            with_walk(f, f.walk.remove(p))
        } else {
            with_walk(f, f.walk.remove(p).push(f.walk[p]))
        }
    } else {
        f
    }
}

/// The client identifiers of the walk actions that moving discards, in frame
/// order.
pub open spec fn move_discards<W, L, C>(
    frames: Seq<FrameView<W, L, C>>,
    entity: NetIdentifier,
    shift: u64,
    frame_number: u64,
    actual_frame: u64,
) -> Seq<NetIdentifier>
    decreases frames.len(),
{
    if frames.len() == 0 {
        Seq::empty()
    } else {
        let f = frames.last();
        move_discards(frames.drop_last(), entity, shift, frame_number, actual_frame) + if is_moved(
            f,
            entity,
            actual_frame,
        ) && is_dropped_by_move(f.frame_number, shift, frame_number) {
            seq![f.walk[first_entity_index(f.walk, entity)].data.client_action_id]
        } else {
            Seq::empty()
        }
    }
}

/// The frames after moving the walk actions of `entity`.
pub open spec fn moved_frames<W, L, C>(
    frames: Seq<FrameView<W, L, C>>,
    entity: NetIdentifier,
    shift: u64,
    frame_number: u64,
    actual_frame: u64,
) -> Seq<FrameView<W, L, C>> {
    Seq::new(frames.len(), |k: int| move_frame(frames[k], entity, shift, frame_number, actual_frame))
}

/// Moving the walk actions of `entity` comes to an end: the walk actions that
/// are put back sit in an unbroken run of frames from `actual_frame` on, and
/// shifting a frame number does not leave the range of `u64`.
pub open spec fn moves_return<W, L, C>(
    frames: Seq<FrameView<W, L, C>>,
    entity: NetIdentifier,
    shift: u64,
    frame_number: u64,
    actual_frame: u64,
) -> bool {
    &&& forall|i: int| 0 <= i < frames.len() && is_moved(#[trigger] frames[i], entity, actual_frame)
        ==> frames[i].frame_number + shift <= u64::MAX
    &&& forall|i: int, j: int|
        0 <= i < frames.len() && 0 <= j < frames.len() && is_moved(#[trigger] frames[i], entity, actual_frame)
            && !is_dropped_by_move(frames[i].frame_number, shift, frame_number) && actual_frame
            <= (#[trigger] frames[j]).frame_number <= frames[i].frame_number
            ==> contains_entity(frames[j].walk, entity)
}

/// What adding walk actions acts on: the frames, the oldest updated frame and
/// the client identifiers of the discarded actions.
pub struct WalkState<W, L, C> {
    pub frames: Seq<FrameView<W, L, C>>,
    pub oldest_updated_frame: u64,
    pub discarded: Seq<NetIdentifier>,
}

/// Whether a walk action of `entity` taken at `actions_frame` is kept.
pub open spec fn walk_is_added<W, L, C>(
    frames: Seq<FrameView<W, L, C>>,
    entity: NetIdentifier,
    actions_frame: u64,
    frame_number: u64,
) -> bool {
    !(is_badly_late(actions_frame, frame_number) && has_walk_from(frames, actions_frame, entity))
}

/// One walk action taken at `actions_frame`, received at server frame
/// `frame_number`.
///
/// A badly late action is discarded when the entity has a walk action stored
/// at its frame or later. Otherwise it is added at its lag-compensated frame;
/// when it is late but not badly, the entity's walk actions from that frame on
/// are first taken out, and put back at the end of their frame's walk actions
/// unless shifting them by the delay would take them past the server frame, in
/// which case they are discarded.
pub open spec fn walk_step<W, L, C>(
    st: WalkState<W, L, C>,
    action: WalkActionUpdate<W>,
    actions_frame: u64,
    frame_number: u64,
) -> WalkState<W, L, C> {
    let entity = action.entity_net_id;
    let actual_frame = lag_compensated_frame(actions_frame, frame_number);
    let shift = frames_to_move(actions_frame, frame_number);
    if !walk_is_added(st.frames, entity, actions_frame, frame_number) {
        WalkState { discarded: st.discarded.push(action.data.client_action_id), ..st }
    } else {
        let frames = if moves_walk_updates(actions_frame, frame_number) {
            moved_frames(st.frames, entity, shift, frame_number, actual_frame)
        } else {
            st.frames
        };
        let discarded = if moves_walk_updates(actions_frame, frame_number) {
            st.discarded + move_discards(st.frames, entity, shift, frame_number, actual_frame)
        } else {
            st.discarded
        };
        let k = frame_index(frames, actual_frame);
        WalkState {
            frames: frames.update(k, with_walk(frames[k], frames[k].walk.push(action))),
            oldest_updated_frame: if actual_frame < st.oldest_updated_frame {
                actual_frame
            } else {
                st.oldest_updated_frame
            },
            discarded,
        }
    }
}

/// Whether adding one walk action returns: the frame it goes to is held, and
/// moving comes to an end.
pub open spec fn walk_step_returns<W, L, C>(
    st: WalkState<W, L, C>,
    action: WalkActionUpdate<W>,
    actions_frame: u64,
    frame_number: u64,
) -> bool {
    let entity = action.entity_net_id;
    let actual_frame = lag_compensated_frame(actions_frame, frame_number);
    walk_is_added(st.frames, entity, actions_frame, frame_number) ==> {
        &&& has_frame(st.frames, actual_frame)
        &&& moves_walk_updates(actions_frame, frame_number) ==> moves_return(
            st.frames,
            entity,
            frames_to_move(actions_frame, frame_number),
            frame_number,
            actual_frame,
        )
    }
}

/// The walk actions `actions`, one after the other.
pub open spec fn walk_run<W, L, C>(
    st: WalkState<W, L, C>,
    actions: Seq<WalkActionUpdate<W>>,
    actions_frame: u64,
    frame_number: u64,
) -> WalkState<W, L, C>
    decreases actions.len(),
{
    if actions.len() == 0 {
        st
    } else {
        walk_step(walk_run(st, actions.drop_last(), actions_frame, frame_number), actions.last(), actions_frame, frame_number)
    }
}

/// Whether adding every walk action of `actions` returns.
pub open spec fn walk_run_returns<W, L, C>(
    st: WalkState<W, L, C>,
    actions: Seq<WalkActionUpdate<W>>,
    actions_frame: u64,
    frame_number: u64,
) -> bool
    decreases actions.len(),
{
    actions.len() == 0 || (walk_run_returns(st, actions.drop_last(), actions_frame, frame_number)
        && walk_step_returns(
        walk_run(st, actions.drop_last(), actions_frame, frame_number),
        actions.last(),
        actions_frame,
        frame_number,
    ))
}

/// Where adding walk actions to `framed_updates` starts from, with nothing
/// discarded yet.
pub open spec fn walk_start<W, L, C>(framed_updates: FramedUpdates<W, L, C>) -> WalkState<W, L, C> {
    WalkState {
        frames: framed_updates.frames(),
        oldest_updated_frame: framed_updates.oldest_updated_frame,
        discarded: Seq::empty(),
    }
}

fn has_walk_from_exec<W, L, C>(framed_updates: &FramedUpdates<W, L, C>, from_frame: u64, entity: NetIdentifier) -> (res: bool)
    ensures
        res == has_walk_from(framed_updates.frames(), from_frame, entity),
{
    let ghost frames = framed_updates.frames();
    let n = framed_updates.len();
    let mut k: usize = 0;
    while k < n
        invariant
            n == frames.len(),
            k <= n,
            frames == framed_updates.frames(),
            forall|j: int| 0 <= j < k ==> !((#[trigger] frames[j]).frame_number >= from_frame
                && contains_entity(frames[j].walk, entity)),
        decreases n - k,
    {
        if framed_updates.frame_number_at(k) >= from_frame {
            if framed_updates.walk_position(k, entity).is_some() {
                return true;
            }
        }
        k = k + 1;
    }
    false
}

/// Takes out the first walk action of `entity` of each frame from
/// `actual_frame` on; puts it back at the end of the frame, or discards it
/// when shifting it by `shift` frames would take it past `frame_number`.
fn move_walk_updates<W, L, C>(
    framed_updates: &mut FramedUpdates<W, L, C>,
    entity: NetIdentifier,
    shift: u64,
    frame_number: u64,
    actual_frame: u64,
    discarded: &mut Vec<NetIdentifier>,
)
    requires
        moves_return(old(framed_updates).frames(), entity, shift, frame_number, actual_frame),
    ensures
        final(framed_updates).frames() == moved_frames(
            old(framed_updates).frames(),
            entity,
            shift,
            frame_number,
            actual_frame,
        ),
        final(framed_updates).oldest_updated_frame == old(framed_updates).oldest_updated_frame,
        final(discarded)@ == old(discarded)@ + move_discards(
            old(framed_updates).frames(),
            entity,
            shift,
            frame_number,
            actual_frame,
        ),
{
    let ghost frames0 = framed_updates.frames();
    let ghost discarded0 = discarded@;
    let n = framed_updates.len();
    let mut k: usize = 0;
    while k < n
        invariant
            n == frames0.len(),
            k <= n,
            moves_return(frames0, entity, shift, frame_number, actual_frame),
            framed_updates.frames().len() == n,
            framed_updates.oldest_updated_frame == old(framed_updates).oldest_updated_frame,
            forall|j: int| 0 <= j < k ==> (#[trigger] framed_updates.frames()[j]) == move_frame(
                frames0[j],
                entity,
                shift,
                frame_number,
                actual_frame,
            ),
            forall|j: int| k <= j < n ==> (#[trigger] framed_updates.frames()[j]) == frames0[j],
            discarded@ == discarded0 + move_discards(frames0.take(k as int), entity, shift, frame_number, actual_frame),
        decreases n - k,
    {
        let ghost before = framed_updates.frames();
        let ghost f = frames0[k as int];
        assert(frames0.take(k + 1).drop_last() =~= frames0.take(k as int));
        assert(frames0.take(k + 1).last() == f);
        let frame = framed_updates.frame_number_at(k);
        if frame >= actual_frame {
            match framed_updates.walk_position(k, entity) {
                Some(i) => {
                    assert(is_moved(f, entity, actual_frame));
                    assert(frames0[k as int].frame_number + shift <= u64::MAX);
                    let moved_update = framed_updates.remove_walk(k, i);
                    if frame + shift > frame_number {
                        assert(is_dropped_by_move(frame, shift, frame_number));
                        discarded.push(moved_update.data.client_action_id);
                    } else {
                        framed_updates.push_walk(k, moved_update);
                    }
                    assert(framed_updates.frames()[k as int] == move_frame(f, entity, shift, frame_number, actual_frame));
                },
                None => {},
            }
        }
        assert forall|j: int| 0 <= j <= k implies (#[trigger] framed_updates.frames()[j]) == move_frame(
            frames0[j],
            entity,
            shift,
            frame_number,
            actual_frame,
        ) by {
            if j < k {
                assert(framed_updates.frames()[j] == before[j]);
            }
        }
        k = k + 1;
    }
    assert(frames0.take(n as int) =~= frames0);
    assert(framed_updates.frames() =~= moved_frames(frames0, entity, shift, frame_number, actual_frame));
}

/// Whether adding `action` to the frames as they are comes to an end.
fn walk_step_returns_exec<W, L, C>(
    framed_updates: &FramedUpdates<W, L, C>,
    action: &WalkActionUpdate<W>,
    actions_frame: u64,
    frame_number: u64,
) -> (res: bool)
    requires
        framed_updates.well_formed(),
    ensures
        res == walk_step_returns(
            WalkState { frames: framed_updates.frames(), oldest_updated_frame: 0, discarded: Seq::empty() },
            *action,
            actions_frame,
            frame_number,
        ),
{
    let ghost frames = framed_updates.frames();
    let entity = action.entity_net_id;
    let actual_frame = compute_lag_compensated_frame(actions_frame, frame_number);
    let is_badly_late = actions_frame < frame_number.saturating_sub(LAG_COMPENSATION_FRAMES_LIMIT * 2);
    let shift = frame_number.saturating_sub(LAG_COMPENSATION_FRAMES_LIMIT).saturating_sub(actions_frame);
    if is_badly_late && has_walk_from_exec(framed_updates, actions_frame, entity) {
        return true;
    }
    if !framed_updates.holds_frame(actual_frame) {
        return false;
    }
    assert(shift == frames_to_move(actions_frame, frame_number));
    assert(is_badly_late == crate::walk_actions::is_badly_late(actions_frame, frame_number));
    if is_badly_late || shift == 0 {
        return true;
    }
    let n = framed_updates.len();
    let mut i: usize = 0;
    while i < n
        invariant
            n == frames.len(),
            i <= n,
            frames == framed_updates.frames(),
            entity == action.entity_net_id,
            actual_frame == lag_compensated_frame(actions_frame, frame_number),
            shift == frames_to_move(actions_frame, frame_number),
            !crate::walk_actions::is_badly_late(actions_frame, frame_number),
            shift > 0,
            has_frame(frames, actual_frame),
            forall|a: int| 0 <= a < i && is_moved(#[trigger] frames[a], entity, actual_frame)
                ==> frames[a].frame_number + shift <= u64::MAX,
            forall|a: int, b: int|
                0 <= a < i && 0 <= b < n && is_moved(#[trigger] frames[a], entity, actual_frame)
                    && !is_dropped_by_move(frames[a].frame_number, shift, frame_number) && actual_frame
                    <= (#[trigger] frames[b]).frame_number <= frames[a].frame_number
                    ==> contains_entity(frames[b].walk, entity),
        decreases n - i,
    {
        let fi = framed_updates.frame_number_at(i);
        if fi >= actual_frame && framed_updates.walk_position(i, entity).is_some() {
            assert(is_moved(frames[i as int], entity, actual_frame));
            if fi > u64::MAX - shift {
                assert(!moves_return(frames, entity, shift, frame_number, actual_frame));
                return false;
            }
            if fi + shift <= frame_number {
                let mut j: usize = 0;
                while j < n
                    invariant
                        n == frames.len(),
                        i < n,
                        j <= n,
                        frames == framed_updates.frames(),
                        fi == frames[i as int].frame_number,
                        entity == action.entity_net_id,
                        actual_frame == lag_compensated_frame(actions_frame, frame_number),
                        shift == frames_to_move(actions_frame, frame_number),
                        !crate::walk_actions::is_badly_late(actions_frame, frame_number),
                        shift > 0,
                        has_frame(frames, actual_frame),
                        is_moved(frames[i as int], entity, actual_frame),
                        fi + shift <= frame_number,
                        forall|b: int| 0 <= b < j && actual_frame <= (#[trigger] frames[b]).frame_number <= fi
                            ==> contains_entity(frames[b].walk, entity),
                    decreases n - j,
                {
                    let fj = framed_updates.frame_number_at(j);
                    if actual_frame <= fj && fj <= fi && framed_updates.walk_position(j, entity).is_none() {
                        assert(!moves_return(frames, entity, shift, frame_number, actual_frame)) by {
                            assert(is_moved(frames[i as int], entity, actual_frame));
                            assert(!is_dropped_by_move(frames[i as int].frame_number, shift, frame_number));
                            assert(actual_frame <= frames[j as int].frame_number <= frames[i as int].frame_number);
                        }
                        return false;
                    }
                    j = j + 1;
                }
            }
        }
        i = i + 1;
    }
    true
}

/// Adds the walk actions a client took at `actions.frame_number` to the
/// frames, as `add_walk_actions` does, as long as each one can be added; at
/// the first that cannot (see `walk_step_returns`), stops and reports its
/// position, with the actions before it added.
pub fn try_add_walk_actions<W, L, C>(
    framed_updates: &mut FramedUpdates<W, L, C>,
    actions: ImmediatePlayerActionsUpdates<W>,
    frame_number: u64,
) -> (res: Result<Vec<NetIdentifier>, ActionNotApplicable>)
    requires
        old(framed_updates).well_formed(),
    ensures
        final(framed_updates).well_formed(),
        match res {
            Ok(discarded_actions) => {
                let res = walk_run(walk_start(*old(framed_updates)), actions.updates@, actions.frame_number, frame_number);
                &&& walk_run_returns(walk_start(*old(framed_updates)), actions.updates@, actions.frame_number, frame_number)
                &&& final(framed_updates).frames() == res.frames
                &&& final(framed_updates).oldest_updated_frame == res.oldest_updated_frame
                &&& discarded_actions@ == res.discarded
            },
            Err(e) => {
                let n = e.index as int;
                let prefix = actions.updates@.take(n);
                let res = walk_run(walk_start(*old(framed_updates)), prefix, actions.frame_number, frame_number);
                &&& n < actions.updates@.len()
                &&& walk_run_returns(walk_start(*old(framed_updates)), prefix, actions.frame_number, frame_number)
                &&& !walk_step_returns(res, actions.updates@[n], actions.frame_number, frame_number)
                &&& !walk_run_returns(walk_start(*old(framed_updates)), actions.updates@, actions.frame_number, frame_number)
                &&& final(framed_updates).frames() == res.frames
                &&& final(framed_updates).oldest_updated_frame == res.oldest_updated_frame
            },
        },
{
    let mut discarded_actions: Vec<NetIdentifier> = Vec::new();
    let added_actions_frame_number = actions.frame_number;
    let oldest_possible_frame = frame_number.saturating_sub(LAG_COMPENSATION_FRAMES_LIMIT);
    let actual_frame = compute_lag_compensated_frame(added_actions_frame_number, frame_number);
    let is_badly_late = added_actions_frame_number < frame_number.saturating_sub(LAG_COMPENSATION_FRAMES_LIMIT * 2);
    let frames_to_move = oldest_possible_frame.saturating_sub(added_actions_frame_number);
    let ghost init = walk_start(*framed_updates);
    let ghost all_actions = actions.updates@;
    let actions_len = actions.updates.len();
    let mut index: usize = 0;
    for action in it: actions.updates.into_iter()
        invariant
            all_actions == it.seq(),
            all_actions.len() == actions_len,
            init == walk_start(*old(framed_updates)),
            all_actions == actions.updates@,
            index == it.index(),
            added_actions_frame_number == actions.frame_number,
            actual_frame == lag_compensated_frame(added_actions_frame_number, frame_number),
            is_badly_late == crate::walk_actions::is_badly_late(added_actions_frame_number, frame_number),
            frames_to_move == crate::walk_actions::frames_to_move(added_actions_frame_number, frame_number),
            framed_updates.well_formed(),
            walk_run_returns(init, all_actions.take(it.index() as int), added_actions_frame_number, frame_number),
            ({
                let res = walk_run(init, all_actions.take(it.index() as int), added_actions_frame_number, frame_number);
                &&& framed_updates.frames() == res.frames
                &&& framed_updates.oldest_updated_frame == res.oldest_updated_frame
                &&& discarded_actions@ == res.discarded
            }),
    {
        let ghost idx = it.index() as int;
        proof {
            assert(idx < all_actions.len());
            assert(all_actions.take(idx + 1).drop_last() =~= all_actions.take(idx));
            assert(all_actions.take(idx + 1).last() == action);
        }
        if !walk_step_returns_exec(framed_updates, &action, added_actions_frame_number, frame_number) {
            proof {
                assert(all_actions[idx] == action);
                let st = walk_run(init, all_actions.take(idx), added_actions_frame_number, frame_number);
                assert(!walk_step_returns(st, action, added_actions_frame_number, frame_number));
                lemma_walk_run_returns_extends(init, all_actions, added_actions_frame_number, frame_number, idx);
                assert(actions.updates@ == all_actions);
                assert(init == walk_start(*old(framed_updates)));
                assert(walk_run_returns(init, all_actions.take(idx), added_actions_frame_number, frame_number));
            }
            return Err(ActionNotApplicable { index });
        }
        let ghost before = framed_updates.frames();
        let entity = action.entity_net_id;
        let is_added = if is_badly_late {
            // A badly late action is dropped when a later one of the entity is already stored.
            !has_walk_from_exec(framed_updates, added_actions_frame_number, entity)
        } else {
            true
        };
        if is_added {
            if !is_badly_late && frames_to_move > 0 {
                move_walk_updates(
                    framed_updates,
                    entity,
                    frames_to_move,
                    frame_number,
                    actual_frame,
                    &mut discarded_actions,
                );
            }
            proof {
                let after = framed_updates.frames();
                assert(after.len() == before.len());
                assert forall|j: int| 0 <= j < after.len() implies
                    (#[trigger] after[j]).frame_number == before[j].frame_number by {}
                assert forall|j: int| 0 <= j < after.len() implies
                    (#[trigger] after[j]).frame_number == after[0].frame_number + j by {
                    assert(before[j].frame_number == before[0].frame_number + j);
                }
            }
            let found = framed_updates.update_frame(actual_frame);
            let k = found.unwrap();
            framed_updates.push_walk(k, action);
            proof {
                let after = framed_updates.frames();
                assert forall|j: int| 0 <= j < after.len() implies
                    (#[trigger] after[j]).frame_number == after[0].frame_number + j by {
                    assert(before[j].frame_number == before[0].frame_number + j);
                }
            }
        } else {
            discarded_actions.push(action.data.client_action_id);
        }
        index = index + 1;
    }
    assert(all_actions.take(all_actions.len() as int) =~= all_actions);
    Ok(discarded_actions)
}

/// Adds the walk actions a client took at `actions.frame_number` to the
/// frames, when the server is at frame `frame_number`, and returns the client
/// identifiers of the walk actions that were discarded, in the order they were
/// discarded.
///
/// When walk actions that are put back after a late action do not sit in an
/// unbroken run of frames from the action's frame on, putting them back never
/// comes to an end; such inputs are left out by the precondition, as are
/// actions whose frame is not held.
pub fn add_walk_actions<W, L, C>(
    framed_updates: &mut FramedUpdates<W, L, C>,
    actions: ImmediatePlayerActionsUpdates<W>,
    frame_number: u64,
) -> (discarded_actions: Vec<NetIdentifier>)
    requires
        old(framed_updates).well_formed(),
        walk_run_returns(walk_start(*old(framed_updates)), actions.updates@, actions.frame_number, frame_number),
    ensures
        final(framed_updates).well_formed(),
        ({
            let res = walk_run(walk_start(*old(framed_updates)), actions.updates@, actions.frame_number, frame_number);
            &&& final(framed_updates).frames() == res.frames
            &&& final(framed_updates).oldest_updated_frame == res.oldest_updated_frame
            &&& discarded_actions@ == res.discarded
        }),
{
    match try_add_walk_actions(framed_updates, actions, frame_number) {
        Ok(discarded_actions) => discarded_actions,
        Err(_) => {
            proof {
                assert(false);
            }
            Vec::new()
        },
    }
}

/// Adding a prefix of the actions returns when adding them all does, and
/// adding them all returns when adding a prefix does and then the next one.
proof fn lemma_walk_run_returns_extends<W, L, C>(
    st: WalkState<W, L, C>,
    actions: Seq<WalkActionUpdate<W>>,
    actions_frame: u64,
    frame_number: u64,
    n: int,
)
    requires
        0 <= n < actions.len(),
        !walk_step_returns(walk_run(st, actions.take(n), actions_frame, frame_number), actions[n], actions_frame, frame_number),
    ensures
        !walk_run_returns(st, actions, actions_frame, frame_number),
    decreases actions.len(),
{
    if n == actions.len() - 1 {
        assert(actions.take(n) =~= actions.drop_last());
    } else {
        assert(actions.drop_last().take(n) =~= actions.take(n));
        lemma_walk_run_returns_extends(st, actions.drop_last(), actions_frame, frame_number, n);
    }
}

/// The client identifiers of the walk actions in `walk`, in order.
pub open spec fn client_action_ids<W>(walk: Seq<WalkActionUpdate<W>>) -> Seq<NetIdentifier> {
    walk.map_values(|u: WalkActionUpdate<W>| u.data.client_action_id)
}

/// The client identifiers of the walk actions in `walk`.
pub open spec fn walk_ids<W>(walk: Seq<WalkActionUpdate<W>>) -> Multiset<NetIdentifier> {
    client_action_ids(walk).to_multiset()
}

/// The client identifiers of the walk actions stored in `frames`.
pub open spec fn stored_walk_ids<W, L, C>(frames: Seq<FrameView<W, L, C>>) -> Multiset<NetIdentifier>
    decreases frames.len(),
{
    if frames.len() == 0 {
        Multiset::empty()
    } else {
        stored_walk_ids(frames.drop_last()).add(walk_ids(frames.last().walk))
    }
}

proof fn lemma_walk_ids_push<W>(walk: Seq<WalkActionUpdate<W>>, u: WalkActionUpdate<W>)
    ensures
        walk_ids(walk.push(u)) =~= walk_ids(walk).insert(u.data.client_action_id),
{
    broadcast use vstd::seq_lib::group_to_multiset_ensures;
    let g = |u: WalkActionUpdate<W>| u.data.client_action_id;
    assert(walk.push(u).map_values(g) =~= walk.map_values(g).push(u.data.client_action_id));
}

proof fn lemma_walk_ids_remove<W>(walk: Seq<WalkActionUpdate<W>>, p: int)
    requires
        0 <= p < walk.len(),
    ensures
        walk_ids(walk.remove(p)) =~= walk_ids(walk).remove(walk[p].data.client_action_id),
        walk_ids(walk).count(walk[p].data.client_action_id) > 0,
{
    broadcast use vstd::seq_lib::group_to_multiset_ensures;
    let g = |u: WalkActionUpdate<W>| u.data.client_action_id;
    assert(walk.remove(p).map_values(g) =~= walk.map_values(g).remove(p));
    assert(walk.map_values(g).contains(walk[p].data.client_action_id)) by {
        assert(walk.map_values(g)[p] == walk[p].data.client_action_id);
    }
}

proof fn lemma_stored_walk_ids_update<W, L, C>(
    frames: Seq<FrameView<W, L, C>>,
    k: int,
    f: FrameView<W, L, C>,
    a: WalkActionUpdate<W>,
)
    requires
        0 <= k < frames.len(),
        walk_ids(f.walk) == walk_ids(frames[k].walk).insert(a.data.client_action_id),
    ensures
        stored_walk_ids(frames.update(k, f)) =~= stored_walk_ids(frames).insert(a.data.client_action_id),
    decreases frames.len(),
{
    let updated = frames.update(k, f);
    if k == frames.len() - 1 {
        assert(updated.drop_last() =~= frames.drop_last());
    } else {
        assert(updated.drop_last() =~= frames.drop_last().update(k, f));
        lemma_stored_walk_ids_update(frames.drop_last(), k, f, a);
    }
}

proof fn lemma_move_accounts<W, L, C>(
    frames: Seq<FrameView<W, L, C>>,
    entity: NetIdentifier,
    shift: u64,
    frame_number: u64,
    actual_frame: u64,
)
    ensures
        stored_walk_ids(moved_frames(frames, entity, shift, frame_number, actual_frame)).add(
            move_discards(frames, entity, shift, frame_number, actual_frame).to_multiset(),
        ) =~= stored_walk_ids(frames),
    decreases frames.len(),
{
    broadcast use vstd::seq_lib::group_to_multiset_ensures;
    if frames.len() > 0 {
        let rest = frames.drop_last();
        let moved = moved_frames(frames, entity, shift, frame_number, actual_frame);
        assert(moved.drop_last() =~= moved_frames(rest, entity, shift, frame_number, actual_frame));
        lemma_move_accounts(rest, entity, shift, frame_number, actual_frame);
        let f = frames.last();
        let d = move_discards(rest, entity, shift, frame_number, actual_frame);
        if is_moved(f, entity, actual_frame) {
            let p = first_entity_index(f.walk, entity);
            let i = choose|i: int| 0 <= i < f.walk.len() && (#[trigger] f.walk[i]).entity_net_id == entity;
            assert(crate::actions::is_first_entity_index(f.walk, entity, p)) by {
                lemma_first_occurrence(f.walk, entity, i);
            }
            lemma_walk_ids_remove(f.walk, p);
            let id = f.walk[p].data.client_action_id;
            if is_dropped_by_move(f.frame_number, shift, frame_number) {
                assert(move_discards(frames, entity, shift, frame_number, actual_frame) == d + seq![id]);
                assert((d + seq![id]).to_multiset() =~= d.to_multiset().insert(id)) by {
                    assert(d + seq![id] =~= d.push(id));
                }
            } else {
                lemma_walk_ids_push(f.walk.remove(p), f.walk[p]);
                assert(move_discards(frames, entity, shift, frame_number, actual_frame) =~= d + Seq::empty());
            }
        } else {
            assert(move_discards(frames, entity, shift, frame_number, actual_frame) =~= d + Seq::empty());
        }
    }
}

proof fn lemma_first_occurrence<T>(updates: Seq<crate::actions::NetUpdate<T>>, entity: NetIdentifier, i: int)
    requires
        0 <= i < updates.len(),
        updates[i].entity_net_id == entity,
    ensures
        exists|q: int| crate::actions::is_first_entity_index(updates, entity, q),
    decreases i,
{
    if forall|j: int| 0 <= j < i ==> (#[trigger] updates[j]).entity_net_id != entity {
        assert(crate::actions::is_first_entity_index(updates, entity, i));
    } else {
        let j = choose|j: int| 0 <= j < i && (#[trigger] updates[j]).entity_net_id == entity;
        lemma_first_occurrence(updates, entity, j);
    }
}

/// Every walk action handed to `add_walk_actions` is accounted for: the client
/// identifiers of the walk actions stored in the frames, together with those
/// reported as discarded, are those stored before together with those of the
/// new actions. No action is lost or duplicated.
pub proof fn lemma_walk_actions_accounted<W, L, C>(
    st: WalkState<W, L, C>,
    actions: Seq<WalkActionUpdate<W>>,
    actions_frame: u64,
    frame_number: u64,
)
    requires
        walk_run_returns(st, actions, actions_frame, frame_number),
    ensures
        ({
            let res = walk_run(st, actions, actions_frame, frame_number);
            stored_walk_ids(res.frames).add(res.discarded.to_multiset()) =~= stored_walk_ids(st.frames).add(
                st.discarded.to_multiset(),
            ).add(walk_ids(actions))
        }),
    decreases actions.len(),
{
    broadcast use vstd::seq_lib::group_to_multiset_ensures;
    if actions.len() == 0 {
        assert(client_action_ids(actions) =~= Seq::<NetIdentifier>::empty());
        assert(walk_ids(actions) =~= Multiset::empty()) by {
            assert(walk_ids(actions).len() == 0);
        }
    } else {
        let rest = actions.drop_last();
        let a = actions.last();
        lemma_walk_actions_accounted(st, rest, actions_frame, frame_number);
        assert(actions =~= rest.push(a));
        lemma_walk_ids_push(rest, a);
        let prev = walk_run(st, rest, actions_frame, frame_number);
        let entity = a.entity_net_id;
        let actual_frame = lag_compensated_frame(actions_frame, frame_number);
        let shift = frames_to_move(actions_frame, frame_number);
        assert(walk_step_returns(prev, a, actions_frame, frame_number));
        let after = walk_step(prev, a, actions_frame, frame_number);
        assert(walk_run(st, actions, actions_frame, frame_number) == after);
        if !walk_is_added(prev.frames, entity, actions_frame, frame_number) {
            assert(after.frames == prev.frames);
            assert(after.discarded.to_multiset() =~= prev.discarded.to_multiset().insert(a.data.client_action_id));
            assert(stored_walk_ids(after.frames).add(after.discarded.to_multiset()) =~= stored_walk_ids(prev.frames).add(
                prev.discarded.to_multiset()).insert(a.data.client_action_id));
        } else {
            assert(has_frame(prev.frames, actual_frame));
            let frames = if moves_walk_updates(actions_frame, frame_number) {
                moved_frames(prev.frames, entity, shift, frame_number, actual_frame)
            } else {
                prev.frames
            };
            if moves_walk_updates(actions_frame, frame_number) {
                lemma_move_accounts(prev.frames, entity, shift, frame_number, actual_frame);
                let d = move_discards(prev.frames, entity, shift, frame_number, actual_frame);
                vstd::seq_lib::lemma_multiset_commutative(prev.discarded, d);
            }
            let k = frame_index(frames, actual_frame);
            assert(frames.len() == prev.frames.len());
            assert(frames[0].frame_number == prev.frames[0].frame_number);
            assert(0 <= k < frames.len());
            lemma_walk_ids_push(frames[k].walk, a);
            lemma_stored_walk_ids_update(frames, k, with_walk(frames[k], frames[k].walk.push(a)), a);
            assert(stored_walk_ids(frames).add(after.discarded.to_multiset()) =~= stored_walk_ids(prev.frames).add(
                prev.discarded.to_multiset()));
            assert(stored_walk_ids(after.frames).add(after.discarded.to_multiset()) =~= stored_walk_ids(prev.frames).add(
                prev.discarded.to_multiset()).insert(a.data.client_action_id));
        }
    }
}

/// Adding walk actions never moves the oldest updated frame later.
pub proof fn lemma_walk_run_oldest_only_decreases<W, L, C>(
    st: WalkState<W, L, C>,
    actions: Seq<WalkActionUpdate<W>>,
    actions_frame: u64,
    frame_number: u64,
)
    ensures
        walk_run(st, actions, actions_frame, frame_number).oldest_updated_frame <= st.oldest_updated_frame,
    decreases actions.len(),
{
    if actions.len() > 0 {
        lemma_walk_run_oldest_only_decreases(st, actions.drop_last(), actions_frame, frame_number);
    }
}


/// Walk actions taken within the lag compensation window are never discarded
/// on arrival: whatever walk actions of their entities are stored at later
/// frames, every one of them is stored at the end of the walk actions of the
/// frame it was taken at, in the order received, and that frame becomes the
/// oldest updated one unless an older one already is.
pub proof fn lemma_on_time_walk_actions_are_stored<W, L, C>(
    st: WalkState<W, L, C>,
    actions: Seq<WalkActionUpdate<W>>,
    actions_frame: u64,
    frame_number: u64,
)
    requires
        crate::framed_updates::frames_consecutive(st.frames),
        st.frames.len() > 0,
        st.frames[0].frame_number <= actions_frame < st.frames[0].frame_number + st.frames.len(),
        actions_frame + LAG_COMPENSATION_FRAMES_LIMIT >= frame_number,
    ensures
        walk_run_returns(st, actions, actions_frame, frame_number),
        ({
            let k = actions_frame - st.frames[0].frame_number;
            walk_run(st, actions, actions_frame, frame_number) == WalkState {
                frames: st.frames.update(k, FrameView { walk: st.frames[k].walk + actions, ..st.frames[k] }),
                oldest_updated_frame: if actions.len() > 0 && actions_frame < st.oldest_updated_frame {
                    actions_frame
                } else {
                    st.oldest_updated_frame
                },
                discarded: st.discarded,
            }
        }),
    decreases actions.len(),
{
    let k = actions_frame - st.frames[0].frame_number;
    if actions.len() == 0 {
        assert(st.frames[k].walk + actions =~= st.frames[k].walk);
        assert(st.frames.update(k, FrameView { walk: st.frames[k].walk + actions, ..st.frames[k] }) =~= st.frames);
    } else {
        let rest = actions.drop_last();
        let a = actions.last();
        lemma_on_time_walk_actions_are_stored(st, rest, actions_frame, frame_number);
        let prev = walk_run(st, rest, actions_frame, frame_number);
        assert(prev.frames[0].frame_number == st.frames[0].frame_number);
        assert(lag_compensated_frame(actions_frame, frame_number) == actions_frame);
        assert(frames_to_move(actions_frame, frame_number) == 0);
        assert(!is_badly_late(actions_frame, frame_number));
        assert(walk_is_added(prev.frames, a.entity_net_id, actions_frame, frame_number));
        assert(has_frame(prev.frames, actions_frame));
        assert(frame_index(prev.frames, actions_frame) == k);
        assert(prev.frames[k].walk == st.frames[k].walk + rest);
        assert((st.frames[k].walk + rest).push(a) =~= st.frames[k].walk + actions);
        let res = walk_run(st, actions, actions_frame, frame_number);
        assert(res.frames =~= st.frames.update(k, FrameView { walk: st.frames[k].walk + actions, ..st.frames[k] }));
    }
}

/// A walk action that is not badly late (taken no more than twice the lag
/// compensation limit before the server frame) is never discarded on arrival:
/// it is stored at the end of the walk actions of its lag-compensated frame,
/// every frame keeps its frame number, and that frame becomes the oldest
/// updated one unless an older one already is.
pub proof fn lemma_walk_action_not_badly_late_is_stored<W, L, C>(
    st: WalkState<W, L, C>,
    action: WalkActionUpdate<W>,
    actions_frame: u64,
    frame_number: u64,
)
    requires
        crate::framed_updates::frames_consecutive(st.frames),
        actions_frame + 2 * LAG_COMPENSATION_FRAMES_LIMIT >= frame_number,
        ({
            let actual: int = if actions_frame + LAG_COMPENSATION_FRAMES_LIMIT >= frame_number {
                actions_frame as int
            } else {
                frame_number - LAG_COMPENSATION_FRAMES_LIMIT
            };
            st.frames.len() > 0 && st.frames[0].frame_number <= actual < st.frames[0].frame_number + st.frames.len()
        }),
    ensures
        ({
            let actual: int = if actions_frame + LAG_COMPENSATION_FRAMES_LIMIT >= frame_number {
                actions_frame as int
            } else {
                frame_number - LAG_COMPENSATION_FRAMES_LIMIT
            };
            let k = actual - st.frames[0].frame_number;
            let res = walk_step(st, action, actions_frame, frame_number);
            &&& res.frames.len() == st.frames.len()
            &&& forall|j: int| 0 <= j < st.frames.len() ==> (#[trigger] res.frames[j]).frame_number == st.frames[j].frame_number
            &&& res.frames[k].walk.len() > 0
            &&& res.frames[k].walk.last() == action
            &&& res.oldest_updated_frame == if actual < st.oldest_updated_frame {
                actual
            } else {
                st.oldest_updated_frame as int
            }
        }),
{
    let actual = lag_compensated_frame(actions_frame, frame_number);
    assert(!is_badly_late(actions_frame, frame_number));
    assert(walk_is_added(st.frames, action.entity_net_id, actions_frame, frame_number));
    let shift = frames_to_move(actions_frame, frame_number);
    let frames = if moves_walk_updates(actions_frame, frame_number) {
        moved_frames(st.frames, action.entity_net_id, shift, frame_number, actual)
    } else {
        st.frames
    };
    assert(frames.len() == st.frames.len());
    assert forall|j: int| 0 <= j < st.frames.len() implies (#[trigger] frames[j]).frame_number
        == st.frames[j].frame_number by {}
}


/// A badly late walk action (taken more than twice the lag compensation limit
/// before the server frame) is discarded, and nothing else changes, exactly
/// when a walk action of its entity is stored at the frame it was taken at or
/// later; otherwise it is stored at the end of the walk actions of the oldest
/// frame that can still change, and nothing is discarded.
pub proof fn lemma_badly_late_walk_action<W, L, C>(
    st: WalkState<W, L, C>,
    action: WalkActionUpdate<W>,
    actions_frame: u64,
    frame_number: u64,
)
    requires
        crate::framed_updates::frames_consecutive(st.frames),
        actions_frame + 2 * LAG_COMPENSATION_FRAMES_LIMIT < frame_number,
    ensures
        ({
            let res = walk_step(st, action, actions_frame, frame_number);
            let later = exists|j: int, i: int|
                0 <= j < st.frames.len() && st.frames[j].frame_number >= actions_frame && 0 <= i
                    < st.frames[j].walk.len() && (#[trigger] st.frames[j].walk[i]).entity_net_id
                    == action.entity_net_id;
            let actual = frame_number - LAG_COMPENSATION_FRAMES_LIMIT;
            let k = actual - st.frames[0].frame_number;
            &&& later ==> res == WalkState { discarded: st.discarded.push(action.data.client_action_id), ..st }
            &&& !later && st.frames.len() > 0 && st.frames[0].frame_number <= actual < st.frames[0].frame_number
                + st.frames.len() ==> res == WalkState {
                frames: st.frames.update(k, FrameView { walk: st.frames[k].walk.push(action), ..st.frames[k] }),
                oldest_updated_frame: if actual < st.oldest_updated_frame {
                    actual as u64
                } else {
                    st.oldest_updated_frame
                },
                discarded: st.discarded,
            }
        }),
{
    let e = action.entity_net_id;
    assert(is_badly_late(actions_frame, frame_number));
    assert(!moves_walk_updates(actions_frame, frame_number));
    assert(lag_compensated_frame(actions_frame, frame_number) == frame_number - LAG_COMPENSATION_FRAMES_LIMIT);
    if has_walk_from(st.frames, actions_frame, e) {
        let j = choose|j: int|
            0 <= j < st.frames.len() && (#[trigger] st.frames[j]).frame_number >= actions_frame
                && contains_entity(st.frames[j].walk, e);
        let i = choose|i: int| 0 <= i < st.frames[j].walk.len() && (#[trigger] st.frames[j].walk[i]).entity_net_id == e;
        assert(st.frames[j].walk[i].entity_net_id == e);
    } else {
        assert forall|j: int, i: int|
            0 <= j < st.frames.len() && st.frames[j].frame_number >= actions_frame && 0 <= i
                < st.frames[j].walk.len() implies (#[trigger] st.frames[j].walk[i]).entity_net_id != e by {
            if st.frames[j].walk[i].entity_net_id == e {
                assert(contains_entity(st.frames[j].walk, e));
            }
        }
    }
}


/// A late walk action that is not badly late (taken more than the lag
/// compensation limit, and at most twice that, before the server frame) is
/// stored at the oldest frame that can still change. Before that, in every
/// frame from there on, the first walk action of its entity is taken out and
/// put back at the end of the frame's walk actions, or discarded when the
/// frame, shifted by the delay beyond the limit, would be past the server
/// frame. Earlier frames, and frames without a walk action of the entity,
/// are left as they are.
pub proof fn lemma_late_walk_action_moves_later_ones<W, L, C>(
    st: WalkState<W, L, C>,
    action: WalkActionUpdate<W>,
    actions_frame: u64,
    frame_number: u64,
)
    requires
        crate::framed_updates::frames_consecutive(st.frames),
        actions_frame + LAG_COMPENSATION_FRAMES_LIMIT < frame_number,
        actions_frame + 2 * LAG_COMPENSATION_FRAMES_LIMIT >= frame_number,
        st.frames.len() > 0,
        st.frames[0].frame_number <= frame_number - LAG_COMPENSATION_FRAMES_LIMIT < st.frames[0].frame_number
            + st.frames.len(),
    ensures
        ({
            let res = walk_step(st, action, actions_frame, frame_number);
            let e = action.entity_net_id;
            let actual = frame_number - LAG_COMPENSATION_FRAMES_LIMIT;
            let shift = actual - actions_frame;
            let k = actual - st.frames[0].frame_number;
            let moved = |j: int| {
                let f = st.frames[j];
                if f.frame_number < actual || forall|i: int| 0 <= i < f.walk.len() ==> (#[trigger] f.walk[i]).entity_net_id != e {
                    f.walk
                } else {
                    let p = choose|p: int|
                        0 <= p < f.walk.len() && (#[trigger] f.walk[p]).entity_net_id == e && forall|q: int|
                            0 <= q < p ==> (#[trigger] f.walk[q]).entity_net_id != e;
                    if f.frame_number + shift > frame_number {
                        f.walk.remove(p)
                    } else {
                        f.walk.remove(p).push(f.walk[p])
                    }
                }
            };
            &&& res.frames.len() == st.frames.len()
            &&& res.oldest_updated_frame == if actual < st.oldest_updated_frame {
                actual
            } else {
                st.oldest_updated_frame as int
            }
            &&& forall|j: int| 0 <= j < st.frames.len() ==> (#[trigger] res.frames[j]).frame_number
                == st.frames[j].frame_number
            &&& forall|j: int| 0 <= j < st.frames.len() && j != k ==> (#[trigger] res.frames[j]).walk == moved(j)
            &&& res.frames[k].walk == moved(k).push(action)
        }),
{
    let e = action.entity_net_id;
    let actual = lag_compensated_frame(actions_frame, frame_number);
    let shift = frames_to_move(actions_frame, frame_number);
    assert(actual == frame_number - LAG_COMPENSATION_FRAMES_LIMIT);
    assert(shift == actual - actions_frame);
    assert(!is_badly_late(actions_frame, frame_number));
    assert(moves_walk_updates(actions_frame, frame_number));
    let frames = moved_frames(st.frames, e, shift, frame_number, actual);
    assert forall|j: int| 0 <= j < st.frames.len() implies {
        let f = st.frames[j];
        (#[trigger] frames[j]).walk == if f.frame_number < actual || forall|i: int|
            0 <= i < f.walk.len() ==> (#[trigger] f.walk[i]).entity_net_id != e {
            f.walk
        } else {
            let p = choose|p: int|
                0 <= p < f.walk.len() && (#[trigger] f.walk[p]).entity_net_id == e && forall|q: int|
                    0 <= q < p ==> (#[trigger] f.walk[q]).entity_net_id != e;
            if f.frame_number + shift > frame_number {
                f.walk.remove(p)
            } else {
                f.walk.remove(p).push(f.walk[p])
            }
        }
    } by {
        let f = st.frames[j];
        if f.frame_number >= actual && exists|i: int| 0 <= i < f.walk.len() && (#[trigger] f.walk[i]).entity_net_id == e {
            let i = choose|i: int| 0 <= i < f.walk.len() && (#[trigger] f.walk[i]).entity_net_id == e;
            lemma_first_occurrence(f.walk, e, i);
            let p = choose|p: int| crate::actions::is_first_entity_index(f.walk, e, p);
            crate::actions::lemma_first_entity_index_unique(f.walk, e, p);
            let p2 = choose|p: int|
                0 <= p < f.walk.len() && (#[trigger] f.walk[p]).entity_net_id == e && forall|q: int|
                    0 <= q < p ==> (#[trigger] f.walk[q]).entity_net_id != e;
            assert(crate::actions::is_first_entity_index(f.walk, e, p2));
            crate::actions::lemma_first_entity_index_unique(f.walk, e, p2);
            assert(is_moved(f, e, actual));
        } else {
            assert(!is_moved(f, e, actual));
        }
    }
}

} // verus!
