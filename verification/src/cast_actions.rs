use vstd::prelude::*;

use crate::actions::{
    contains_entity, next_id_after, ActionNotApplicable, ActionUpdateIdProvider, CastActionUpdate, ClientActionUpdate,
    IdentifiableAction, ImmediatePlayerActionsUpdates, NetUpdate, LAG_COMPENSATION_FRAMES_LIMIT,
};
use crate::framed_updates::{frame_index, has_frame, with_cast, FrameView, FramedUpdates};

verus! {

pub open spec fn saturating_sub(a: u64, b: u64) -> u64 {
    if a >= b { (a - b) as u64 } else { 0 }
}

/// The oldest frame that actions received at server frame `frame_number`
/// can still be applied to.
pub open spec fn oldest_possible_frame(frame_number: u64) -> u64 {
    saturating_sub(frame_number, LAG_COMPENSATION_FRAMES_LIMIT)
}

/// The frame that actions taken at `actions_frame` are applied to, when the
/// server is at frame `frame_number`: their own frame, moved forward to the
/// oldest frame that can still change.
pub open spec fn lag_compensated_frame(actions_frame: u64, frame_number: u64) -> u64 {
    if actions_frame > oldest_possible_frame(frame_number) {
        actions_frame
    } else {
        oldest_possible_frame(frame_number)
    }
}

pub fn compute_lag_compensated_frame(actions_frame: u64, frame_number: u64) -> (res: u64)
    ensures
        res == lag_compensated_frame(actions_frame, frame_number),
{
    let oldest_possible_frame = frame_number.saturating_sub(LAG_COMPENSATION_FRAMES_LIMIT);
    if actions_frame > oldest_possible_frame {
        actions_frame
    } else {
        oldest_possible_frame
    }
}

/// Whether a cast action of `entity` is already stored at frame `from_frame`
/// or later.
pub open spec fn has_cast_from<W, L, C>(frames: Seq<FrameView<W, L, C>>, from_frame: u64, entity: u64) -> bool {
    exists|k: int|
        0 <= k < frames.len() && (#[trigger] frames[k]).frame_number >= from_frame
            && contains_entity(frames[k].cast, entity)
}

/// What adding cast actions acts on: the frames, the oldest updated frame
/// and the next action identifier.
pub struct CastState<W, L, C> {
    pub frames: Seq<FrameView<W, L, C>>,
    pub oldest_updated_frame: u64,
    pub next_id: u64,
}

/// One cast action: it is stored at `actual_frame` under a fresh identifier,
/// unless a cast of the same entity is already stored at that frame or later.
pub open spec fn cast_step<W, L, C>(
    st: CastState<W, L, C>,
    action: NetUpdate<ClientActionUpdate<C>>,
    actual_frame: u64,
) -> CastState<W, L, C> {
    if has_cast_from(st.frames, actual_frame, action.entity_net_id) {
        st
    } else {
        let k = frame_index(st.frames, actual_frame);
        let stored: CastActionUpdate<C> = NetUpdate {
            entity_net_id: action.entity_net_id,
            data: IdentifiableAction { action_id: st.next_id, action: action.data },
        };
        CastState {
            frames: st.frames.update(k, with_cast(st.frames[k], st.frames[k].cast.push(stored))),
            oldest_updated_frame: if actual_frame < st.oldest_updated_frame {
                actual_frame
            } else {
                st.oldest_updated_frame
            },
            next_id: next_id_after(st.next_id),
        }
    }
}

/// The cast actions `actions`, one after the other.
pub open spec fn cast_run<W, L, C>(
    st: CastState<W, L, C>,
    actions: Seq<NetUpdate<ClientActionUpdate<C>>>,
    actual_frame: u64,
) -> CastState<W, L, C>
    decreases actions.len(),
{
    if actions.len() == 0 {
        st
    } else {
        cast_step(cast_run(st, actions.drop_last(), actual_frame), actions.last(), actual_frame)
    }
}

/// Every frame of `b` has the frame number of the same frame of `a` and holds
/// the cast actions of it, and maybe more after them.
pub open spec fn casts_extend<W, L, C>(a: Seq<FrameView<W, L, C>>, b: Seq<FrameView<W, L, C>>) -> bool {
    &&& a.len() == b.len()
    &&& forall|k: int| 0 <= k < a.len() ==> (#[trigger] b[k]).frame_number == a[k].frame_number
        && a[k].cast.len() <= b[k].cast.len()
        && b[k].cast.subrange(0, a[k].cast.len() as int) == a[k].cast
}

proof fn lemma_casts_extend_keeps_pending<W, L, C>(
    a: Seq<FrameView<W, L, C>>,
    b: Seq<FrameView<W, L, C>>,
    from_frame: u64,
    entity: u64,
)
    requires
        casts_extend(a, b),
        has_cast_from(a, from_frame, entity),
    ensures
        has_cast_from(b, from_frame, entity),
{
    let k = choose|k: int|
        0 <= k < a.len() && (#[trigger] a[k]).frame_number >= from_frame
            && contains_entity(a[k].cast, entity);
    let i = choose|i: int| 0 <= i < a[k].cast.len() && (#[trigger] a[k].cast[i]).entity_net_id == entity;
    assert(b[k].cast.subrange(0, a[k].cast.len() as int)[i] == b[k].cast[i]);
    assert(contains_entity(b[k].cast, entity));
}

fn has_cast_from_exec<W, L, C>(framed_updates: &FramedUpdates<W, L, C>, from_frame: u64, entity: u64) -> (res: bool)
    ensures
        res == has_cast_from(framed_updates.frames(), from_frame, entity),
{
    let ghost before = framed_updates.frames();
    let n = framed_updates.len();
    let mut k: usize = 0;
    while k < n
        invariant
            n == before.len(),
            k <= n,
            framed_updates.frames() == before,
            forall|j: int| 0 <= j < k ==> !((#[trigger] before[j]).frame_number >= from_frame
                && contains_entity(before[j].cast, entity)),
        decreases n - k,
    {
        if framed_updates.frame_number_at(k) >= from_frame {
            if framed_updates.cast_position(k, entity).is_some() {
                return true;
            }
        }
        k = k + 1;
    }
    false
}

/// Whether the cast actions `actions` can be added: either their frame is
/// held, or every one of them is dropped.
pub open spec fn cast_actions_apply<W, L, C>(
    frames: Seq<FrameView<W, L, C>>,
    actions: ImmediatePlayerActionsUpdates<C>,
    frame_number: u64,
) -> bool {
    let actual_frame = lag_compensated_frame(actions.frame_number, frame_number);
    has_frame(frames, actual_frame) || forall|i: int| 0 <= i < actions.updates@.len() ==> has_cast_from(
        frames,
        actual_frame,
        (#[trigger] actions.updates@[i]).entity_net_id,
    )
}

/// Adds cast actions as `add_cast_actions` does when they can be added (see
/// `cast_actions_apply`); otherwise changes nothing and reports the position
/// of the first action whose entity has no cast action stored at or after the
/// lag-compensated frame.
pub fn try_add_cast_actions<W, L, C>(
    framed_updates: &mut FramedUpdates<W, L, C>,
    actions: ImmediatePlayerActionsUpdates<C>,
    action_update_id_provider: &mut ActionUpdateIdProvider,
    frame_number: u64,
) -> (res: Result<(), ActionNotApplicable>)
    requires
        old(framed_updates).well_formed(),
    ensures
        final(framed_updates).well_formed(),
        match res {
            Ok(()) => {
                let res = cast_run(
                    CastState {
                        frames: old(framed_updates).frames(),
                        oldest_updated_frame: old(framed_updates).oldest_updated_frame,
                        next_id: old(action_update_id_provider).next_id,
                    },
                    actions.updates@,
                    lag_compensated_frame(actions.frame_number, frame_number),
                );
                &&& cast_actions_apply(old(framed_updates).frames(), actions, frame_number)
                &&& final(framed_updates).frames() == res.frames
                &&& final(framed_updates).oldest_updated_frame == res.oldest_updated_frame
                &&& final(action_update_id_provider).next_id == res.next_id
            },
            Err(e) => {
                let actual_frame = lag_compensated_frame(actions.frame_number, frame_number);
                &&& !cast_actions_apply(old(framed_updates).frames(), actions, frame_number)
                &&& e.index < actions.updates@.len()
                &&& !has_cast_from(old(framed_updates).frames(), actual_frame, actions.updates@[e.index as int].entity_net_id)
                &&& forall|i: int| 0 <= i < e.index ==> has_cast_from(
                    old(framed_updates).frames(),
                    actual_frame,
                    (#[trigger] actions.updates@[i]).entity_net_id,
                )
                &&& *final(framed_updates) == *old(framed_updates)
                &&& *final(action_update_id_provider) == *old(action_update_id_provider)
            },
        },
{
    let actual_frame = compute_lag_compensated_frame(actions.frame_number, frame_number);
    if !framed_updates.holds_frame(actual_frame) {
        let mut i: usize = 0;
        while i < actions.updates.len()
            invariant
                i <= actions.updates@.len(),
                actual_frame == lag_compensated_frame(actions.frame_number, frame_number),
                *framed_updates == *old(framed_updates),
                *action_update_id_provider == *old(action_update_id_provider),
                !has_frame(framed_updates.frames(), actual_frame),
                framed_updates.well_formed(),
                forall|j: int| 0 <= j < i ==> has_cast_from(
                    framed_updates.frames(),
                    actual_frame,
                    (#[trigger] actions.updates@[j]).entity_net_id,
                ),
            decreases actions.updates@.len() - i,
        {
            if !has_cast_from_exec(framed_updates, actual_frame, actions.updates[i].entity_net_id) {
                return Err(ActionNotApplicable { index: i });
            }
            i = i + 1;
        }
    }
    add_cast_actions(framed_updates, actions, action_update_id_provider, frame_number);
    Ok(())
}

/// Adds the cast actions a client took at `actions.frame_number` to the
/// frames, at their lag-compensated frame, when the server is at frame
/// `frame_number`. An action whose entity already has a cast action stored at
/// that frame or later is dropped; the others get fresh identifiers.
pub fn add_cast_actions<W, L, C>(
    framed_updates: &mut FramedUpdates<W, L, C>,
    actions: ImmediatePlayerActionsUpdates<C>,
    action_update_id_provider: &mut ActionUpdateIdProvider,
    frame_number: u64,
)
    requires
        old(framed_updates).well_formed(),
        cast_actions_apply(old(framed_updates).frames(), actions, frame_number),
    ensures
        final(framed_updates).well_formed(),
        ({
            let res = cast_run(
                CastState {
                    frames: old(framed_updates).frames(),
                    oldest_updated_frame: old(framed_updates).oldest_updated_frame,
                    next_id: old(action_update_id_provider).next_id,
                },
                actions.updates@,
                lag_compensated_frame(actions.frame_number, frame_number),
            );
            &&& final(framed_updates).frames() == res.frames
            &&& final(framed_updates).oldest_updated_frame == res.oldest_updated_frame
            &&& final(action_update_id_provider).next_id == res.next_id
        }),
{
    let actual_frame = compute_lag_compensated_frame(actions.frame_number, frame_number);
    let ghost frames0 = framed_updates.frames();
    let ghost init = CastState {
        frames: frames0,
        oldest_updated_frame: framed_updates.oldest_updated_frame,
        next_id: action_update_id_provider.next_id,
    };
    let ghost all_actions = actions.updates@;
    assert forall|k: int| 0 <= k < frames0.len() implies
        (#[trigger] frames0[k]).cast.subrange(0, frames0[k].cast.len() as int) == frames0[k].cast by {
        assert(frames0[k].cast.subrange(0, frames0[k].cast.len() as int) =~= frames0[k].cast);
    }
    for action_update in it: actions.updates.into_iter()
        invariant
            all_actions == it.seq(),
            framed_updates.well_formed(),
            casts_extend(frames0, framed_updates.frames()),
            has_frame(frames0, actual_frame) || forall|i: int| 0 <= i < all_actions.len() ==> has_cast_from(
                frames0,
                actual_frame,
                (#[trigger] all_actions[i]).entity_net_id,
            ),
            ({
                let res = cast_run(init, all_actions.take(it.index() as int), actual_frame);
                &&& framed_updates.frames() == res.frames
                &&& framed_updates.oldest_updated_frame == res.oldest_updated_frame
                &&& action_update_id_provider.next_id == res.next_id
            }),
    {
        let ghost idx = it.index() as int;
        let ghost before = framed_updates.frames();
        assert(all_actions.take(idx + 1).drop_last() =~= all_actions.take(idx));
        assert(all_actions.take(idx + 1).last() == action_update);
        let entity = action_update.entity_net_id;
        // Dropped when a cast of this entity is already stored at the frame or later.
        let mut is_added = true;
        let mut k: usize = 0;
        let n = framed_updates.len();
        while k < n
            invariant
                n == framed_updates.frames().len(),
                k <= n,
                framed_updates.frames() == before,
                is_added == !exists|j: int|
                    0 <= j < k && (#[trigger] before[j]).frame_number >= actual_frame
                        && contains_entity(before[j].cast, entity),
            decreases n - k,
        {
            if framed_updates.frame_number_at(k) >= actual_frame {
                if framed_updates.cast_position(k, entity).is_some() {
                    is_added = false;
                }
            }
            k = k + 1;
        }
        if is_added {
            proof {
                if !has_frame(frames0, actual_frame) {
                    assert(all_actions[idx] == action_update);
                    lemma_casts_extend_keeps_pending(frames0, before, actual_frame, entity);
                }
            }
            let found = framed_updates.update_frame(actual_frame);
            let k = found.unwrap();
            let action_id = action_update_id_provider.next_update_id();
            framed_updates.push_cast(k, NetUpdate {
                entity_net_id: action_update.entity_net_id,
                data: IdentifiableAction { action_id, action: action_update.data },
            });
            proof {
                let after = framed_updates.frames();
                assert forall|j: int| 0 <= j < frames0.len() implies
                    (#[trigger] after[j]).frame_number == frames0[j].frame_number
                        && frames0[j].cast.len() <= after[j].cast.len()
                        && after[j].cast.subrange(0, frames0[j].cast.len() as int) == frames0[j].cast by {
                    if j == k as int {
                        assert(after[j].cast.subrange(0, frames0[j].cast.len() as int)
                            =~= before[j].cast.subrange(0, frames0[j].cast.len() as int));
                    }
                }
                assert forall|i: int| 0 <= i < after.len() implies
                    (#[trigger] after[i]).frame_number == after[0].frame_number + i by {
                    assert(before[i].frame_number == before[0].frame_number + i);
                }
            }
        }
    }
    assert(all_actions.take(all_actions.len() as int) =~= all_actions);
}

/// From frame `from_frame` on, no two stored cast actions concern the same
/// entity.
pub open spec fn casts_unique_from<W, L, C>(frames: Seq<FrameView<W, L, C>>, from_frame: u64) -> bool {
    forall|k1: int, i1: int, k2: int, i2: int|
        0 <= k1 < frames.len() && 0 <= k2 < frames.len() && 0 <= i1 < frames[k1].cast.len() && 0 <= i2
            < frames[k2].cast.len() && frames[k1].frame_number >= from_frame && frames[k2].frame_number
            >= from_frame && (k1 != k2 || i1 != i2) ==> (#[trigger] frames[k1].cast[i1]).entity_net_id
            != (#[trigger] frames[k2].cast[i2]).entity_net_id
}

/// Adding cast actions keeps at most one cast action per entity from their
/// lag-compensated frame on, and only ever adds cast actions after the stored
/// ones.
pub proof fn lemma_cast_run_keeps_casts_unique<W, L, C>(
    st: CastState<W, L, C>,
    actions: Seq<NetUpdate<ClientActionUpdate<C>>>,
    actual_frame: u64,
)
    requires
        crate::framed_updates::frames_consecutive(st.frames),
        casts_unique_from(st.frames, actual_frame),
        has_frame(st.frames, actual_frame) || forall|i: int| 0 <= i < actions.len() ==> has_cast_from(
            st.frames,
            actual_frame,
            (#[trigger] actions[i]).entity_net_id,
        ),
    ensures
        casts_unique_from(cast_run(st, actions, actual_frame).frames, actual_frame),
        casts_extend(st.frames, cast_run(st, actions, actual_frame).frames),
    decreases actions.len(),
{
    if actions.len() == 0 {
        assert forall|k: int| 0 <= k < st.frames.len() implies
            (#[trigger] st.frames[k]).cast.subrange(0, st.frames[k].cast.len() as int) == st.frames[k].cast by {
            assert(st.frames[k].cast.subrange(0, st.frames[k].cast.len() as int) =~= st.frames[k].cast);
        }
    } else {
        let rest = actions.drop_last();
        let a = actions.last();
        assert forall|i: int| 0 <= i < rest.len() && !has_frame(st.frames, actual_frame) implies has_cast_from(
            st.frames,
            actual_frame,
            (#[trigger] rest[i]).entity_net_id,
        ) by {
            assert(rest[i] == actions[i]);
        }
        lemma_cast_run_keeps_casts_unique(st, rest, actual_frame);
        let prev = cast_run(st, rest, actual_frame);
        let fs = prev.frames;
        if !has_cast_from(fs, actual_frame, a.entity_net_id) {
            if !has_frame(st.frames, actual_frame) {
                assert(actions[actions.len() - 1] == a);
                lemma_casts_extend_keeps_pending(st.frames, fs, actual_frame, a.entity_net_id);
            }
            assert(fs[0].frame_number == st.frames[0].frame_number);
            let k = frame_index(fs, actual_frame);
            assert(fs[k].frame_number == st.frames[k].frame_number);
            assert(st.frames[k].frame_number == st.frames[0].frame_number + k);
            let res = cast_run(st, actions, actual_frame).frames;
            let n = fs[k].cast.len() as int;
            assert forall|k1: int, i1: int, k2: int, i2: int|
                0 <= k1 < res.len() && 0 <= k2 < res.len() && 0 <= i1 < res[k1].cast.len() && 0 <= i2
                    < res[k2].cast.len() && res[k1].frame_number >= actual_frame && res[k2].frame_number
                    >= actual_frame && (k1 != k2 || i1 != i2) implies (#[trigger] res[k1].cast[i1]).entity_net_id
                    != (#[trigger] res[k2].cast[i2]).entity_net_id by {
                if k1 == k && i1 == n {
                    if !(k2 == k && i2 == n) {
                        assert(res[k2].cast[i2] == fs[k2].cast[i2]);
                        assert(contains_entity(fs[k2].cast, res[k2].cast[i2].entity_net_id));
                    }
                } else if k2 == k && i2 == n {
                    assert(res[k1].cast[i1] == fs[k1].cast[i1]);
                    assert(contains_entity(fs[k1].cast, res[k1].cast[i1].entity_net_id));
                } else {
                    assert(res[k1].cast[i1] == fs[k1].cast[i1]);
                    assert(res[k2].cast[i2] == fs[k2].cast[i2]);
                }
            }
            assert forall|j: int| 0 <= j < st.frames.len() implies
                (#[trigger] res[j]).frame_number == st.frames[j].frame_number
                    && st.frames[j].cast.len() <= res[j].cast.len()
                    && res[j].cast.subrange(0, st.frames[j].cast.len() as int) == st.frames[j].cast by {
                if j == k {
                    assert(res[j].cast.subrange(0, st.frames[j].cast.len() as int)
                        =~= fs[j].cast.subrange(0, st.frames[j].cast.len() as int));
                }
            }
        }
    }
}

/// Adding cast actions never moves the oldest updated frame later.
pub proof fn lemma_cast_run_oldest_only_decreases<W, L, C>(
    st: CastState<W, L, C>,
    actions: Seq<NetUpdate<ClientActionUpdate<C>>>,
    actual_frame: u64,
)
    ensures
        cast_run(st, actions, actual_frame).oldest_updated_frame <= st.oldest_updated_frame,
    decreases actions.len(),
{
    if actions.len() > 0 {
        lemma_cast_run_oldest_only_decreases(st, actions.drop_last(), actual_frame);
    }
}


/// Adding cast actions keeps the frames and their frame numbers, as long as
/// their lag-compensated frame is held.
proof fn lemma_cast_run_keeps_frame_numbers<W, L, C>(
    st: CastState<W, L, C>,
    actions: Seq<NetUpdate<ClientActionUpdate<C>>>,
    actual_frame: u64,
)
    requires
        crate::framed_updates::frames_consecutive(st.frames),
        has_frame(st.frames, actual_frame),
    ensures
        cast_run(st, actions, actual_frame).frames.len() == st.frames.len(),
        forall|j: int| 0 <= j < st.frames.len() ==> (#[trigger] cast_run(st, actions, actual_frame).frames[j]).frame_number
            == st.frames[j].frame_number,
    decreases actions.len(),
{
    if actions.len() > 0 {
        lemma_cast_run_keeps_frame_numbers(st, actions.drop_last(), actual_frame);
    }
}

/// A cast action whose entity has no cast action stored at its
/// lag-compensated frame or later is stored at the end of the cast actions of
/// that frame, under the next identifier, which then moves on; cast actions of
/// the entity stored at earlier frames do not matter. One whose entity has a
/// cast action stored there or later changes nothing.
pub proof fn lemma_cast_stored_unless_pending<W, L, C>(
    st: CastState<W, L, C>,
    actions: Seq<NetUpdate<ClientActionUpdate<C>>>,
    action: NetUpdate<ClientActionUpdate<C>>,
    actual_frame: u64,
)
    requires
        crate::framed_updates::frames_consecutive(st.frames),
        st.frames.len() > 0,
        st.frames[0].frame_number <= actual_frame < st.frames[0].frame_number + st.frames.len(),
    ensures
        ({
            let prev = cast_run(st, actions, actual_frame);
            let res = cast_run(st, actions.push(action), actual_frame);
            let k = actual_frame - st.frames[0].frame_number;
            let pending = exists|j: int, i: int|
                0 <= j < prev.frames.len() && prev.frames[j].frame_number >= actual_frame && 0 <= i
                    < prev.frames[j].cast.len() && (#[trigger] prev.frames[j].cast[i]).entity_net_id
                    == action.entity_net_id;
            &&& prev.frames.len() == st.frames.len()
            &&& forall|j: int| 0 <= j < st.frames.len() ==> (#[trigger] prev.frames[j]).frame_number
                == st.frames[j].frame_number
            &&& !pending ==> res == CastState {
                frames: prev.frames.update(
                    k,
                    FrameView {
                        cast: prev.frames[k].cast.push(
                            NetUpdate {
                                entity_net_id: action.entity_net_id,
                                data: IdentifiableAction { action_id: prev.next_id, action: action.data },
                            },
                        ),
                        ..prev.frames[k]
                    },
                ),
                oldest_updated_frame: if actual_frame < prev.oldest_updated_frame {
                    actual_frame
                } else {
                    prev.oldest_updated_frame
                },
                next_id: if prev.next_id == u64::MAX { 0 } else { (prev.next_id + 1) as u64 },
            }
            &&& pending ==> res == prev
        }),
{
    lemma_cast_run_keeps_frame_numbers(st, actions, actual_frame);
    let prev = cast_run(st, actions, actual_frame);
    assert(actions.push(action).drop_last() =~= actions);
    assert(cast_run(st, actions.push(action), actual_frame) == cast_step(prev, action, actual_frame));
    let e = action.entity_net_id;
    if has_cast_from(prev.frames, actual_frame, e) {
        let j = choose|j: int|
            0 <= j < prev.frames.len() && (#[trigger] prev.frames[j]).frame_number >= actual_frame
                && contains_entity(prev.frames[j].cast, e);
        let i = choose|i: int| 0 <= i < prev.frames[j].cast.len() && (#[trigger] prev.frames[j].cast[i]).entity_net_id == e;
        assert(prev.frames[j].cast[i].entity_net_id == e);
    } else {
        assert forall|j: int, i: int|
            0 <= j < prev.frames.len() && prev.frames[j].frame_number >= actual_frame && 0 <= i
                < prev.frames[j].cast.len() implies (#[trigger] prev.frames[j].cast[i]).entity_net_id != e by {
            if prev.frames[j].cast[i].entity_net_id == e {
                assert(contains_entity(prev.frames[j].cast, e));
            }
        }
        assert(prev.frames[0].frame_number == st.frames[0].frame_number);
    }
}

} // verus!
