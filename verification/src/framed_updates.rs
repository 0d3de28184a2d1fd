use vstd::prelude::*;

use crate::actions::{
    contains_entity, first_entity_index, is_first_entity_index, position_of_entity, CastActionUpdate,
    NetUpdate, WalkActionUpdate,
};

verus! {

/// The client actions that the server received for one game frame.
pub struct ReceivedClientActionUpdates<W, L, C> {
    pub frame_number: u64,
    pub walk_action_updates: Vec<WalkActionUpdate<W>>,
    pub look_action_updates: Vec<NetUpdate<L>>,
    pub cast_action_updates: Vec<CastActionUpdate<C>>,
}

/// The contents of one frame of received client actions.
pub struct FrameView<W, L, C> {
    pub frame_number: u64,
    pub walk: Seq<WalkActionUpdate<W>>,
    pub look: Seq<NetUpdate<L>>,
    pub cast: Seq<CastActionUpdate<C>>,
}

impl<W, L, C> View for ReceivedClientActionUpdates<W, L, C> {
    type V = FrameView<W, L, C>;

    open spec fn view(&self) -> FrameView<W, L, C> {
        FrameView {
            frame_number: self.frame_number,
            walk: self.walk_action_updates@,
            look: self.look_action_updates@,
            cast: self.cast_action_updates@,
        }
    }
}

impl<W, L, C> ReceivedClientActionUpdates<W, L, C> {
    /// A frame with no actions in it.
    pub fn new_update(frame_number: u64) -> (res: Self)
        ensures
            res@ == empty_frame::<W, L, C>(frame_number),
    {
        ReceivedClientActionUpdates {
            frame_number,
            walk_action_updates: Vec::new(),
            look_action_updates: Vec::new(),
            cast_action_updates: Vec::new(),
        }
    }
}

pub open spec fn empty_frame<W, L, C>(frame_number: u64) -> FrameView<W, L, C> {
    FrameView { frame_number, walk: Seq::empty(), look: Seq::empty(), cast: Seq::empty() }
}

pub open spec fn with_walk<W, L, C>(f: FrameView<W, L, C>, walk: Seq<WalkActionUpdate<W>>) -> FrameView<W, L, C> {
    FrameView { walk, ..f }
}

pub open spec fn with_look<W, L, C>(f: FrameView<W, L, C>, look: Seq<NetUpdate<L>>) -> FrameView<W, L, C> {
    FrameView { look, ..f }
}

pub open spec fn with_cast<W, L, C>(f: FrameView<W, L, C>, cast: Seq<CastActionUpdate<C>>) -> FrameView<W, L, C> {
    FrameView { cast, ..f }
}

/// Frames hold consecutive frame numbers, in increasing order.
pub open spec fn frames_consecutive<W, L, C>(frames: Seq<FrameView<W, L, C>>) -> bool {
    forall|i: int| 0 <= i < frames.len() ==> (#[trigger] frames[i]).frame_number == frames[0].frame_number + i
}

/// Whether `frames` holds the frame numbered `frame_number`.
pub open spec fn has_frame<W, L, C>(frames: Seq<FrameView<W, L, C>>, frame_number: u64) -> bool {
    frames.len() > 0 && frames[0].frame_number <= frame_number < frames[0].frame_number + frames.len()
}

/// The position of frame `frame_number` among consecutive frames.
pub open spec fn frame_index<W, L, C>(frames: Seq<FrameView<W, L, C>>, frame_number: u64) -> int {
    frame_number - frames[0].frame_number
}

/// The position of the first frame numbered `frame_number` or later among
/// consecutive frames (the length of `frames` when there is none).
pub open spec fn first_index_from<W, L, C>(frames: Seq<FrameView<W, L, C>>, frame_number: u64) -> int {
    if frames.len() == 0 || frame_number <= frames[0].frame_number {
        0
    } else if frame_number - frames[0].frame_number < frames.len() {
        frame_number - frames[0].frame_number
    } else {
        frames.len() as int
    }
}

/// The number of the last frame, or 0 when there is none.
pub open spec fn last_frame_number<W, L, C>(frames: Seq<FrameView<W, L, C>>) -> u64 {
    if frames.len() == 0 { 0 } else { frames.last().frame_number }
}

/// `frames` after making sure that every frame up to `frame_number` is there:
/// empty frames are appended after the last one (from frame 0 when there is
/// none).
pub open spec fn reserved_frames<W, L, C>(frames: Seq<FrameView<W, L, C>>, frame_number: u64) -> Seq<FrameView<W, L, C>> {
    let start: int = if frames.len() == 0 { 0 } else { frames.last().frame_number + 1 };
    if frame_number < start {
        frames
    } else {
        frames + Seq::new((frame_number - start + 1) as nat, |i: int| empty_frame::<W, L, C>((start + i) as u64))
    }
}

/// Reserving frames keeps frame numbers consecutive.
pub proof fn lemma_reserved_frames_consecutive<W, L, C>(frames: Seq<FrameView<W, L, C>>, frame_number: u64)
    requires
        frames_consecutive(frames),
    ensures
        frames_consecutive(reserved_frames(frames, frame_number)),
{
    let res = reserved_frames(frames, frame_number);
    assert forall|i: int| 0 <= i < res.len() implies (#[trigger] res[i]).frame_number == res[0].frame_number + i by {
        if i >= frames.len() && frames.len() > 0 {
            assert(frames.last().frame_number == frames[0].frame_number + frames.len() - 1);
        }
    }
}

/// Reserving frames up to `frame_number` keeps the frames that were there and
/// only appends empty ones after them; afterwards the frames reach
/// `frame_number`, and hold it unless it is older than the first frame.
pub proof fn lemma_reserved_frames_hold<W, L, C>(frames: Seq<FrameView<W, L, C>>, frame_number: u64)
    requires
        frames_consecutive(frames),
    ensures
        ({
            let res = reserved_frames(frames, frame_number);
            &&& res.len() >= frames.len()
            &&& forall|j: int| 0 <= j < frames.len() ==> #[trigger] res[j] == frames[j]
            &&& forall|j: int| frames.len() <= j < res.len() ==> {
                &&& (#[trigger] res[j]).walk.len() == 0
                &&& res[j].look.len() == 0
                &&& res[j].cast.len() == 0
            }
            &&& res.len() > 0
            &&& res.last().frame_number >= frame_number
            &&& frames.len() == 0 || frames[0].frame_number <= frame_number ==> res[0].frame_number <= frame_number
                < res[0].frame_number + res.len()
        }),
{
    lemma_reserved_frames_consecutive(frames, frame_number);
    if frames.len() > 0 {
        assert(frames.last().frame_number == frames[0].frame_number + frames.len() - 1);
    }
    let res = reserved_frames(frames, frame_number);
    assert(res.last().frame_number == res[0].frame_number + res.len() - 1);
}

/// Received client actions, one entry per frame, oldest frame first.
pub struct FramedUpdates<W, L, C> {
    /// The oldest frame whose actions changed since the world was last
    /// simulated from it.
    pub oldest_updated_frame: u64,
    pub updates: Vec<ReceivedClientActionUpdates<W, L, C>>,
}

impl<W, L, C> FramedUpdates<W, L, C> {
    pub open spec fn frames(&self) -> Seq<FrameView<W, L, C>> {
        self.updates@.map_values(|u: ReceivedClientActionUpdates<W, L, C>| u@)
    }

    /// The frames hold consecutive frame numbers.
    pub open spec fn well_formed(&self) -> bool {
        frames_consecutive(self.frames())
    }

    pub fn new() -> (res: Self)
        ensures
            res.well_formed(),
            res.frames() == Seq::<FrameView<W, L, C>>::empty(),
            res.oldest_updated_frame == 0,
    {
        let res = FramedUpdates { oldest_updated_frame: 0, updates: Vec::new() };
        assert(res.frames() =~= Seq::<FrameView<W, L, C>>::empty());
        res
    }

    pub fn len(&self) -> (n: usize)
        ensures
            n == self.frames().len(),
    {
        self.updates.len()
    }

    /// Whether the frame numbered `frame_number` is held.
    pub fn holds_frame(&self, frame_number: u64) -> (res: bool)
        requires
            self.well_formed(),
        ensures
            res == has_frame(self.frames(), frame_number),
    {
        let n = self.updates.len();
        if n == 0 {
            return false;
        }
        let first = self.updates[0].frame_number;
        assert(self.frames()[0].frame_number == first);
        frame_number >= first && frame_number - first < n as u64
    }

    pub fn frame_number_at(&self, k: usize) -> (n: u64)
        requires
            k < self.frames().len(),
        ensures
            n == self.frames()[k as int].frame_number,
    {
        self.updates[k].frame_number
    }

    /// Appends empty frames so that every frame up to `frame_number` is held.
    pub fn reserve_updates(&mut self, frame_number: u64)
        requires
            old(self).well_formed(),
        ensures
            final(self).well_formed(),
            final(self).frames() == reserved_frames(old(self).frames(), frame_number),
            final(self).oldest_updated_frame == old(self).oldest_updated_frame,
    {
        let ghost frames0 = self.frames();
        let n = self.updates.len();
        if n > 0 && frame_number <= self.updates[n - 1].frame_number {
            return;
        }
        let mut next: u64 = if n == 0 { 0 } else { self.updates[n - 1].frame_number + 1 };
        let ghost start: int = next as int;
        let ghost count: nat = (frame_number - start + 1) as nat;
        let ghost added = Seq::new(count, |i: int| empty_frame::<W, L, C>((start + i) as u64));
        while next < frame_number
            invariant
                start <= next <= frame_number,
                start == (if frames0.len() == 0 { 0int } else { frames0.last().frame_number + 1 }),
                count == frame_number - start + 1,
                added == Seq::new(count, |i: int| empty_frame::<W, L, C>((start + i) as u64)),
                self.frames() == frames0 + added.take(next - start),
                self.oldest_updated_frame == old(self).oldest_updated_frame,
            decreases frame_number - next,
        {
            let ghost before = self.frames();
            self.updates.push(ReceivedClientActionUpdates::new_update(next));
            assert(self.frames() =~= before.push(empty_frame::<W, L, C>(next)));
            assert(added.take(next + 1 - start) =~= added.take(next - start).push(added[next - start]));
            next = next + 1;
        }
        let ghost before = self.frames();
        self.updates.push(ReceivedClientActionUpdates::new_update(next));
        assert(self.frames() =~= before.push(empty_frame::<W, L, C>(next)));
        assert(added =~= added.take(next - start).push(added[next - start]));
        assert(self.frames() == frames0 + added);
        assert forall|i: int| 0 <= i < self.frames().len() implies
            (#[trigger] self.frames()[i]).frame_number == self.frames()[0].frame_number + i by {
            if i >= frames0.len() {
                if frames0.len() > 0 {
                    assert(frames0.last().frame_number == frames0[0].frame_number + frames0.len() - 1);
                }
            }
        }
    }

    /// Finds the frame numbered `frame_number`, lowering the oldest updated
    /// frame to it.
    pub fn update_frame(&mut self, frame_number: u64) -> (res: Option<usize>)
        requires
            old(self).well_formed(),
        ensures
            final(self).frames() == old(self).frames(),
            final(self).oldest_updated_frame == if frame_number < old(self).oldest_updated_frame {
                frame_number
            } else {
                old(self).oldest_updated_frame
            },
            match res {
                Some(k) => has_frame(old(self).frames(), frame_number)
                    && k == frame_index(old(self).frames(), frame_number),
                None => !has_frame(old(self).frames(), frame_number),
            },
    {
        if frame_number < self.oldest_updated_frame {
            self.oldest_updated_frame = frame_number;
        }
        let n = self.updates.len();
        if n == 0 {
            return None;
        }
        let first = self.updates[0].frame_number;
        assert(self.frames()[n - 1].frame_number == first + n - 1);
        if frame_number < first || frame_number - first >= n as u64 {
            return None;
        }
        let k = (frame_number - first) as usize;
        assert(self.frames()[k as int].frame_number == first + k);
        Some(k)
    }
}

impl<W, L, C> FramedUpdates<W, L, C> {
    pub fn push_walk(&mut self, k: usize, update: WalkActionUpdate<W>)
        requires
            k < old(self).frames().len(),
        ensures
            final(self).frames() == old(self).frames().update(
                k as int,
                with_walk(old(self).frames()[k as int], old(self).frames()[k as int].walk.push(update)),
            ),
            final(self).oldest_updated_frame == old(self).oldest_updated_frame,
    {
        self.updates[k].walk_action_updates.push(update);
        assert(self.frames() =~= old(self).frames().update(
            k as int,
            with_walk(old(self).frames()[k as int], old(self).frames()[k as int].walk.push(update)),
        ));
    }

    pub fn remove_walk(&mut self, k: usize, i: usize) -> (update: WalkActionUpdate<W>)
        requires
            k < old(self).frames().len(),
            i < old(self).frames()[k as int].walk.len(),
        ensures
            update == old(self).frames()[k as int].walk[i as int],
            final(self).frames() == old(self).frames().update(
                k as int,
                with_walk(old(self).frames()[k as int], old(self).frames()[k as int].walk.remove(i as int)),
            ),
            final(self).oldest_updated_frame == old(self).oldest_updated_frame,
    {
        let update = self.updates[k].walk_action_updates.remove(i);
        assert(self.frames() =~= old(self).frames().update(
            k as int,
            with_walk(old(self).frames()[k as int], old(self).frames()[k as int].walk.remove(i as int)),
        ));
        update
    }

    pub fn walk_position(&self, k: usize, entity: u64) -> (res: Option<usize>)
        requires
            k < self.frames().len(),
        ensures
            match res {
                Some(i) => is_first_entity_index(self.frames()[k as int].walk, entity, i as int)
                    && first_entity_index(self.frames()[k as int].walk, entity) == i as int,
                None => !contains_entity(self.frames()[k as int].walk, entity),
            },
    {
        position_of_entity(&self.updates[k].walk_action_updates, entity)
    }

    pub fn push_cast(&mut self, k: usize, update: CastActionUpdate<C>)
        requires
            k < old(self).frames().len(),
        ensures
            final(self).frames() == old(self).frames().update(
                k as int,
                with_cast(old(self).frames()[k as int], old(self).frames()[k as int].cast.push(update)),
            ),
            final(self).oldest_updated_frame == old(self).oldest_updated_frame,
    {
        self.updates[k].cast_action_updates.push(update);
        assert(self.frames() =~= old(self).frames().update(
            k as int,
            with_cast(old(self).frames()[k as int], old(self).frames()[k as int].cast.push(update)),
        ));
    }

    pub fn cast_position(&self, k: usize, entity: u64) -> (res: Option<usize>)
        requires
            k < self.frames().len(),
        ensures
            match res {
                Some(i) => is_first_entity_index(self.frames()[k as int].cast, entity, i as int),
                None => !contains_entity(self.frames()[k as int].cast, entity),
            },
    {
        position_of_entity(&self.updates[k].cast_action_updates, entity)
    }

    pub fn look_position(&self, k: usize, entity: u64) -> (res: Option<usize>)
        requires
            k < self.frames().len(),
        ensures
            match res {
                Some(i) => is_first_entity_index(self.frames()[k as int].look, entity, i as int)
                    && first_entity_index(self.frames()[k as int].look, entity) == i as int,
                None => !contains_entity(self.frames()[k as int].look, entity),
            },
    {
        position_of_entity(&self.updates[k].look_action_updates, entity)
    }

    pub fn push_look(&mut self, k: usize, update: NetUpdate<L>)
        requires
            k < old(self).frames().len(),
        ensures
            final(self).frames() == old(self).frames().update(
                k as int,
                with_look(old(self).frames()[k as int], old(self).frames()[k as int].look.push(update)),
            ),
            final(self).oldest_updated_frame == old(self).oldest_updated_frame,
    {
        self.updates[k].look_action_updates.push(update);
        assert(self.frames() =~= old(self).frames().update(
            k as int,
            with_look(old(self).frames()[k as int], old(self).frames()[k as int].look.push(update)),
        ));
    }

    pub fn set_look(&mut self, k: usize, i: usize, update: NetUpdate<L>)
        requires
            k < old(self).frames().len(),
            i < old(self).frames()[k as int].look.len(),
        ensures
            final(self).frames() == old(self).frames().update(
                k as int,
                with_look(old(self).frames()[k as int], old(self).frames()[k as int].look.update(i as int, update)),
            ),
            final(self).oldest_updated_frame == old(self).oldest_updated_frame,
    {
        self.updates[k].look_action_updates.set(i, update);
        assert(self.frames() =~= old(self).frames().update(
            k as int,
            with_look(old(self).frames()[k as int], old(self).frames()[k as int].look.update(i as int, update)),
        ));
    }
}

} // verus!
