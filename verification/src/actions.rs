use vstd::prelude::*;

verus! {

/// Identifier of a connection, of a networked entity or of an action.
pub type NetIdentifier = u64;

/// Client actions that arrive later than this many frames are lag-compensated
/// only as far back as this limit.
pub const LAG_COMPENSATION_FRAMES_LIMIT: u64 = 120;

/// How many frames behind the server clients render the world.
pub const INTERPOLATION_FRAME_DELAY: u64 = 10;

/// An update that concerns one networked entity.
#[derive(Debug)]
pub struct NetUpdate<T> {
    pub entity_net_id: NetIdentifier,
    pub data: T,
}

/// An action as a client sent it, with the identifier the client gave it.
#[derive(Debug)]
pub struct ClientActionUpdate<A> {
    pub client_action_id: NetIdentifier,
    pub action: A,
}

/// An action with an identifier that the server gave it.
#[derive(Debug)]
pub struct IdentifiableAction<A> {
    pub action_id: NetIdentifier,
    pub action: A,
}

/// A walk action of one player, as received from a client.
pub type WalkActionUpdate<W> = NetUpdate<ClientActionUpdate<W>>;

/// A cast action of one player, with the identifier the server gave it.
pub type CastActionUpdate<C> = NetUpdate<IdentifiableAction<ClientActionUpdate<C>>>;

/// Actions that a client took at one frame.
pub struct ImmediatePlayerActionsUpdates<A> {
    pub frame_number: u64,
    pub updates: Vec<NetUpdate<ClientActionUpdate<A>>>,
}

/// Look actions that a client took, grouped by the frame they were taken at.
pub struct PlayerLookActionUpdates<L> {
    pub updates: Vec<(u64, Vec<NetUpdate<L>>)>,
}

/// The action at position `index` of a batch cannot be applied to the stored
/// frames: its frame is not held, or storing it would never come to an end.
#[derive(Debug)]
pub struct ActionNotApplicable {
    pub index: usize,
}

/// Hands out the identifiers of the actions that the server accepts.
pub struct ActionUpdateIdProvider {
    pub next_id: NetIdentifier,
}

/// The identifier after `id`, wrapping around at the end of the range.
pub open spec fn next_id_after(id: u64) -> u64 {
    if id == u64::MAX { 0 } else { (id + 1) as u64 }
}

impl ActionUpdateIdProvider {
    pub fn new() -> (res: Self)
        ensures
            res.next_id == 0,
    {
        ActionUpdateIdProvider { next_id: 0 }
    }

    /// Returns a fresh identifier and moves on to the next one.
    pub fn next_update_id(&mut self) -> (id: NetIdentifier)
        ensures
            id == old(self).next_id,
            final(self).next_id == next_id_after(old(self).next_id),
    {
        let id = self.next_id;
        self.next_id = self.next_id.wrapping_add(1);
        id
    }
}

/// Whether some update in `updates` concerns entity `entity`.
pub open spec fn contains_entity<T>(updates: Seq<NetUpdate<T>>, entity: NetIdentifier) -> bool {
    exists|i: int| 0 <= i < updates.len() && (#[trigger] updates[i]).entity_net_id == entity
}

/// `i` is the first position in `updates` of an update that concerns `entity`.
pub open spec fn is_first_entity_index<T>(updates: Seq<NetUpdate<T>>, entity: NetIdentifier, i: int) -> bool {
    &&& 0 <= i < updates.len()
    &&& updates[i].entity_net_id == entity
    &&& forall|j: int| 0 <= j < i ==> (#[trigger] updates[j]).entity_net_id != entity
}

/// The first position in `updates` of an update that concerns `entity`.
pub open spec fn first_entity_index<T>(updates: Seq<NetUpdate<T>>, entity: NetIdentifier) -> int {
    choose|i: int| is_first_entity_index(updates, entity, i)
}

pub proof fn lemma_first_entity_index_unique<T>(updates: Seq<NetUpdate<T>>, entity: NetIdentifier, i: int)
    requires
        is_first_entity_index(updates, entity, i),
    ensures
        first_entity_index(updates, entity) == i,
        contains_entity(updates, entity),
{
    let k = first_entity_index(updates, entity);
    assert(is_first_entity_index(updates, entity, k));
    if k < i {
        assert(updates[k].entity_net_id != entity);
    } else if i < k {
        assert(updates[i].entity_net_id != entity);
    }
}

/// Finds the first update in `updates` that concerns `entity`.
pub fn position_of_entity<T>(updates: &Vec<NetUpdate<T>>, entity: NetIdentifier) -> (res: Option<usize>)
    ensures
        match res {
            Some(i) => is_first_entity_index(updates@, entity, i as int)
                && first_entity_index(updates@, entity) == i as int,
            None => !contains_entity(updates@, entity),
        },
{
    let mut i: usize = 0;
    while i < updates.len()
        invariant
            i <= updates@.len(),
            forall|j: int| 0 <= j < i ==> (#[trigger] updates@[j]).entity_net_id != entity,
        decreases updates@.len() - i,
    {
        if updates[i].entity_net_id == entity {
            proof {
                lemma_first_entity_index_unique(updates@, entity, i as int);
            }
            return Some(i);
        }
        i = i + 1;
    }
    None
}

} // verus!
