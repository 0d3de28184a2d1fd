use vstd::prelude::*;

use crate::actions::{
    ActionUpdateIdProvider, ImmediatePlayerActionsUpdates, NetIdentifier, PlayerLookActionUpdates,
    INTERPOLATION_FRAME_DELAY, LAG_COMPENSATION_FRAMES_LIMIT,
};
use crate::cast_actions::{
    cast_actions_apply, cast_run, lag_compensated_frame, saturating_sub, try_add_cast_actions,
    CastState,
};
use crate::framed_updates::{FrameView, FramedUpdates};
use crate::look_actions::{
    look_entries, look_run, look_run_returns, look_start_from, try_add_look_actions,
};
use crate::walk_actions::{try_add_walk_actions, walk_run, walk_run_returns, WalkState};

verus! {

/// A client that has not answered for this many frames pauses the game.
pub const PAUSE_FRAME_THRESHOLD: u64 = LAG_COMPENSATION_FRAMES_LIMIT + LAG_COMPENSATION_FRAMES_LIMIT / 2;

/// Frames between two heartbeats.
pub const HEARTBEAT_FRAME_INTERVAL: u64 = 2;

/// The state the game engine is in.
#[derive(Clone, Copy, Debug, PartialEq, Eq, Structural)]
pub enum GameEngineState {
    Loading,
    Menu,
    Playing,
}

/// A player in the multiplayer room.
#[derive(Debug)]
pub struct MultiplayerRoomPlayer {
    pub connection_id: NetIdentifier,
    pub entity_net_id: NetIdentifier,
    pub nickname: String,
    pub is_host: bool,
}

impl MultiplayerRoomPlayer {
    pub fn duplicate(&self) -> (res: Self)
        ensures
            res == *self,
    {
        MultiplayerRoomPlayer {
            connection_id: self.connection_id,
            entity_net_id: self.entity_net_id,
            nickname: self.nickname.clone(),
            is_host: self.is_host,
        }
    }
}

/// The room and pause state of a multiplayer game.
pub struct MultiplayerGameState {
    pub players: Vec<MultiplayerRoomPlayer>,
    /// Whether the players changed since they were last sent to the clients.
    pub players_updated: bool,
    pub is_playing: bool,
    pub waiting_network: bool,
    pub waiting_for_players: bool,
    pub waiting_for_players_pause_id: u64,
    pub lagging_players: Vec<NetIdentifier>,
}

/// What the ping-pong exchange with a client measured.
#[derive(Clone, Copy, Debug)]
pub struct PingPongData {
    pub last_ponged_frame: u64,
    pub average_lagging_behind: u64,
    pub last_stored_game_frame: u64,
}

/// The server's record of a client connection.
#[derive(Clone, Copy, Debug)]
pub struct NetConnectionModel {
    pub id: NetIdentifier,
    pub last_acknowledged_update: Option<u64>,
    pub ping_pong_data: PingPongData,
}

/// A message from a client.
pub enum ClientMessagePayload<W, L, C> {
    JoinRoom { nickname: String },
    StartHostedGame,
    WalkActions(ImmediatePlayerActionsUpdates<W>),
    CastActions(ImmediatePlayerActionsUpdates<C>),
    LookActions(PlayerLookActionUpdates<L>),
    AcknowledgeWorldUpdate(u64),
}

/// Something that happened on a client connection.
pub enum NetEvent<W, L, C> {
    Connected,
    Disconnected,
    Message(ClientMessagePayload<W, L, C>),
}

pub struct ConnectionEvent<W, L, C> {
    pub connection_id: NetIdentifier,
    pub event: NetEvent<W, L, C>,
}

/// A message from the server.
#[derive(Debug)]
pub enum ServerMessagePayload {
    Handshake(NetIdentifier),
    DiscardWalkActions(Vec<NetIdentifier>),
    UpdateRoomPlayers(Vec<MultiplayerRoomPlayer>),
    Heartbeat,
    PauseWaitingForPlayers { id: u64, players: Vec<NetIdentifier> },
    UnpauseWaitingForPlayers(u64),
}

/// The contents of a message from the server.
pub enum ServerMessage {
    Handshake(NetIdentifier),
    DiscardWalkActions(Seq<NetIdentifier>),
    UpdateRoomPlayers(Seq<MultiplayerRoomPlayer>),
    Heartbeat,
    PauseWaitingForPlayers { id: u64, players: Seq<NetIdentifier> },
    UnpauseWaitingForPlayers(u64),
}

impl View for ServerMessagePayload {
    type V = ServerMessage;

    open spec fn view(&self) -> ServerMessage {
        match self {
            ServerMessagePayload::Handshake(id) => ServerMessage::Handshake(*id),
            ServerMessagePayload::DiscardWalkActions(ids) => ServerMessage::DiscardWalkActions(ids@),
            ServerMessagePayload::UpdateRoomPlayers(players) => ServerMessage::UpdateRoomPlayers(players@),
            ServerMessagePayload::Heartbeat => ServerMessage::Heartbeat,
            ServerMessagePayload::PauseWaitingForPlayers { id, players } => ServerMessage::PauseWaitingForPlayers {
                id: *id,
                players: players@,
            },
            ServerMessagePayload::UnpauseWaitingForPlayers(id) => ServerMessage::UnpauseWaitingForPlayers(*id),
        }
    }
}

/// Who a message goes to.
#[derive(Clone, Copy, Debug, PartialEq, Eq, Structural)]
pub enum Recipient {
    Connection(NetIdentifier),
    Everyone,
}

/// A message to send reliably.
pub struct OutgoingMessage {
    pub recipient: Recipient,
    pub payload: ServerMessagePayload,
}

impl View for OutgoingMessage {
    type V = (Recipient, ServerMessage);

    open spec fn view(&self) -> (Recipient, ServerMessage) {
        (self.recipient, self.payload@)
    }
}

/// The resources that the server network system reads and writes.
pub struct ServerNetworkData<W, L, C> {
    pub multiplayer_game_state: MultiplayerGameState,
    pub new_game_engine_state: GameEngineState,
    pub framed_updates: FramedUpdates<W, L, C>,
    pub action_update_id_provider: ActionUpdateIdProvider,
    pub net_connection_models: Vec<NetConnectionModel>,
}

/// The contents of the resources of the server network system.
pub struct NetworkDataView<W, L, C> {
    pub players: Seq<MultiplayerRoomPlayer>,
    pub players_updated: bool,
    pub is_playing: bool,
    pub waiting_network: bool,
    pub waiting_for_players: bool,
    pub waiting_for_players_pause_id: u64,
    pub lagging_players: Seq<NetIdentifier>,
    pub new_game_engine_state: GameEngineState,
    pub frames: Seq<FrameView<W, L, C>>,
    pub oldest_updated_frame: u64,
    pub next_action_id: u64,
    pub models: Seq<NetConnectionModel>,
}

impl<W, L, C> View for ServerNetworkData<W, L, C> {
    type V = NetworkDataView<W, L, C>;

    open spec fn view(&self) -> NetworkDataView<W, L, C> {
        NetworkDataView {
            players: self.multiplayer_game_state.players@,
            players_updated: self.multiplayer_game_state.players_updated,
            is_playing: self.multiplayer_game_state.is_playing,
            waiting_network: self.multiplayer_game_state.waiting_network,
            waiting_for_players: self.multiplayer_game_state.waiting_for_players,
            waiting_for_players_pause_id: self.multiplayer_game_state.waiting_for_players_pause_id,
            lagging_players: self.multiplayer_game_state.lagging_players@,
            new_game_engine_state: self.new_game_engine_state,
            frames: self.framed_updates.frames(),
            oldest_updated_frame: self.framed_updates.oldest_updated_frame,
            next_action_id: self.action_update_id_provider.next_id,
            models: self.net_connection_models@,
        }
    }
}

/// The state that handling connection events goes through: the host's
/// connection, the resources, and the messages to send so far.
pub struct EventsState<W, L, C> {
    pub host_connection_id: NetIdentifier,
    pub data: NetworkDataView<W, L, C>,
    pub messages: Seq<(Recipient, ServerMessage)>,
}

/// Whether a player joined from connection `id`.
pub open spec fn of_connection(id: NetIdentifier) -> spec_fn(MultiplayerRoomPlayer) -> bool {
    |p: MultiplayerRoomPlayer| p.connection_id == id
}

/// Whether some connection model has identifier `id`.
pub open spec fn has_model(models: Seq<NetConnectionModel>, id: NetIdentifier) -> bool {
    exists|i: int| 0 <= i < models.len() && (#[trigger] models[i]).id == id
}

pub open spec fn is_first_model_index(models: Seq<NetConnectionModel>, id: NetIdentifier, i: int) -> bool {
    &&& 0 <= i < models.len()
    &&& models[i].id == id
    &&& forall|j: int| 0 <= j < i ==> (#[trigger] models[j]).id != id
}

/// The position of the first connection model with identifier `id`.
pub open spec fn first_model_index(models: Seq<NetConnectionModel>, id: NetIdentifier) -> int {
    choose|i: int| is_first_model_index(models, id, i)
}

/// The last acknowledged update after update `update_number` is acknowledged:
/// the greater of the two.
pub open spec fn acknowledged(last: Option<u64>, update_number: u64) -> Option<u64> {
    match last {
        Some(previous) => if previous > update_number { Some(previous) } else { Some(update_number) },
        None => Some(update_number),
    }
}

/// Handles one connection event, at game frame `game_frame_number`.
pub open spec fn event_step<W, L, C>(
    st: EventsState<W, L, C>,
    event: ConnectionEvent<W, L, C>,
    game_frame_number: u64,
) -> EventsState<W, L, C> {
    let id = event.connection_id;
    let data = st.data;
    match event.event {
        NetEvent::Connected => EventsState {
            host_connection_id: if data.players.len() == 0 { id } else { st.host_connection_id },
            messages: st.messages.push((Recipient::Connection(id), ServerMessage::Handshake(id))),
            ..st
        },
        NetEvent::Message(ClientMessagePayload::JoinRoom { nickname }) => EventsState {
            data: NetworkDataView {
                players: data.players.push(MultiplayerRoomPlayer {
                    connection_id: id,
                    entity_net_id: 0,
                    nickname,
                    is_host: st.host_connection_id == id,
                }),
                players_updated: true,
                ..data
            },
            ..st
        },
        NetEvent::Message(ClientMessagePayload::StartHostedGame) => if id == st.host_connection_id {
            EventsState {
                data: NetworkDataView { is_playing: true, new_game_engine_state: GameEngineState::Playing, ..data },
                ..st
            }
        } else {
            st
        },
        NetEvent::Message(ClientMessagePayload::WalkActions(actions)) => {
            let res = walk_run(
                WalkState { frames: data.frames, oldest_updated_frame: data.oldest_updated_frame, discarded: Seq::empty() },
                actions.updates@,
                actions.frame_number,
                game_frame_number,
            );
            EventsState {
                data: NetworkDataView { frames: res.frames, oldest_updated_frame: res.oldest_updated_frame, ..data },
                messages: if res.discarded.len() > 0 {
                    st.messages.push((Recipient::Connection(id), ServerMessage::DiscardWalkActions(res.discarded)))
                } else {
                    st.messages
                },
                ..st
            }
        },
        NetEvent::Message(ClientMessagePayload::CastActions(actions)) => {
            let res = cast_run(
                CastState { frames: data.frames, oldest_updated_frame: data.oldest_updated_frame, next_id: data.next_action_id },
                actions.updates@,
                lag_compensated_frame(actions.frame_number, game_frame_number),
            );
            EventsState {
                data: NetworkDataView {
                    frames: res.frames,
                    oldest_updated_frame: res.oldest_updated_frame,
                    next_action_id: res.next_id,
                    ..data
                },
                ..st
            }
        },
        NetEvent::Message(ClientMessagePayload::LookActions(actions)) => {
            let res = look_run(
                look_start_from(data.frames, data.oldest_updated_frame, actions, game_frame_number),
                look_entries(actions),
                saturating_sub(game_frame_number, LAG_COMPENSATION_FRAMES_LIMIT),
            );
            EventsState {
                data: NetworkDataView { frames: res.frames, oldest_updated_frame: res.oldest_updated_frame, ..data },
                ..st
            }
        },
        NetEvent::Message(ClientMessagePayload::AcknowledgeWorldUpdate(update_number)) => {
            let i = first_model_index(data.models, id);
            let model = data.models[i];
            EventsState {
                data: NetworkDataView {
                    models: data.models.update(
                        i,
                        NetConnectionModel {
                            last_acknowledged_update: acknowledged(model.last_acknowledged_update, update_number),
                            ..model
                        },
                    ),
                    ..data
                },
                ..st
            }
        },
        NetEvent::Disconnected => EventsState {
            data: NetworkDataView {
                players: data.players.filter(of_connection(id)),
                players_updated: true,
                ..data
            },
            ..st
        },
    }
}

/// Whether handling one connection event returns: the actions it carries can
/// be added, and an acknowledgement comes from a known connection.
pub open spec fn event_step_returns<W, L, C>(
    st: EventsState<W, L, C>,
    event: ConnectionEvent<W, L, C>,
    game_frame_number: u64,
) -> bool {
    let data = st.data;
    match event.event {
        NetEvent::Message(ClientMessagePayload::WalkActions(actions)) => walk_run_returns(
            WalkState { frames: data.frames, oldest_updated_frame: data.oldest_updated_frame, discarded: Seq::empty() },
            actions.updates@,
            actions.frame_number,
            game_frame_number,
        ),
        NetEvent::Message(ClientMessagePayload::CastActions(actions)) => cast_actions_apply(
            data.frames,
            actions,
            game_frame_number,
        ),
        NetEvent::Message(ClientMessagePayload::LookActions(actions)) => look_run_returns(
            look_start_from(data.frames, data.oldest_updated_frame, actions, game_frame_number),
            look_entries(actions),
            saturating_sub(game_frame_number, LAG_COMPENSATION_FRAMES_LIMIT),
        ),
        NetEvent::Message(ClientMessagePayload::AcknowledgeWorldUpdate(_)) => has_model(data.models, event.connection_id),
        _ => true,
    }
}

/// Handles the connection events `events`, one after the other.
pub open spec fn events_run<W, L, C>(
    st: EventsState<W, L, C>,
    events: Seq<ConnectionEvent<W, L, C>>,
    game_frame_number: u64,
) -> EventsState<W, L, C>
    decreases events.len(),
{
    if events.len() == 0 {
        st
    } else {
        event_step(events_run(st, events.drop_last(), game_frame_number), events.last(), game_frame_number)
    }
}

/// Whether handling every connection event of `events` returns.
pub open spec fn events_run_returns<W, L, C>(
    st: EventsState<W, L, C>,
    events: Seq<ConnectionEvent<W, L, C>>,
    game_frame_number: u64,
) -> bool
    decreases events.len(),
{
    events.len() == 0 || (events_run_returns(st, events.drop_last(), game_frame_number) && event_step_returns(
        events_run(st, events.drop_last(), game_frame_number),
        events.last(),
        game_frame_number,
    ))
}

/// Whether the client of `model` lags: it has not answered for too long, it
/// was lagging and has not caught up with the frame clients are expected to
/// show, or it lags behind too much on average.
pub open spec fn is_lagging(
    model: NetConnectionModel,
    engine_frame_number: u64,
    last_broadcasted_frame: u64,
    previously_lagging: Seq<NetIdentifier>,
) -> bool {
    ||| saturating_sub(engine_frame_number, model.ping_pong_data.last_ponged_frame) > PAUSE_FRAME_THRESHOLD
    ||| previously_lagging.contains(model.id) && model.ping_pong_data.last_stored_game_frame < saturating_sub(
        last_broadcasted_frame,
        INTERPOLATION_FRAME_DELAY,
    )
    ||| model.ping_pong_data.average_lagging_behind > PAUSE_FRAME_THRESHOLD
}

/// The identifiers of the lagging clients, in the order of their models.
pub open spec fn lagging_ids(
    models: Seq<NetConnectionModel>,
    engine_frame_number: u64,
    last_broadcasted_frame: u64,
    previously_lagging: Seq<NetIdentifier>,
) -> Seq<NetIdentifier>
    decreases models.len(),
{
    if models.len() == 0 {
        Seq::empty()
    } else {
        let rest = lagging_ids(models.drop_last(), engine_frame_number, last_broadcasted_frame, previously_lagging);
        if is_lagging(models.last(), engine_frame_number, last_broadcasted_frame, previously_lagging) {
            rest.push(models.last().id)
        } else {
            rest
        }
    }
}

/// What the server network system leaves behind in a frame.
pub struct NetworkOutcome<W, L, C> {
    pub host_connection_id: NetIdentifier,
    pub last_heartbeat_frame: u64,
    pub data: NetworkDataView<W, L, C>,
    pub messages: Seq<(Recipient, ServerMessage)>,
    pub reserve_new_updates: Option<(u64, u64)>,
}

/// Sends the room players to everyone when they changed.
pub open spec fn room_players_step<W, L, C>(st: EventsState<W, L, C>) -> EventsState<W, L, C> {
    if st.data.players_updated {
        EventsState {
            data: NetworkDataView { players_updated: false, ..st.data },
            messages: st.messages.push((Recipient::Everyone, ServerMessage::UpdateRoomPlayers(st.data.players))),
            ..st
        }
    } else {
        st
    }
}

/// Whether a heartbeat is due at engine frame `engine_frame_number`.
pub open spec fn is_heartbeat_due(engine_frame_number: u64, last_heartbeat_frame: u64) -> bool {
    engine_frame_number - last_heartbeat_frame > HEARTBEAT_FRAME_INTERVAL
}

/// While a multiplayer game is playing, records the lagging clients and
/// pauses the game when some lag, or resumes it when none does any more.
pub open spec fn pause_step<W, L, C>(
    data: NetworkDataView<W, L, C>,
    messages: Seq<(Recipient, ServerMessage)>,
    game_engine_state: GameEngineState,
    engine_frame_number: u64,
    last_broadcasted_frame: u64,
) -> (NetworkDataView<W, L, C>, Seq<(Recipient, ServerMessage)>) {
    if game_engine_state == GameEngineState::Playing && data.is_playing {
        let lagging = lagging_ids(data.models, engine_frame_number, last_broadcasted_frame, data.lagging_players);
        if !data.waiting_for_players && lagging.len() > 0 {
            let id = (data.waiting_for_players_pause_id + 1) as u64;
            (
                NetworkDataView {
                    lagging_players: lagging,
                    waiting_for_players_pause_id: id,
                    waiting_for_players: true,
                    ..data
                },
                messages.push((Recipient::Everyone, ServerMessage::PauseWaitingForPlayers { id, players: lagging })),
            )
        } else if data.waiting_for_players && lagging.len() == 0 {
            (
                NetworkDataView { lagging_players: lagging, waiting_for_players: false, ..data },
                messages.push((
                    Recipient::Everyone,
                    ServerMessage::UnpauseWaitingForPlayers(data.waiting_for_players_pause_id),
                )),
            )
        } else {
            (NetworkDataView { lagging_players: lagging, ..data }, messages)
        }
    } else {
        (data, messages)
    }
}

/// Whether pausing the game would take the pause count past the range of
/// `u64`.
pub open spec fn pause_count_overflows<W, L, C>(
    data: NetworkDataView<W, L, C>,
    game_engine_state: GameEngineState,
    engine_frame_number: u64,
    last_broadcasted_frame: u64,
) -> bool {
    &&& game_engine_state == GameEngineState::Playing
    &&& data.is_playing
    &&& !data.waiting_for_players
    &&& lagging_ids(data.models, engine_frame_number, last_broadcasted_frame, data.lagging_players).len() > 0
    &&& data.waiting_for_players_pause_id == u64::MAX
}

/// The frames of world updates to reserve: from the oldest frame whose
/// actions changed, or the current frame, to the current frame, unless the
/// game is not playing or is paused.
pub open spec fn updates_to_reserve<W, L, C>(
    data: NetworkDataView<W, L, C>,
    game_engine_state: GameEngineState,
    game_frame_number: u64,
) -> Option<(u64, u64)> {
    if game_engine_state == GameEngineState::Playing && !(data.waiting_network || data.waiting_for_players) {
        Some((
            if data.oldest_updated_frame < game_frame_number { data.oldest_updated_frame } else { game_frame_number },
            game_frame_number,
        ))
    } else {
        None
    }
}

/// One frame of the server network system.
pub open spec fn network_outcome<W, L, C>(
    host_connection_id: NetIdentifier,
    last_heartbeat_frame: u64,
    data: NetworkDataView<W, L, C>,
    events: Seq<ConnectionEvent<W, L, C>>,
    game_frame_number: u64,
    engine_frame_number: u64,
    game_engine_state: GameEngineState,
    last_broadcasted_frame: u64,
) -> NetworkOutcome<W, L, C> {
    let handled = events_run(
        EventsState { host_connection_id, data, messages: Seq::empty() },
        events,
        game_frame_number,
    );
    let room = room_players_step(handled);
    let heartbeat = is_heartbeat_due(engine_frame_number, last_heartbeat_frame);
    let messages = if heartbeat {
        room.messages.push((Recipient::Everyone, ServerMessage::Heartbeat))
    } else {
        room.messages
    };
    let (paused, messages) = pause_step(room.data, messages, game_engine_state, engine_frame_number, last_broadcasted_frame);
    NetworkOutcome {
        host_connection_id: handled.host_connection_id,
        last_heartbeat_frame: if heartbeat { engine_frame_number } else { last_heartbeat_frame },
        data: paused,
        messages,
        reserve_new_updates: updates_to_reserve(paused, game_engine_state, game_frame_number),
    }
}

/// What one frame of the server network system asks of its caller: the
/// messages to send, in order, and the world updates to reserve.
pub struct ServerNetworkOutput {
    pub messages: Vec<OutgoingMessage>,
    pub reserve_new_updates: Option<(u64, u64)>,
}

pub open spec fn messages_view(messages: Seq<OutgoingMessage>) -> Seq<(Recipient, ServerMessage)> {
    messages.map_values(|m: OutgoingMessage| m@)
}

/// Why a frame of the server network system cannot be run.
#[derive(Debug)]
pub enum ServerNetworkError {
    /// The last heartbeat is later than the engine frame.
    HeartbeatAhead,
    /// Pausing the game would take the pause count past the range of `u64`
    /// (with the connection events handled).
    PauseCountExhausted,
    /// The connection event at position `index` cannot be handled: the frame
    /// its actions go to is not held, storing its walk actions would never
    /// come to an end, or it acknowledges an update on an unknown connection.
    EventNotHandled { index: usize },
}

/// Handles the client connections of the server: room membership, incoming
/// actions, acknowledgements, heartbeats, and pausing for lagging clients.
pub struct ServerNetworkSystem {
    pub host_connection_id: NetIdentifier,
    pub last_heartbeat_frame: u64,
}

fn push_message(messages: &mut Vec<OutgoingMessage>, recipient: Recipient, payload: ServerMessagePayload)
    ensures
        messages_view(final(messages)@) == messages_view(old(messages)@).push((recipient, payload@)),
{
    let m = OutgoingMessage { recipient, payload };
    messages.push(m);
    assert(messages_view(messages@) =~= messages_view(old(messages)@).push((recipient, payload@)));
}

fn players_of_connection(players: &mut Vec<MultiplayerRoomPlayer>, id: NetIdentifier)
    ensures
        final(players)@ == old(players)@.filter(of_connection(id)),
{
    let mut all: Vec<MultiplayerRoomPlayer> = Vec::new();
    std::mem::swap(&mut all, players);
    let ghost seq = all@;
    assert(players@ =~= seq.take(0).filter(of_connection(id))) by {
        reveal_with_fuel(Seq::filter, 1);
    }
    for player in it: all.into_iter()
        invariant
            seq == it.seq(),
            players@ == seq.take(it.index() as int).filter(of_connection(id)),
    {
        let ghost idx = it.index() as int;
        assert(seq.take(idx + 1).drop_last() =~= seq.take(idx));
        assert(seq.take(idx + 1).last() == player);
        assert(seq.take(idx + 1).filter(of_connection(id)) == if of_connection(id)(player) {
            seq.take(idx).filter(of_connection(id)).push(player)
        } else {
            seq.take(idx).filter(of_connection(id))
        }) by {
            reveal_with_fuel(Seq::filter, 1);
        }
        if player.connection_id == id {
            players.push(player);
        }
    }
    assert(seq.take(seq.len() as int) =~= seq);
}

fn duplicate_players(players: &Vec<MultiplayerRoomPlayer>) -> (res: Vec<MultiplayerRoomPlayer>)
    ensures
        res@ == players@,
{
    let mut res: Vec<MultiplayerRoomPlayer> = Vec::new();
    let mut i: usize = 0;
    while i < players.len()
        invariant
            i <= players@.len(),
            res@ == players@.take(i as int),
        decreases players@.len() - i,
    {
        res.push(players[i].duplicate());
        assert(res@ =~= players@.take(i + 1));
        i = i + 1;
    }
    assert(players@.take(i as int) =~= players@);
    res
}

fn duplicate_ids(ids: &Vec<NetIdentifier>) -> (res: Vec<NetIdentifier>)
    ensures
        res@ == ids@,
{
    vstd::slice::slice_to_vec(ids.as_slice())
}

fn find_model(models: &Vec<NetConnectionModel>, id: NetIdentifier) -> (res: Option<usize>)
    ensures
        match res {
            Some(i) => is_first_model_index(models@, id, i as int) && first_model_index(models@, id) == i,
            None => !has_model(models@, id),
        },
{
    let mut i: usize = 0;
    while i < models.len()
        invariant
            i <= models@.len(),
            forall|j: int| 0 <= j < i ==> (#[trigger] models@[j]).id != id,
        decreases models@.len() - i,
    {
        if models[i].id == id {
            proof {
                let k = first_model_index(models@, id);
                assert(is_first_model_index(models@, id, i as int));
                assert(is_first_model_index(models@, id, k));
                if k < i {
                    assert(models@[k].id != id);
                } else if i < k {
                    assert(models@[i as int].id != id);
                }
            }
            return Some(i);
        }
        i = i + 1;
    }
    None
}

fn contains_id(ids: &Vec<NetIdentifier>, id: NetIdentifier) -> (res: bool)
    ensures
        res == ids@.contains(id),
{
    let mut i: usize = 0;
    while i < ids.len()
        invariant
            i <= ids@.len(),
            forall|j: int| 0 <= j < i ==> ids@[j] != id,
        decreases ids@.len() - i,
    {
        if ids[i] == id {
            assert(ids@[i as int] == id);
            return true;
        }
        i = i + 1;
    }
    false
}

fn compute_lagging_players(
    models: &Vec<NetConnectionModel>,
    engine_frame_number: u64,
    last_broadcasted_frame: u64,
    previously_lagging: &Vec<NetIdentifier>,
) -> (res: Vec<NetIdentifier>)
    ensures
        res@ == lagging_ids(models@, engine_frame_number, last_broadcasted_frame, previously_lagging@),
{
    let mut lagging_players: Vec<NetIdentifier> = Vec::new();
    let expected_client_frame_number = last_broadcasted_frame.saturating_sub(INTERPOLATION_FRAME_DELAY);
    let mut i: usize = 0;
    while i < models.len()
        invariant
            i <= models@.len(),
            expected_client_frame_number == saturating_sub(last_broadcasted_frame, INTERPOLATION_FRAME_DELAY),
            lagging_players@ == lagging_ids(
                models@.take(i as int),
                engine_frame_number,
                last_broadcasted_frame,
                previously_lagging@,
            ),
        decreases models@.len() - i,
    {
        assert(models@.take(i + 1).drop_last() =~= models@.take(i as int));
        let model = models[i];
        let frames_since_last_pong = engine_frame_number.saturating_sub(model.ping_pong_data.last_ponged_frame);
        let average_lagging_behind = model.ping_pong_data.average_lagging_behind;
        let was_lagging = contains_id(previously_lagging, model.id);
        // A client that was lagging has to fully catch up with the others.
        let is_catching_up = model.ping_pong_data.last_stored_game_frame < expected_client_frame_number;
        if frames_since_last_pong > PAUSE_FRAME_THRESHOLD || was_lagging && is_catching_up
            || average_lagging_behind > PAUSE_FRAME_THRESHOLD {
            lagging_players.push(model.id);
        }
        i = i + 1;
    }
    assert(models@.take(models@.len() as int) =~= models@);
    lagging_players
}

impl ServerNetworkSystem {
    pub fn new() -> (res: Self)
        ensures
            res.host_connection_id == 0,
            res.last_heartbeat_frame == 0,
    {
        ServerNetworkSystem { host_connection_id: 0, last_heartbeat_frame: 0 }
    }

    /// Handles one connection event when it can be handled (see
    /// `event_step_returns`), and tells whether it could.
    fn try_handle_event<W, L, C>(
        &mut self,
        event: ConnectionEvent<W, L, C>,
        game_frame_number: u64,
        data: &mut ServerNetworkData<W, L, C>,
        messages: &mut Vec<OutgoingMessage>,
    ) -> (handled: bool)
        requires
            old(data).framed_updates.well_formed(),
        ensures
            final(data).framed_updates.well_formed(),
            final(self).last_heartbeat_frame == old(self).last_heartbeat_frame,
            final(data).multiplayer_game_state.waiting_for_players_pause_id
                == old(data).multiplayer_game_state.waiting_for_players_pause_id,
            ({
                let st = EventsState {
                    host_connection_id: old(self).host_connection_id,
                    data: old(data)@,
                    messages: messages_view(old(messages)@),
                };
                let res = event_step(st, event, game_frame_number);
                &&& handled == event_step_returns(st, event, game_frame_number)
                &&& handled ==> {
                    &&& final(self).host_connection_id == res.host_connection_id
                    &&& final(data)@ == res.data
                    &&& messages_view(final(messages)@) == res.messages
                }
            }),
    {
        let connection_id = event.connection_id;
        match event.event {
            NetEvent::Connected => {
                // The first player to connect hosts the game.
                if data.multiplayer_game_state.players.len() == 0 {
                    self.host_connection_id = connection_id;
                }
                push_message(messages, Recipient::Connection(connection_id), ServerMessagePayload::Handshake(connection_id));
            },
            NetEvent::Message(ClientMessagePayload::JoinRoom { nickname }) => {
                data.multiplayer_game_state.players_updated = true;
                data.multiplayer_game_state.players.push(MultiplayerRoomPlayer {
                    connection_id,
                    entity_net_id: 0,
                    nickname,
                    is_host: self.host_connection_id == connection_id,
                });
            },
            NetEvent::Message(ClientMessagePayload::StartHostedGame) => {
                if connection_id == self.host_connection_id {
                    data.multiplayer_game_state.is_playing = true;
                    data.new_game_engine_state = GameEngineState::Playing;
                }
            },
            NetEvent::Message(ClientMessagePayload::WalkActions(actions)) => {
                match try_add_walk_actions(&mut data.framed_updates, actions, game_frame_number) {
                    Ok(discarded_actions) => {
                        if discarded_actions.len() > 0 {
                            push_message(
                                messages,
                                Recipient::Connection(connection_id),
                                ServerMessagePayload::DiscardWalkActions(discarded_actions),
                            );
                        }
                    },
                    Err(_) => {
                        return false;
                    },
                }
            },
            NetEvent::Message(ClientMessagePayload::CastActions(actions)) => {
                if try_add_cast_actions(
                    &mut data.framed_updates,
                    actions,
                    &mut data.action_update_id_provider,
                    game_frame_number,
                ).is_err() {
                    return false;
                }
            },
            NetEvent::Message(ClientMessagePayload::LookActions(actions)) => {
                if try_add_look_actions(&mut data.framed_updates, actions, game_frame_number).is_err() {
                    return false;
                }
            },
            NetEvent::Message(ClientMessagePayload::AcknowledgeWorldUpdate(update_number)) => {
                match find_model(&data.net_connection_models, connection_id) {
                    Some(i) => {
                        let mut model = data.net_connection_models[i];
                        model.last_acknowledged_update = match model.last_acknowledged_update {
                            Some(previous) => if previous > update_number { Some(previous) } else { Some(update_number) },
                            None => Some(update_number),
                        };
                        data.net_connection_models.set(i, model);
                    },
                    None => {
                        return false;
                    },
                }
            },
            NetEvent::Disconnected => {
                data.multiplayer_game_state.players_updated = true;
                players_of_connection(&mut data.multiplayer_game_state.players, connection_id);
            },
        }
        true
    }

    /// The part of a frame after the connection events: room players,
    /// heartbeat, pausing, and the world updates to reserve.
    fn finish_frame<W, L, C>(
        &mut self,
        game_frame_number: u64,
        engine_frame_number: u64,
        game_engine_state: GameEngineState,
        last_broadcasted_frame: u64,
        data: &mut ServerNetworkData<W, L, C>,
        messages: Vec<OutgoingMessage>,
    ) -> (res: Option<ServerNetworkOutput>)
        requires
            old(self).last_heartbeat_frame <= engine_frame_number,
        ensures
            final(data).framed_updates == old(data).framed_updates,
            res is None <==> pause_count_overflows(old(data)@, game_engine_state, engine_frame_number, last_broadcasted_frame),
            res matches Some(res) ==> ({
                let room = room_players_step(
                    EventsState { host_connection_id: old(self).host_connection_id, data: old(data)@, messages: messages_view(messages@) },
                );
                let heartbeat = is_heartbeat_due(engine_frame_number, old(self).last_heartbeat_frame);
                let sent = if heartbeat {
                    room.messages.push((Recipient::Everyone, ServerMessage::Heartbeat))
                } else {
                    room.messages
                };
                let (paused, sent) = pause_step(room.data, sent, game_engine_state, engine_frame_number, last_broadcasted_frame);
                &&& final(self).host_connection_id == old(self).host_connection_id
                &&& final(self).last_heartbeat_frame == if heartbeat { engine_frame_number } else { old(self).last_heartbeat_frame }
                &&& final(data)@ == paused
                &&& messages_view(res.messages@) == sent
                &&& res.reserve_new_updates == updates_to_reserve(paused, game_engine_state, game_frame_number)
            }),
    {
        let mut messages = messages;
        let state = &mut data.multiplayer_game_state;
        if state.players_updated {
            state.players_updated = false;
            let players = duplicate_players(&state.players);
            push_message(&mut messages, Recipient::Everyone, ServerMessagePayload::UpdateRoomPlayers(players));
        }

        if engine_frame_number - self.last_heartbeat_frame > HEARTBEAT_FRAME_INTERVAL {
            self.last_heartbeat_frame = engine_frame_number;
            push_message(&mut messages, Recipient::Everyone, ServerMessagePayload::Heartbeat);
        }

        // Pause the server if one of the clients lags behind.
        if game_engine_state == GameEngineState::Playing && data.multiplayer_game_state.is_playing {
            let lagging_players = compute_lagging_players(
                &data.net_connection_models,
                engine_frame_number,
                last_broadcasted_frame,
                &data.multiplayer_game_state.lagging_players,
            );
            data.multiplayer_game_state.lagging_players = duplicate_ids(&lagging_players);
            let state = &mut data.multiplayer_game_state;
            if !state.waiting_for_players && lagging_players.len() > 0 {
                if state.waiting_for_players_pause_id == u64::MAX {
                    return None;
                }
                state.waiting_for_players_pause_id = state.waiting_for_players_pause_id + 1;
                push_message(
                    &mut messages,
                    Recipient::Everyone,
                    ServerMessagePayload::PauseWaitingForPlayers {
                        id: state.waiting_for_players_pause_id,
                        players: lagging_players,
                    },
                );
                state.waiting_for_players = true;
            } else if state.waiting_for_players && lagging_players.len() == 0 {
                push_message(
                    &mut messages,
                    Recipient::Everyone,
                    ServerMessagePayload::UnpauseWaitingForPlayers(state.waiting_for_players_pause_id),
                );
                state.waiting_for_players = false;
            }
        }

        // New updates are reserved only while the game is not paused, so that
        // no redundant updates are reserved.
        let reserve_new_updates = if game_engine_state == GameEngineState::Playing && !(
        data.multiplayer_game_state.waiting_network || data.multiplayer_game_state.waiting_for_players) {
            let current_frame_number = game_frame_number;
            let oldest = data.framed_updates.oldest_updated_frame;
            Some((if oldest < current_frame_number { oldest } else { current_frame_number }, current_frame_number))
        } else {
            None
        };
        Some(ServerNetworkOutput { messages, reserve_new_updates })
    }

    /// Handles the connection events `events` one after the other, as long as
    /// each can be handled; returns the position of the first that cannot.
    fn handle_events<W, L, C>(
        &mut self,
        events: Vec<ConnectionEvent<W, L, C>>,
        game_frame_number: u64,
        data: &mut ServerNetworkData<W, L, C>,
        messages: &mut Vec<OutgoingMessage>,
    ) -> (res: Result<(), usize>)
        requires
            old(data).framed_updates.well_formed(),
            old(messages)@.len() == 0,
        ensures
            final(data).framed_updates.well_formed(),
            final(self).last_heartbeat_frame == old(self).last_heartbeat_frame,
            final(data).multiplayer_game_state.waiting_for_players_pause_id
                == old(data).multiplayer_game_state.waiting_for_players_pause_id,
            ({
                let init = EventsState {
                    host_connection_id: old(self).host_connection_id,
                    data: old(data)@,
                    messages: Seq::empty(),
                };
                match res {
                    Ok(()) => {
                        let st = events_run(init, events@, game_frame_number);
                        &&& events_run_returns(init, events@, game_frame_number)
                        &&& final(self).host_connection_id == st.host_connection_id
                        &&& final(data)@ == st.data
                        &&& messages_view(final(messages)@) == st.messages
                    },
                    Err(index) => {
                        &&& index < events@.len()
                        &&& events_run_returns(init, events@.take(index as int), game_frame_number)
                        &&& !event_step_returns(
                            events_run(init, events@.take(index as int), game_frame_number),
                            events@[index as int],
                            game_frame_number,
                        )
                        &&& !events_run_returns(init, events@, game_frame_number)
                    },
                }
            }),
    {
        let ghost all = events@;
        let ghost init = EventsState {
            host_connection_id: self.host_connection_id,
            data: data@,
            messages: Seq::empty(),
        };
        assert(messages_view(messages@) =~= Seq::<(Recipient, ServerMessage)>::empty());
        let events_len = events.len();
        let mut index: usize = 0;
        for event in it: events.into_iter()
            invariant
                all == it.seq(),
                all.len() == events_len,
                index == it.index(),
                init == (EventsState {
                    host_connection_id: old(self).host_connection_id,
                    data: old(data)@,
                    messages: Seq::<(Recipient, ServerMessage)>::empty(),
                }),
                events_run_returns(init, all.take(it.index() as int), game_frame_number),
                data.framed_updates.well_formed(),
                self.last_heartbeat_frame == old(self).last_heartbeat_frame,
                data.multiplayer_game_state.waiting_for_players_pause_id
                    == old(data).multiplayer_game_state.waiting_for_players_pause_id,
                ({
                    let st = events_run(init, all.take(it.index() as int), game_frame_number);
                    &&& self.host_connection_id == st.host_connection_id
                    &&& data@ == st.data
                    &&& messages_view(messages@) == st.messages
                }),
        {
            let ghost idx = it.index() as int;
            proof {
                assert(idx < all.len());
                assert(all.take(idx + 1).drop_last() =~= all.take(idx));
                assert(all.take(idx + 1).last() == event);
                assert(all[idx] == event);
            }
            if !self.try_handle_event(event, game_frame_number, data, messages) {
                proof {
                    lemma_events_run_returns_extends(init, all, game_frame_number, idx);
                }
                return Err(index);
            }
            index = index + 1;
        }
        assert(all.take(all.len() as int) =~= all);
        Ok(())
    }

    /// One frame of the server network system: handles the connection events
    /// (taking them out of `connection_events`), sends the room players when
    /// they changed, a heartbeat when one is due, pauses or resumes the game
    /// for lagging clients, and asks for the world updates to reserve.
    ///
    /// The last heartbeat is not ahead of the engine frame, the actions and
    /// acknowledgements of the events can be handled (see
    /// `events_run_returns`), and pausing does not take the pause count past
    /// the range of `u64`.
    pub fn run<W, L, C>(
        &mut self,
        game_frame_number: u64,
        engine_frame_number: u64,
        game_engine_state: GameEngineState,
        last_broadcasted_frame: u64,
        connection_events: &mut Vec<ConnectionEvent<W, L, C>>,
        data: &mut ServerNetworkData<W, L, C>,
    ) -> (res: ServerNetworkOutput)
        requires
            old(data).framed_updates.well_formed(),
            old(self).last_heartbeat_frame <= engine_frame_number,
            events_run_returns(
                EventsState {
                    host_connection_id: old(self).host_connection_id,
                    data: old(data)@,
                    messages: Seq::empty(),
                },
                old(connection_events)@,
                game_frame_number,
            ),
            !pause_count_overflows(
                events_run(
                    EventsState {
                        host_connection_id: old(self).host_connection_id,
                        data: old(data)@,
                        messages: Seq::empty(),
                    },
                    old(connection_events)@,
                    game_frame_number,
                ).data,
                game_engine_state,
                engine_frame_number,
                last_broadcasted_frame,
            ),
        ensures
            final(connection_events)@ == Seq::<ConnectionEvent<W, L, C>>::empty(),
            final(data).framed_updates.well_formed(),
            ({
                let out = network_outcome(
                    old(self).host_connection_id,
                    old(self).last_heartbeat_frame,
                    old(data)@,
                    old(connection_events)@,
                    game_frame_number,
                    engine_frame_number,
                    game_engine_state,
                    last_broadcasted_frame,
                );
                &&& final(self).host_connection_id == out.host_connection_id
                &&& final(self).last_heartbeat_frame == out.last_heartbeat_frame
                &&& final(data)@ == out.data
                &&& messages_view(res.messages@) == out.messages
                &&& res.reserve_new_updates == out.reserve_new_updates
            }),
    {
        match self.try_run(
            game_frame_number,
            engine_frame_number,
            game_engine_state,
            last_broadcasted_frame,
            connection_events,
            data,
        ) {
            Ok(output) => output,
            Err(_) => {
                proof {
                    assert(false);
                }
                ServerNetworkOutput { messages: Vec::new(), reserve_new_updates: None }
            },
        }
    }

    /// One frame of the server network system, as `run` does, when it can be
    /// run; otherwise reports why not: the last heartbeat is ahead of the
    /// engine frame (with nothing changed), a connection event cannot be
    /// handled (with the events before it handled), or pausing would take the
    /// pause count past the range of `u64`; the events are then taken out.
    pub fn try_run<W, L, C>(
        &mut self,
        game_frame_number: u64,
        engine_frame_number: u64,
        game_engine_state: GameEngineState,
        last_broadcasted_frame: u64,
        connection_events: &mut Vec<ConnectionEvent<W, L, C>>,
        data: &mut ServerNetworkData<W, L, C>,
    ) -> (res: Result<ServerNetworkOutput, ServerNetworkError>)
        requires
            old(data).framed_updates.well_formed(),
        ensures
            final(data).framed_updates.well_formed(),
            ({
                let init = EventsState {
                    host_connection_id: old(self).host_connection_id,
                    data: old(data)@,
                    messages: Seq::empty(),
                };
                let events = old(connection_events)@;
                match res {
                    Ok(output) => {
                        let out = network_outcome(
                            old(self).host_connection_id,
                            old(self).last_heartbeat_frame,
                            old(data)@,
                            events,
                            game_frame_number,
                            engine_frame_number,
                            game_engine_state,
                            last_broadcasted_frame,
                        );
                        &&& old(self).last_heartbeat_frame <= engine_frame_number
                        &&& events_run_returns(init, events, game_frame_number)
                        &&& !pause_count_overflows(
                            events_run(init, events, game_frame_number).data,
                            game_engine_state,
                            engine_frame_number,
                            last_broadcasted_frame,
                        )
                        &&& final(connection_events)@ == Seq::<ConnectionEvent<W, L, C>>::empty()
                        &&& final(self).host_connection_id == out.host_connection_id
                        &&& final(self).last_heartbeat_frame == out.last_heartbeat_frame
                        &&& final(data)@ == out.data
                        &&& messages_view(output.messages@) == out.messages
                        &&& output.reserve_new_updates == out.reserve_new_updates
                    },
                    Err(ServerNetworkError::HeartbeatAhead) => {
                        &&& old(self).last_heartbeat_frame > engine_frame_number
                        &&& *final(self) == *old(self)
                        &&& final(data)@ == old(data)@
                        &&& final(connection_events)@ == events
                    },
                    Err(ServerNetworkError::PauseCountExhausted) => {
                        &&& old(self).last_heartbeat_frame <= engine_frame_number
                        &&& events_run_returns(init, events, game_frame_number)
                        &&& pause_count_overflows(
                            events_run(init, events, game_frame_number).data,
                            game_engine_state,
                            engine_frame_number,
                            last_broadcasted_frame,
                        )
                        &&& final(connection_events)@ == Seq::<ConnectionEvent<W, L, C>>::empty()
                    },
                    Err(ServerNetworkError::EventNotHandled { index }) => {
                        &&& old(self).last_heartbeat_frame <= engine_frame_number
                        &&& index < events.len()
                        &&& events_run_returns(init, events.take(index as int), game_frame_number)
                        &&& !event_step_returns(
                            events_run(init, events.take(index as int), game_frame_number),
                            events[index as int],
                            game_frame_number,
                        )
                        &&& !events_run_returns(init, events, game_frame_number)
                        &&& final(connection_events)@ == Seq::<ConnectionEvent<W, L, C>>::empty()
                    },
                }
            }),
    {
        if self.last_heartbeat_frame > engine_frame_number {
            return Err(ServerNetworkError::HeartbeatAhead);
        }
        let mut messages: Vec<OutgoingMessage> = Vec::new();
        let mut events: Vec<ConnectionEvent<W, L, C>> = Vec::new();
        std::mem::swap(&mut events, connection_events);
        match self.handle_events(events, game_frame_number, data, &mut messages) {
            Ok(()) => {},
            Err(index) => {
                return Err(ServerNetworkError::EventNotHandled { index });
            },
        }
        match self.finish_frame(game_frame_number, engine_frame_number, game_engine_state, last_broadcasted_frame, data, messages) {
            Some(output) => Ok(output),
            None => Err(ServerNetworkError::PauseCountExhausted),
        }
    }
}

proof fn lemma_events_run_returns_extends<W, L, C>(
    st: EventsState<W, L, C>,
    events: Seq<ConnectionEvent<W, L, C>>,
    game_frame_number: u64,
    n: int,
)
    requires
        0 <= n < events.len(),
        !event_step_returns(events_run(st, events.take(n), game_frame_number), events[n], game_frame_number),
    ensures
        !events_run_returns(st, events, game_frame_number),
    decreases events.len(),
{
    if n == events.len() - 1 {
        assert(events.take(n) =~= events.drop_last());
    } else {
        assert(events.drop_last().take(n) =~= events.take(n));
        lemma_events_run_returns_extends(st, events.drop_last(), game_frame_number, n);
    }
}

/// `later` is at least as recent an acknowledgement as `earlier`.
pub open spec fn acknowledgement_at_least(earlier: Option<u64>, later: Option<u64>) -> bool {
    match earlier {
        None => true,
        Some(e) => match later {
            Some(l) => e <= l,
            None => false,
        },
    }
}

/// `after` holds the connections of `before`, in the same order, each with an
/// acknowledgement at least as recent.
pub open spec fn acknowledgements_kept(before: Seq<NetConnectionModel>, after: Seq<NetConnectionModel>) -> bool {
    &&& before.len() == after.len()
    &&& forall|i: int| 0 <= i < before.len() ==> (#[trigger] after[i]).id == before[i].id
        && acknowledgement_at_least(before[i].last_acknowledged_update, after[i].last_acknowledged_update)
}

/// The last acknowledged update of a connection never goes back, and handling
/// events neither adds nor removes connection models.
pub proof fn lemma_events_keep_acknowledgements<W, L, C>(
    st: EventsState<W, L, C>,
    events: Seq<ConnectionEvent<W, L, C>>,
    game_frame_number: u64,
)
    requires
        events_run_returns(st, events, game_frame_number),
    ensures
        acknowledgements_kept(st.data.models, events_run(st, events, game_frame_number).data.models),
    decreases events.len(),
{
    if events.len() == 0 {
        let ms = st.data.models;
        assert forall|i: int| 0 <= i < ms.len() implies (#[trigger] ms[i]).id == ms[i].id
            && acknowledgement_at_least(ms[i].last_acknowledged_update, ms[i].last_acknowledged_update) by {}
    } else {
        lemma_events_keep_acknowledgements(st, events.drop_last(), game_frame_number);
        let prev = events_run(st, events.drop_last(), game_frame_number);
        let e = events.last();
        match e.event {
            NetEvent::Message(ClientMessagePayload::AcknowledgeWorldUpdate(update_number)) => {
                let ms = prev.data.models;
                let w = choose|w: int| 0 <= w < ms.len() && (#[trigger] ms[w]).id == e.connection_id;
                assert(exists|q: int| is_first_model_index(ms, e.connection_id, q)) by {
                    lemma_first_model(ms, e.connection_id, w);
                }
                let k = first_model_index(ms, e.connection_id);
                let after = events_run(st, events, game_frame_number).data.models;
                assert forall|i: int| 0 <= i < st.data.models.len() implies (#[trigger] after[i]).id
                    == st.data.models[i].id && acknowledgement_at_least(
                    st.data.models[i].last_acknowledged_update,
                    after[i].last_acknowledged_update,
                ) by {
                    assert(ms[i].id == st.data.models[i].id);
                }
            },
            _ => {},
        }
    }
}

proof fn lemma_first_model(models: Seq<NetConnectionModel>, id: NetIdentifier, w: int)
    requires
        0 <= w < models.len(),
        models[w].id == id,
    ensures
        exists|q: int| is_first_model_index(models, id, q),
    decreases w,
{
    if forall|j: int| 0 <= j < w ==> (#[trigger] models[j]).id != id {
        assert(is_first_model_index(models, id, w));
    } else {
        let j = choose|j: int| 0 <= j < w && (#[trigger] models[j]).id == id;
        lemma_first_model(models, id, j);
    }
}

/// While a multiplayer game is playing, after a frame of the server network
/// system the game waits for players exactly when some client lags; a new
/// pause, and only a new pause, gets the next pause identifier.
pub proof fn lemma_pause_follows_lagging<W, L, C>(
    data: NetworkDataView<W, L, C>,
    messages: Seq<(Recipient, ServerMessage)>,
    game_engine_state: GameEngineState,
    engine_frame_number: u64,
    last_broadcasted_frame: u64,
)
    requires
        game_engine_state == GameEngineState::Playing,
        data.is_playing,
        data.waiting_for_players_pause_id < u64::MAX,
    ensures
        ({
            let (after, sent) = pause_step(data, messages, game_engine_state, engine_frame_number, last_broadcasted_frame);
            &&& after.lagging_players == lagging_ids(
                data.models,
                engine_frame_number,
                last_broadcasted_frame,
                data.lagging_players,
            )
            &&& after.waiting_for_players == (after.lagging_players.len() > 0)
            &&& after.waiting_for_players_pause_id == if !data.waiting_for_players && after.waiting_for_players {
                data.waiting_for_players_pause_id + 1
            } else {
                data.waiting_for_players_pause_id as int
            }
        }),
{
}

/// After a frame of the server network system, the last heartbeat was sent at
/// most `HEARTBEAT_FRAME_INTERVAL` engine frames ago.
pub proof fn lemma_heartbeat_keeps_up<W, L, C>(
    host_connection_id: NetIdentifier,
    last_heartbeat_frame: u64,
    data: NetworkDataView<W, L, C>,
    events: Seq<ConnectionEvent<W, L, C>>,
    game_frame_number: u64,
    engine_frame_number: u64,
    game_engine_state: GameEngineState,
    last_broadcasted_frame: u64,
)
    requires
        last_heartbeat_frame <= engine_frame_number,
    ensures
        ({
            let out = network_outcome(
                host_connection_id,
                last_heartbeat_frame,
                data,
                events,
                game_frame_number,
                engine_frame_number,
                game_engine_state,
                last_broadcasted_frame,
            );
            out.last_heartbeat_frame <= engine_frame_number
                && engine_frame_number - out.last_heartbeat_frame <= HEARTBEAT_FRAME_INTERVAL
        }),
{
}

/// The world updates to reserve, when there are any, run from a frame no
/// later than the current frame up to the current frame.
pub proof fn lemma_reserved_range<W, L, C>(
    data: NetworkDataView<W, L, C>,
    game_engine_state: GameEngineState,
    game_frame_number: u64,
)
    ensures
        updates_to_reserve(data, game_engine_state, game_frame_number) matches Some((from, to))
            ==> from <= to && to == game_frame_number && from <= data.oldest_updated_frame,
{
}

proof fn lemma_event_step_appends<W, L, C>(
    st: EventsState<W, L, C>,
    event: ConnectionEvent<W, L, C>,
    game_frame_number: u64,
)
    ensures
        ({
            let after = event_step(st, event, game_frame_number).messages;
            after == st.messages || exists|m: (Recipient, ServerMessage)| after == st.messages.push(m)
        }),
{
    let after = event_step(st, event, game_frame_number).messages;
    if after != st.messages {
        assert(after == st.messages.push(after.last()));
    }
}

/// Every client that connects is sent a handshake carrying its connection
/// identifier.
pub proof fn lemma_every_connection_gets_a_handshake<W, L, C>(
    st: EventsState<W, L, C>,
    events: Seq<ConnectionEvent<W, L, C>>,
    game_frame_number: u64,
)
    ensures
        forall|i: int| 0 <= i < events.len() && (#[trigger] events[i]).event is Connected ==> events_run(
            st,
            events,
            game_frame_number,
        ).messages.contains((Recipient::Connection(events[i].connection_id), ServerMessage::Handshake(events[i].connection_id))),
    decreases events.len(),
{
    if events.len() > 0 {
        let rest = events.drop_last();
        lemma_every_connection_gets_a_handshake(st, rest, game_frame_number);
        let prev = events_run(st, rest, game_frame_number);
        let e = events.last();
        lemma_event_step_appends(prev, e, game_frame_number);
        let after = events_run(st, events, game_frame_number).messages;
        assert forall|i: int| 0 <= i < events.len() && (#[trigger] events[i]).event is Connected implies after.contains(
            (Recipient::Connection(events[i].connection_id), ServerMessage::Handshake(events[i].connection_id)),
        ) by {
            let m = (Recipient::Connection(events[i].connection_id), ServerMessage::Handshake(events[i].connection_id));
            if i == events.len() - 1 {
                assert(after.last() == m);
                assert(after[after.len() - 1] == m);
            } else {
                assert(rest[i] == events[i]);
                assert(prev.messages.contains(m));
                let w = choose|w: int| 0 <= w < prev.messages.len() && prev.messages[w] == m;
                assert(after[w] == m);
            }
        }
    }
}

/// Handling connection events never moves the oldest updated frame later:
/// the world is simulated again from every frame whose actions changed.
pub proof fn lemma_events_oldest_only_decreases<W, L, C>(
    st: EventsState<W, L, C>,
    events: Seq<ConnectionEvent<W, L, C>>,
    game_frame_number: u64,
)
    ensures
        events_run(st, events, game_frame_number).data.oldest_updated_frame <= st.data.oldest_updated_frame,
    decreases events.len(),
{
    if events.len() > 0 {
        lemma_events_oldest_only_decreases(st, events.drop_last(), game_frame_number);
        let prev = events_run(st, events.drop_last(), game_frame_number);
        let d = prev.data;
        match events.last().event {
            NetEvent::Message(ClientMessagePayload::WalkActions(actions)) => {
                crate::walk_actions::lemma_walk_run_oldest_only_decreases(
                    WalkState { frames: d.frames, oldest_updated_frame: d.oldest_updated_frame, discarded: Seq::empty() },
                    actions.updates@,
                    actions.frame_number,
                    game_frame_number,
                );
            },
            NetEvent::Message(ClientMessagePayload::CastActions(actions)) => {
                crate::cast_actions::lemma_cast_run_oldest_only_decreases(
                    CastState { frames: d.frames, oldest_updated_frame: d.oldest_updated_frame, next_id: d.next_action_id },
                    actions.updates@,
                    lag_compensated_frame(actions.frame_number, game_frame_number),
                );
            },
            NetEvent::Message(ClientMessagePayload::LookActions(actions)) => {
                crate::look_actions::lemma_look_run_oldest_only_decreases(
                    look_start_from(d.frames, d.oldest_updated_frame, actions, game_frame_number),
                    look_entries(actions),
                    saturating_sub(game_frame_number, LAG_COMPENSATION_FRAMES_LIMIT),
                );
            },
            _ => {},
        }
    }
}


/// The lagging clients are exactly those whose frames since their last pong,
/// or whose average lagging behind, exceed `PAUSE_FRAME_THRESHOLD`, together
/// with those already in the previous lagging list whose last stored game
/// frame is still behind the frame clients are expected to show. A client that
/// was not lagging before is lagging only for the first two reasons.
pub proof fn lemma_lagging_players_are_those_that_lag(
    models: Seq<NetConnectionModel>,
    engine_frame_number: u64,
    last_broadcasted_frame: u64,
    previously_lagging: Seq<NetIdentifier>,
)
    ensures
        forall|x: NetIdentifier|
            #![trigger lagging_ids(models, engine_frame_number, last_broadcasted_frame, previously_lagging).contains(x)]
            lagging_ids(models, engine_frame_number, last_broadcasted_frame, previously_lagging).contains(x)
                <==> exists|i: int|
                0 <= i < models.len() && (#[trigger] models[i]).id == x && {
                    let data = models[i].ping_pong_data;
                    ||| engine_frame_number - data.last_ponged_frame > PAUSE_FRAME_THRESHOLD
                    ||| data.average_lagging_behind > PAUSE_FRAME_THRESHOLD
                    ||| previously_lagging.contains(x) && data.last_stored_game_frame < last_broadcasted_frame
                        - INTERPOLATION_FRAME_DELAY
                },
    decreases models.len(),
{
    if models.len() > 0 {
        let rest = models.drop_last();
        let m = models.last();
        let n = models.len() - 1;
        lemma_lagging_players_are_those_that_lag(rest, engine_frame_number, last_broadcasted_frame, previously_lagging);
        let res = lagging_ids(models, engine_frame_number, last_broadcasted_frame, previously_lagging);
        let prev = lagging_ids(rest, engine_frame_number, last_broadcasted_frame, previously_lagging);
        assert(models[n] == m);
        assert forall|i: int| 0 <= i < n implies #[trigger] rest[i] == models[i] by {}
        assert forall|x: NetIdentifier| #[trigger] res.contains(x) implies exists|i: int|
            0 <= i < models.len() && (#[trigger] models[i]).id == x && {
                let data = models[i].ping_pong_data;
                ||| engine_frame_number - data.last_ponged_frame > PAUSE_FRAME_THRESHOLD
                ||| data.average_lagging_behind > PAUSE_FRAME_THRESHOLD
                ||| previously_lagging.contains(x) && data.last_stored_game_frame < last_broadcasted_frame
                    - INTERPOLATION_FRAME_DELAY
            } by {
            let w = choose|w: int| 0 <= w < res.len() && res[w] == x;
            if w < prev.len() {
                assert(prev[w] == res[w]);
                assert(prev.contains(x));
                let i = choose|i: int|
                    0 <= i < rest.len() && (#[trigger] rest[i]).id == x && {
                        let data = rest[i].ping_pong_data;
                        ||| engine_frame_number - data.last_ponged_frame > PAUSE_FRAME_THRESHOLD
                        ||| data.average_lagging_behind > PAUSE_FRAME_THRESHOLD
                        ||| previously_lagging.contains(x) && data.last_stored_game_frame < last_broadcasted_frame
                            - INTERPOLATION_FRAME_DELAY
                    };
                assert(models[i] == rest[i]);
            } else {
                assert(is_lagging(m, engine_frame_number, last_broadcasted_frame, previously_lagging));
                assert(x == m.id);
                assert(models[n].id == x);
            }
        }
        assert forall|x: NetIdentifier| (exists|i: int|
            0 <= i < models.len() && (#[trigger] models[i]).id == x && {
                let data = models[i].ping_pong_data;
                ||| engine_frame_number - data.last_ponged_frame > PAUSE_FRAME_THRESHOLD
                ||| data.average_lagging_behind > PAUSE_FRAME_THRESHOLD
                ||| previously_lagging.contains(x) && data.last_stored_game_frame < last_broadcasted_frame
                    - INTERPOLATION_FRAME_DELAY
            }) implies #[trigger] res.contains(x) by {
            let i = choose|i: int|
                0 <= i < models.len() && (#[trigger] models[i]).id == x && {
                    let data = models[i].ping_pong_data;
                    ||| engine_frame_number - data.last_ponged_frame > PAUSE_FRAME_THRESHOLD
                    ||| data.average_lagging_behind > PAUSE_FRAME_THRESHOLD
                    ||| previously_lagging.contains(x) && data.last_stored_game_frame < last_broadcasted_frame
                        - INTERPOLATION_FRAME_DELAY
                };
            if i < n {
                assert(rest[i] == models[i]);
                assert(prev.contains(x));
                let w = choose|w: int| 0 <= w < prev.len() && prev[w] == x;
                assert(res[w] == prev[w]);
            } else {
                assert(is_lagging(m, engine_frame_number, last_broadcasted_frame, previously_lagging));
                assert(res[res.len() - 1] == x);
            }
        }
    } else {
        assert forall|x: NetIdentifier|
            !#[trigger] lagging_ids(models, engine_frame_number, last_broadcasted_frame, previously_lagging).contains(x) by {}
    }
}


/// The lagging clients are listed once per model that lags, in the order of
/// the models: a client lags when its frames since its last pong, or its
/// average lagging behind, exceed `PAUSE_FRAME_THRESHOLD`, or when it was
/// already lagging and its last stored game frame is still behind the frame
/// clients are expected to show.
pub proof fn lemma_lagging_players_in_model_order(
    models: Seq<NetConnectionModel>,
    engine_frame_number: u64,
    last_broadcasted_frame: u64,
    previously_lagging: Seq<NetIdentifier>,
)
    ensures
        lagging_ids(models, engine_frame_number, last_broadcasted_frame, previously_lagging) == models.filter(
            |m: NetConnectionModel|
                {
                    let data = m.ping_pong_data;
                    ||| engine_frame_number - data.last_ponged_frame > PAUSE_FRAME_THRESHOLD
                    ||| data.average_lagging_behind > PAUSE_FRAME_THRESHOLD
                    ||| previously_lagging.contains(m.id) && data.last_stored_game_frame < last_broadcasted_frame
                        - INTERPOLATION_FRAME_DELAY
                },
        ).map_values(|m: NetConnectionModel| m.id),
    decreases models.len(),
{
    let lags = |m: NetConnectionModel|
        {
            let data = m.ping_pong_data;
            ||| engine_frame_number - data.last_ponged_frame > PAUSE_FRAME_THRESHOLD
            ||| data.average_lagging_behind > PAUSE_FRAME_THRESHOLD
            ||| previously_lagging.contains(m.id) && data.last_stored_game_frame < last_broadcasted_frame
                - INTERPOLATION_FRAME_DELAY
        };
    let id_of = |m: NetConnectionModel| m.id;
    reveal(Seq::filter);
    if models.len() == 0 {
        assert(models.filter(lags).map_values(id_of) =~= Seq::<NetIdentifier>::empty());
    } else {
        let rest = models.drop_last();
        let m = models.last();
        lemma_lagging_players_in_model_order(rest, engine_frame_number, last_broadcasted_frame, previously_lagging);
        assert(is_lagging(m, engine_frame_number, last_broadcasted_frame, previously_lagging) == lags(m));
        let sub = rest.filter(lags);
        if lags(m) {
            assert(models.filter(lags) == sub.push(m));
            assert(sub.push(m).map_values(id_of) =~= sub.map_values(id_of).push(m.id));
        } else {
            assert(models.filter(lags) == sub);
        }
    }
}


/// At the end of a frame of the server network system, world updates are
/// reserved exactly when the game is playing and waits neither for the
/// network nor for players, from the oldest updated frame (or the current
/// frame, when that is older) to the current frame. A heartbeat goes to
/// everyone when more than `HEARTBEAT_FRAME_INTERVAL` engine frames passed
/// since the last one, which then dates from this frame; otherwise the last
/// heartbeat frame stays.
pub proof fn lemma_network_outcome_reserves_and_beats<W, L, C>(
    host_connection_id: NetIdentifier,
    last_heartbeat_frame: u64,
    data: NetworkDataView<W, L, C>,
    events: Seq<ConnectionEvent<W, L, C>>,
    game_frame_number: u64,
    engine_frame_number: u64,
    game_engine_state: GameEngineState,
    last_broadcasted_frame: u64,
)
    ensures
        ({
            let out = network_outcome(
                host_connection_id,
                last_heartbeat_frame,
                data,
                events,
                game_frame_number,
                engine_frame_number,
                game_engine_state,
                last_broadcasted_frame,
            );
            &&& out.reserve_new_updates == if game_engine_state == GameEngineState::Playing
                && !out.data.waiting_network && !out.data.waiting_for_players {
                Some(
                    (
                        if out.data.oldest_updated_frame < game_frame_number {
                            out.data.oldest_updated_frame
                        } else {
                            game_frame_number
                        },
                        game_frame_number,
                    ),
                )
            } else {
                None
            }
            &&& engine_frame_number - last_heartbeat_frame > HEARTBEAT_FRAME_INTERVAL ==> {
                &&& out.last_heartbeat_frame == engine_frame_number
                &&& out.messages.contains((Recipient::Everyone, ServerMessage::Heartbeat))
            }
            &&& engine_frame_number - last_heartbeat_frame <= HEARTBEAT_FRAME_INTERVAL
                ==> out.last_heartbeat_frame == last_heartbeat_frame
        }),
{
    let handled = events_run(
        EventsState { host_connection_id, data, messages: Seq::empty() },
        events,
        game_frame_number,
    );
    let room = room_players_step(handled);
    if is_heartbeat_due(engine_frame_number, last_heartbeat_frame) {
        let beat = room.messages.push((Recipient::Everyone, ServerMessage::Heartbeat));
        let (paused, sent) = pause_step(room.data, beat, game_engine_state, engine_frame_number, last_broadcasted_frame);
        assert(beat[beat.len() - 1] == (Recipient::Everyone, ServerMessage::Heartbeat));
        assert(sent == beat || sent == beat.push(sent.last()));
        assert(sent[beat.len() - 1] == (Recipient::Everyone, ServerMessage::Heartbeat));
    }
}

/// While a multiplayer game is playing, a new pause is announced to everyone
/// with its identifier and the lagging clients, and the end of a pause is
/// announced to everyone with the identifier of that pause; otherwise no
/// message is sent.
pub proof fn lemma_pause_messages<W, L, C>(
    data: NetworkDataView<W, L, C>,
    messages: Seq<(Recipient, ServerMessage)>,
    game_engine_state: GameEngineState,
    engine_frame_number: u64,
    last_broadcasted_frame: u64,
)
    requires
        game_engine_state == GameEngineState::Playing,
        data.is_playing,
        data.waiting_for_players_pause_id < u64::MAX,
    ensures
        ({
            let (after, sent) = pause_step(data, messages, game_engine_state, engine_frame_number, last_broadcasted_frame);
            &&& !data.waiting_for_players && after.waiting_for_players ==> sent == messages.push(
                (
                    Recipient::Everyone,
                    ServerMessage::PauseWaitingForPlayers {
                        id: (data.waiting_for_players_pause_id + 1) as u64,
                        players: after.lagging_players,
                    },
                ),
            )
            &&& data.waiting_for_players && !after.waiting_for_players ==> sent == messages.push(
                (Recipient::Everyone, ServerMessage::UnpauseWaitingForPlayers(data.waiting_for_players_pause_id)),
            )
            &&& data.waiting_for_players == after.waiting_for_players ==> sent == messages
        }),
{
}

} // verus!
