use gv_netcode::actions::{
    ActionUpdateIdProvider, ClientActionUpdate, ImmediatePlayerActionsUpdates, NetUpdate,
    PlayerLookActionUpdates,
};
use gv_netcode::framed_updates::FramedUpdates;
use gv_netcode::server_network::{
    ClientMessagePayload, ConnectionEvent, GameEngineState, MultiplayerGameState,
    MultiplayerRoomPlayer, NetConnectionModel, NetEvent, PingPongData, Recipient,
    ServerMessagePayload, ServerNetworkData, ServerNetworkError, ServerNetworkOutput,
    ServerNetworkSystem, PAUSE_FRAME_THRESHOLD,
};

type Data = ServerNetworkData<u32, u32, u32>;
type Event = ConnectionEvent<u32, u32, u32>;

fn model(id: u64) -> NetConnectionModel {
    NetConnectionModel {
        id,
        last_acknowledged_update: None,
        ping_pong_data: PingPongData { last_ponged_frame: 1000, average_lagging_behind: 0, last_stored_game_frame: 1000 },
    }
}

fn data(models: Vec<NetConnectionModel>) -> Data {
    let mut framed_updates = FramedUpdates::new();
    framed_updates.reserve_updates(300);
    framed_updates.oldest_updated_frame = 300;
    ServerNetworkData {
        multiplayer_game_state: MultiplayerGameState {
            players: Vec::new(),
            players_updated: false,
            is_playing: false,
            waiting_network: false,
            waiting_for_players: false,
            waiting_for_players_pause_id: 0,
            lagging_players: Vec::new(),
        },
        new_game_engine_state: GameEngineState::Menu,
        framed_updates,
        action_update_id_provider: ActionUpdateIdProvider::new(),
        net_connection_models: models,
    }
}

fn event(connection_id: u64, event: NetEvent<u32, u32, u32>) -> Event {
    ConnectionEvent { connection_id, event }
}

fn message(connection_id: u64, payload: ClientMessagePayload<u32, u32, u32>) -> Event {
    event(connection_id, NetEvent::Message(payload))
}

fn run(system: &mut ServerNetworkSystem, data: &mut Data, events: Vec<Event>, engine_state: GameEngineState) -> ServerNetworkOutput {
    let mut events = events;
    let out = system.run(300, 1000, engine_state, 300, &mut events, data);
    assert!(events.is_empty());
    out
}

fn nicknames(players: &[MultiplayerRoomPlayer]) -> Vec<(u64, String, bool)> {
    players.iter().map(|p| (p.connection_id, p.nickname.clone(), p.is_host)).collect()
}

#[test]
fn the_first_connection_hosts_and_everyone_gets_a_handshake() {
    let mut system = ServerNetworkSystem::new();
    system.last_heartbeat_frame = 1000;
    let mut data = data(vec![model(4), model(5)]);
    let out = run(
        &mut system,
        &mut data,
        vec![
            event(4, NetEvent::Connected),
            message(4, ClientMessagePayload::JoinRoom { nickname: "ann".to_string() }),
            event(5, NetEvent::Connected),
            message(5, ClientMessagePayload::JoinRoom { nickname: "bob".to_string() }),
        ],
        GameEngineState::Menu,
    );
    assert_eq!(system.host_connection_id, 4);
    assert_eq!(
        nicknames(&data.multiplayer_game_state.players),
        vec![(4, "ann".to_string(), true), (5, "bob".to_string(), false)]
    );
    assert!(!data.multiplayer_game_state.players_updated);
    assert_eq!(out.messages.len(), 3);
    assert_eq!(out.messages[0].recipient, Recipient::Connection(4));
    assert!(matches!(out.messages[0].payload, ServerMessagePayload::Handshake(4)));
    assert!(matches!(out.messages[1].payload, ServerMessagePayload::Handshake(5)));
    assert_eq!(out.messages[2].recipient, Recipient::Everyone);
    match &out.messages[2].payload {
        ServerMessagePayload::UpdateRoomPlayers(players) => assert_eq!(
            nicknames(players),
            vec![(4, "ann".to_string(), true), (5, "bob".to_string(), false)]
        ),
        other => panic!("unexpected message {:?}", other),
    }
    assert!(out.reserve_new_updates.is_none());
}

#[test]
fn only_the_host_starts_the_game() {
    let mut system = ServerNetworkSystem { host_connection_id: 4, last_heartbeat_frame: 1000 };
    let mut data = data(vec![model(4), model(5)]);
    run(&mut system, &mut data, vec![message(5, ClientMessagePayload::StartHostedGame)], GameEngineState::Menu);
    assert!(!data.multiplayer_game_state.is_playing);
    assert_eq!(data.new_game_engine_state, GameEngineState::Menu);
    run(&mut system, &mut data, vec![message(4, ClientMessagePayload::StartHostedGame)], GameEngineState::Menu);
    assert!(data.multiplayer_game_state.is_playing);
    assert_eq!(data.new_game_engine_state, GameEngineState::Playing);
}

#[test]
fn a_disconnection_keeps_only_the_players_of_that_connection() {
    let mut system = ServerNetworkSystem { host_connection_id: 4, last_heartbeat_frame: 1000 };
    let mut data = data(vec![model(4), model(5)]);
    run(
        &mut system,
        &mut data,
        vec![
            message(4, ClientMessagePayload::JoinRoom { nickname: "ann".to_string() }),
            message(5, ClientMessagePayload::JoinRoom { nickname: "bob".to_string() }),
        ],
        GameEngineState::Menu,
    );
    let out = run(&mut system, &mut data, vec![event(5, NetEvent::Disconnected)], GameEngineState::Menu);
    assert_eq!(nicknames(&data.multiplayer_game_state.players), vec![(5, "bob".to_string(), false)]);
    assert_eq!(out.messages.len(), 1);
}

#[test]
fn acknowledgements_only_move_forward() {
    let mut system = ServerNetworkSystem { host_connection_id: 0, last_heartbeat_frame: 1000 };
    let mut data = data(vec![model(4), model(5)]);
    run(
        &mut system,
        &mut data,
        vec![
            message(5, ClientMessagePayload::AcknowledgeWorldUpdate(7)),
            message(5, ClientMessagePayload::AcknowledgeWorldUpdate(3)),
            message(4, ClientMessagePayload::AcknowledgeWorldUpdate(2)),
        ],
        GameEngineState::Menu,
    );
    assert_eq!(data.net_connection_models[0].last_acknowledged_update, Some(2));
    assert_eq!(data.net_connection_models[1].last_acknowledged_update, Some(7));
}

#[test]
fn an_acknowledgement_from_an_unknown_connection_is_not_handled() {
    let mut system = ServerNetworkSystem { host_connection_id: 0, last_heartbeat_frame: 1000 };
    let mut data = data(vec![model(4)]);
    let mut events = vec![
        event(9, NetEvent::Connected),
        message(9, ClientMessagePayload::AcknowledgeWorldUpdate(1)),
    ];
    match system.try_run(300, 1000, GameEngineState::Menu, 300, &mut events, &mut data) {
        Err(ServerNetworkError::EventNotHandled { index }) => assert_eq!(index, 1),
        _ => panic!("expected an unhandled event"),
    }
}

#[test]
fn heartbeats_are_sent_every_few_engine_frames() {
    let mut system = ServerNetworkSystem { host_connection_id: 0, last_heartbeat_frame: 997 };
    let mut data = data(vec![]);
    let out = run(&mut system, &mut data, vec![], GameEngineState::Menu);
    assert_eq!(out.messages.len(), 1);
    assert!(matches!(out.messages[0].payload, ServerMessagePayload::Heartbeat));
    assert_eq!(system.last_heartbeat_frame, 1000);
    let mut none = Vec::new();
    let out = system.run(300, 1002, GameEngineState::Menu, 300, &mut none, &mut data);
    assert!(out.messages.is_empty());
    assert_eq!(system.last_heartbeat_frame, 1000);
}

#[test]
fn a_heartbeat_ahead_of_the_engine_is_reported() {
    let mut system = ServerNetworkSystem { host_connection_id: 0, last_heartbeat_frame: 2000 };
    let mut data = data(vec![]);
    let mut events = vec![event(1, NetEvent::Connected)];
    assert!(matches!(
        system.try_run(300, 1000, GameEngineState::Menu, 300, &mut events, &mut data),
        Err(ServerNetworkError::HeartbeatAhead)
    ));
    assert_eq!(events.len(), 1);
}

#[test]
fn a_lagging_client_pauses_the_game_until_it_catches_up() {
    let mut system = ServerNetworkSystem { host_connection_id: 4, last_heartbeat_frame: 1000 };
    let mut data = data(vec![model(4), model(5)]);
    data.multiplayer_game_state.is_playing = true;
    data.net_connection_models[1].ping_pong_data.last_ponged_frame = 1000 - PAUSE_FRAME_THRESHOLD - 1;
    let out = run(&mut system, &mut data, vec![], GameEngineState::Playing);
    assert_eq!(out.messages.len(), 1);
    match &out.messages[0].payload {
        ServerMessagePayload::PauseWaitingForPlayers { id, players } => {
            assert_eq!(*id, 1);
            assert_eq!(players, &vec![5]);
        },
        other => panic!("unexpected message {:?}", other),
    }
    assert!(data.multiplayer_game_state.waiting_for_players);
    assert_eq!(data.multiplayer_game_state.lagging_players, vec![5]);
    assert!(out.reserve_new_updates.is_none());

    // Still lagging: no new pause.
    let out = run(&mut system, &mut data, vec![], GameEngineState::Playing);
    assert!(out.messages.is_empty());

    // It answered, but has not caught up with the frame clients are expected to show.
    data.net_connection_models[1].ping_pong_data.last_ponged_frame = 1000;
    data.net_connection_models[1].ping_pong_data.last_stored_game_frame = 200;
    let out = run(&mut system, &mut data, vec![], GameEngineState::Playing);
    assert!(out.messages.is_empty());
    assert!(data.multiplayer_game_state.waiting_for_players);

    // Caught up (300 - 10 frames of interpolation delay): the game resumes.
    data.net_connection_models[1].ping_pong_data.last_stored_game_frame = 290;
    let out = run(&mut system, &mut data, vec![], GameEngineState::Playing);
    assert_eq!(out.messages.len(), 1);
    assert!(matches!(out.messages[0].payload, ServerMessagePayload::UnpauseWaitingForPlayers(1)));
    assert!(!data.multiplayer_game_state.waiting_for_players);
    assert!(data.multiplayer_game_state.lagging_players.is_empty());
    assert_eq!(out.reserve_new_updates, Some((300, 300)));
}

#[test]
fn updates_are_reserved_from_the_oldest_changed_frame() {
    let mut system = ServerNetworkSystem { host_connection_id: 4, last_heartbeat_frame: 1000 };
    let mut data = data(vec![model(4)]);
    let walk = ImmediatePlayerActionsUpdates {
        frame_number: 250,
        updates: vec![NetUpdate { entity_net_id: 1, data: ClientActionUpdate { client_action_id: 3, action: 0u32 } }],
    };
    let out = run(&mut system, &mut data, vec![message(4, ClientMessagePayload::WalkActions(walk))], GameEngineState::Playing);
    assert_eq!(out.reserve_new_updates, Some((250, 300)));
    assert_eq!(data.framed_updates.updates[250].walk_action_updates.len(), 1);
}

#[test]
fn discarded_walk_actions_are_reported_to_their_client() {
    let mut system = ServerNetworkSystem { host_connection_id: 4, last_heartbeat_frame: 1000 };
    let mut data = data(vec![model(4)]);
    data.framed_updates.updates[100].walk_action_updates.push(NetUpdate {
        entity_net_id: 1,
        data: ClientActionUpdate { client_action_id: 2, action: 0u32 },
    });
    let walk = ImmediatePlayerActionsUpdates {
        frame_number: 10,
        updates: vec![NetUpdate { entity_net_id: 1, data: ClientActionUpdate { client_action_id: 3, action: 0u32 } }],
    };
    let cast = ImmediatePlayerActionsUpdates {
        frame_number: 290,
        updates: vec![NetUpdate { entity_net_id: 1, data: ClientActionUpdate { client_action_id: 4, action: 1u32 } }],
    };
    let looks = PlayerLookActionUpdates { updates: vec![(295, vec![NetUpdate { entity_net_id: 1, data: 5u32 }])] };
    let out = run(
        &mut system,
        &mut data,
        vec![
            message(4, ClientMessagePayload::WalkActions(walk)),
            message(4, ClientMessagePayload::CastActions(cast)),
            message(4, ClientMessagePayload::LookActions(looks)),
        ],
        GameEngineState::Menu,
    );
    assert_eq!(out.messages.len(), 1);
    assert_eq!(out.messages[0].recipient, Recipient::Connection(4));
    match &out.messages[0].payload {
        ServerMessagePayload::DiscardWalkActions(ids) => assert_eq!(ids, &vec![3]),
        other => panic!("unexpected message {:?}", other),
    }
    assert_eq!(data.framed_updates.updates[290].cast_action_updates.len(), 1);
    assert_eq!(data.framed_updates.updates[295].look_action_updates.len(), 1);
    assert_eq!(data.action_update_id_provider.next_id, 1);
    assert_eq!(data.framed_updates.oldest_updated_frame, 290);
}

#[test]
fn an_exhausted_pause_count_matters_only_when_pausing() {
    let mut system = ServerNetworkSystem { host_connection_id: 4, last_heartbeat_frame: 1000 };
    let mut data = data(vec![model(4)]);
    data.multiplayer_game_state.is_playing = true;
    data.multiplayer_game_state.waiting_for_players_pause_id = u64::MAX;
    let mut none: Vec<Event> = Vec::new();
    assert!(system.try_run(300, 1000, GameEngineState::Playing, 300, &mut none, &mut data).is_ok());
    data.net_connection_models[0].ping_pong_data.average_lagging_behind = PAUSE_FRAME_THRESHOLD + 1;
    assert!(matches!(
        system.try_run(300, 1000, GameEngineState::Playing, 300, &mut none, &mut data),
        Err(ServerNetworkError::PauseCountExhausted)
    ));
}
