use gv_netcode::actions::{
    ActionUpdateIdProvider, ClientActionUpdate, ImmediatePlayerActionsUpdates, NetUpdate,
    PlayerLookActionUpdates,
};
use gv_netcode::cast_actions::{add_cast_actions, try_add_cast_actions};
use gv_netcode::framed_updates::FramedUpdates;
use gv_netcode::look_actions::{add_look_actions, try_add_look_actions};
use gv_netcode::walk_actions::{add_walk_actions, try_add_walk_actions};

type Frames = FramedUpdates<&'static str, &'static str, &'static str>;

fn frames_up_to(last: u64) -> Frames {
    let mut frames = FramedUpdates::new();
    frames.reserve_updates(last);
    frames.oldest_updated_frame = u64::MAX;
    frames
}

fn client_action(entity: u64, id: u64, action: &'static str) -> NetUpdate<ClientActionUpdate<&'static str>> {
    NetUpdate { entity_net_id: entity, data: ClientActionUpdate { client_action_id: id, action } }
}

fn walk_ids(frames: &Frames, frame: u64) -> Vec<u64> {
    frames.updates[frame as usize]
        .walk_action_updates
        .iter()
        .map(|u| u.data.client_action_id)
        .collect()
}

fn look_actions(frames: &Frames, frame: u64) -> Vec<(u64, &'static str)> {
    frames.updates[frame as usize]
        .look_action_updates
        .iter()
        .map(|u| (u.entity_net_id, u.data))
        .collect()
}

#[test]
fn reserve_updates_appends_consecutive_empty_frames() {
    let mut frames: Frames = FramedUpdates::new();
    frames.reserve_updates(3);
    let numbers: Vec<u64> = frames.updates.iter().map(|u| u.frame_number).collect();
    assert_eq!(numbers, vec![0, 1, 2, 3]);
    frames.reserve_updates(2);
    assert_eq!(frames.updates.len(), 4);
    frames.reserve_updates(5);
    let numbers: Vec<u64> = frames.updates.iter().map(|u| u.frame_number).collect();
    assert_eq!(numbers, vec![0, 1, 2, 3, 4, 5]);
}

#[test]
fn update_frame_finds_a_frame_and_lowers_the_oldest_updated_frame() {
    let mut frames = frames_up_to(10);
    assert_eq!(frames.update_frame(7), Some(7));
    assert_eq!(frames.oldest_updated_frame, 7);
    assert_eq!(frames.update_frame(11), None);
    assert_eq!(frames.oldest_updated_frame, 7);
}

#[test]
fn walk_actions_on_time_go_to_their_frame() {
    let mut frames = frames_up_to(300);
    let discarded = add_walk_actions(
        &mut frames,
        ImmediatePlayerActionsUpdates { frame_number: 250, updates: vec![client_action(1, 11, "w"), client_action(2, 12, "w")] },
        300,
    );
    assert!(discarded.is_empty());
    assert_eq!(walk_ids(&frames, 250), vec![11, 12]);
    assert_eq!(frames.oldest_updated_frame, 250);
}

#[test]
fn walk_actions_too_old_go_to_the_oldest_frame_that_can_change() {
    let mut frames = frames_up_to(300);
    // Frame 50 is badly late at frame 300 (older than 300 - 240), with nothing stored.
    let discarded = add_walk_actions(
        &mut frames,
        ImmediatePlayerActionsUpdates { frame_number: 50, updates: vec![client_action(1, 11, "w")] },
        300,
    );
    assert!(discarded.is_empty());
    assert_eq!(walk_ids(&frames, 180), vec![11]);
}

#[test]
fn a_badly_late_walk_action_is_discarded_behind_a_stored_one() {
    let mut frames = frames_up_to(300);
    frames.updates[200].walk_action_updates.push(client_action(1, 5, "w"));
    let discarded = add_walk_actions(
        &mut frames,
        ImmediatePlayerActionsUpdates { frame_number: 50, updates: vec![client_action(1, 11, "w"), client_action(2, 12, "w")] },
        300,
    );
    assert_eq!(discarded, vec![11]);
    assert_eq!(walk_ids(&frames, 180), vec![12]);
    assert_eq!(walk_ids(&frames, 200), vec![5]);
}

#[test]
fn a_late_walk_action_moves_or_discards_the_later_ones() {
    let mut frames = frames_up_to(300);
    frames.updates[180].walk_action_updates.push(client_action(7, 1, "w"));
    frames.updates[180].walk_action_updates.push(client_action(8, 4, "w"));
    frames.updates[181].walk_action_updates.push(client_action(7, 2, "w"));
    frames.updates[250].walk_action_updates.push(client_action(7, 3, "w"));
    // Taken at frame 100, 80 frames later than the oldest frame that can change.
    let discarded = add_walk_actions(
        &mut frames,
        ImmediatePlayerActionsUpdates { frame_number: 100, updates: vec![client_action(7, 9, "w")] },
        300,
    );
    // 250 + 80 is past frame 300: discarded. The others are put back.
    assert_eq!(discarded, vec![3]);
    assert_eq!(walk_ids(&frames, 180), vec![4, 1, 9]);
    assert_eq!(walk_ids(&frames, 181), vec![2]);
    assert!(walk_ids(&frames, 250).is_empty());
    assert_eq!(frames.oldest_updated_frame, 180);
}

#[test]
fn a_late_walk_action_after_a_gap_cannot_be_added() {
    let mut frames = frames_up_to(300);
    frames.updates[190].walk_action_updates.push(client_action(7, 1, "w"));
    let res = try_add_walk_actions(
        &mut frames,
        ImmediatePlayerActionsUpdates { frame_number: 100, updates: vec![client_action(7, 9, "w")] },
        300,
    );
    assert_eq!(res.unwrap_err().index, 0);
    assert_eq!(walk_ids(&frames, 190), vec![1]);
}

#[test]
fn a_walk_action_for_a_frame_not_held_cannot_be_added() {
    let mut frames = frames_up_to(200);
    let res = try_add_walk_actions(
        &mut frames,
        ImmediatePlayerActionsUpdates { frame_number: 250, updates: vec![client_action(1, 1, "w"), client_action(2, 2, "w")] },
        300,
    );
    assert_eq!(res.unwrap_err().index, 0);
}

#[test]
fn cast_actions_get_fresh_ids_once_per_entity() {
    let mut frames = frames_up_to(300);
    let mut ids = ActionUpdateIdProvider::new();
    add_cast_actions(
        &mut frames,
        ImmediatePlayerActionsUpdates {
            frame_number: 290,
            updates: vec![client_action(1, 11, "fire"), client_action(2, 12, "ice"), client_action(1, 13, "fire")],
        },
        &mut ids,
        300,
    );
    let casts: Vec<(u64, u64, u64)> = frames.updates[290]
        .cast_action_updates
        .iter()
        .map(|u| (u.entity_net_id, u.data.action_id, u.data.action.client_action_id))
        .collect();
    assert_eq!(casts, vec![(1, 0, 11), (2, 1, 12)]);
    assert_eq!(ids.next_id, 2);
    assert_eq!(frames.oldest_updated_frame, 290);
    // A later cast of entity 1 at an earlier frame is dropped too.
    add_cast_actions(
        &mut frames,
        ImmediatePlayerActionsUpdates { frame_number: 285, updates: vec![client_action(1, 14, "fire")] },
        &mut ids,
        300,
    );
    assert!(frames.updates[285].cast_action_updates.is_empty());
    assert_eq!(ids.next_id, 2);
}

#[test]
fn late_cast_actions_go_to_the_oldest_frame_that_can_change() {
    let mut frames = frames_up_to(300);
    let mut ids = ActionUpdateIdProvider { next_id: u64::MAX };
    add_cast_actions(
        &mut frames,
        ImmediatePlayerActionsUpdates { frame_number: 10, updates: vec![client_action(3, 1, "c")] },
        &mut ids,
        300,
    );
    assert_eq!(frames.updates[180].cast_action_updates.len(), 1);
    assert_eq!(frames.updates[180].cast_action_updates[0].data.action_id, u64::MAX);
    assert_eq!(ids.next_id, 0);
}

#[test]
fn cast_actions_for_a_frame_not_held_cannot_be_added() {
    let mut frames = frames_up_to(100);
    let mut ids = ActionUpdateIdProvider::new();
    let res = try_add_cast_actions(
        &mut frames,
        ImmediatePlayerActionsUpdates { frame_number: 150, updates: vec![client_action(3, 1, "c")] },
        &mut ids,
        300,
    );
    assert_eq!(res.unwrap_err().index, 0);
    assert_eq!(ids.next_id, 0);
}

fn look(entity: u64, action: &'static str) -> NetUpdate<&'static str> {
    NetUpdate { entity_net_id: entity, data: action }
}

#[test]
fn look_actions_replace_the_stored_look_of_an_entity() {
    let mut frames = frames_up_to(300);
    frames.updates[200].look_action_updates.push(look(1, "old"));
    add_look_actions(
        &mut frames,
        PlayerLookActionUpdates {
            updates: vec![(200, vec![look(1, "a"), look(2, "b")]), (205, vec![look(1, "c")]), (100, vec![look(3, "d")])],
        },
        300,
    );
    assert_eq!(look_actions(&frames, 200), vec![(1, "a"), (2, "b")]);
    assert_eq!(look_actions(&frames, 205), vec![(1, "c")]);
    // A group older than the oldest frame that can change goes to the next frame.
    assert_eq!(look_actions(&frames, 206), vec![(3, "d")]);
    assert_eq!(frames.oldest_updated_frame, 200);
}

#[test]
fn look_actions_stop_at_a_frame_already_passed() {
    let mut frames = frames_up_to(300);
    add_look_actions(
        &mut frames,
        PlayerLookActionUpdates { updates: vec![(200, vec![look(1, "a")]), (190, vec![look(2, "b")]), (250, vec![look(3, "c")])] },
        300,
    );
    assert_eq!(look_actions(&frames, 200), vec![(1, "a")]);
    assert!(look_actions(&frames, 190).is_empty());
    assert!(look_actions(&frames, 250).is_empty());
}

#[test]
fn look_actions_reserve_their_latest_frame() {
    let mut frames = frames_up_to(10);
    add_look_actions(&mut frames, PlayerLookActionUpdates { updates: vec![(15, vec![look(4, "x")])] }, 20);
    assert_eq!(frames.updates.len(), 16);
    assert_eq!(look_actions(&frames, 15), vec![(4, "x")]);
    assert_eq!(frames.oldest_updated_frame, 15);
    // A group after the last frame finds no frame left.
    let res = try_add_look_actions(&mut frames, PlayerLookActionUpdates { updates: vec![(15, vec![look(5, "y")]), (20, vec![])] }, 20);
    assert_eq!(res.unwrap_err().index, 1);
    assert_eq!(look_actions(&frames, 15), vec![(4, "x"), (5, "y")]);
}

#[test]
fn look_actions_without_a_frame_left_cannot_be_added() {
    let mut frames = frames_up_to(181);
    let res = try_add_look_actions(
        &mut frames,
        PlayerLookActionUpdates { updates: vec![(100, vec![look(1, "a")]), (100, vec![look(2, "b")]), (100, vec![look(3, "c")])] },
        300,
    );
    assert_eq!(res.unwrap_err().index, 2);
    assert_eq!(look_actions(&frames, 180), vec![(1, "a")]);
    assert_eq!(look_actions(&frames, 181), vec![(2, "b")]);
}
