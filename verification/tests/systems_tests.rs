use gv_netcode::systems::{build_game_logic_systems, dependencies_with_optional, optional_dependencies};

#[test]
fn optional_dependencies_follow_the_condition() {
    assert_eq!(optional_dependencies(&["input_system"], true), vec!["input_system"]);
    assert!(optional_dependencies(&["input_system"], false).is_empty());
}

#[test]
fn dependencies_with_optional_appends_when_asked() {
    assert_eq!(
        dependencies_with_optional(&["a", "b"], true, &["c"]),
        vec!["a", "b", "c"]
    );
    assert_eq!(dependencies_with_optional(&["a", "b"], false, &["c"]), vec!["a", "b"]);
    assert_eq!(dependencies_with_optional(&[], true, &["c", "d"]), vec!["c", "d"]);
}

#[test]
fn server_systems_skip_client_dependencies() {
    let systems = build_game_logic_systems(true);
    let names: Vec<&str> = systems.iter().map(|s| s.name).collect();
    assert_eq!(
        names,
        vec![
            "pause_system",
            "level_system",
            "spawner_system",
            "action_system",
            "monster_dying_system",
            "missile_dying_system",
            "world_position_transform_system",
            "state_switcher_system",
        ]
    );
    assert_eq!(systems[0].dependencies, vec!["game_network_system"]);
    assert_eq!(systems[3].dependencies, vec!["spawner_system"]);
    assert_eq!(
        systems[7].dependencies,
        vec!["monster_dying_system", "missile_dying_system"]
    );
}

#[test]
fn client_systems_wait_for_input_and_menu() {
    let systems = build_game_logic_systems(false);
    assert_eq!(systems.len(), 8);
    assert_eq!(systems[3].dependencies, vec!["spawner_system", "input_system"]);
    assert_eq!(
        systems[7].dependencies,
        vec!["monster_dying_system", "missile_dying_system", "menu_system"]
    );
    assert_eq!(systems[6].name, "world_position_transform_system");
    assert_eq!(systems[6].dependencies, vec!["action_system"]);
}
