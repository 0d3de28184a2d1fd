use vstd::prelude::*;

verus! {

/// The optional part of a system's dependency list: `dependencies` when
/// `condition` holds, nothing otherwise.
pub fn optional_dependencies(dependencies: &[&'static str], condition: bool) -> (res: Vec<&'static str>)
    ensures
        res@ == (if condition { dependencies@ } else { Seq::<&'static str>::empty() }),
{
    if condition {
        vstd::slice::slice_to_vec(dependencies)
    } else {
        Vec::new()
    }
}

/// A dependency list made of `mandatory`, followed by `optional` when
/// `condition` holds.
pub fn dependencies_with_optional(
    mandatory: &[&'static str],
    condition: bool,
    optional: &[&'static str],
) -> (res: Vec<&'static str>)
    ensures
        res@ == mandatory@ + (if condition { optional@ } else { Seq::<&'static str>::empty() }),
{
    let mut dependencies = vstd::slice::slice_to_vec(mandatory);
    let mut extra = optional_dependencies(optional, condition);
    dependencies.append(&mut extra);
    dependencies
}

/// One entry of the game logic dispatcher: the system's name and the names of
/// the systems that must run before it.
pub struct SystemRegistration {
    pub name: &'static str,
    pub dependencies: Vec<&'static str>,
}

impl View for SystemRegistration {
    type V = (&'static str, Seq<&'static str>);

    open spec fn view(&self) -> (&'static str, Seq<&'static str>) {
        (self.name, self.dependencies@)
    }
}

/// The game logic systems, in registration order, with their dependencies.
/// Client builds also wait for the input and menu systems.
pub open spec fn game_logic_schedule(is_server: bool) -> Seq<(&'static str, Seq<&'static str>)> {
    seq![
        ("pause_system", seq!["game_network_system"]),
        ("level_system", seq!["pause_system"]),
        ("spawner_system", seq!["level_system"]),
        ("action_system", seq!["spawner_system"] + if is_server { seq![] } else { seq!["input_system"] }),
        ("monster_dying_system", seq!["action_system"]),
        ("missile_dying_system", seq!["action_system"]),
        ("world_position_transform_system", seq!["action_system"]),
        ("state_switcher_system", seq!["monster_dying_system", "missile_dying_system"]
            + if is_server { seq![] } else { seq!["menu_system"] }),
    ]
}

fn registration(name: &'static str, dependencies: Vec<&'static str>) -> (res: SystemRegistration)
    ensures
        res@ == (name, dependencies@),
{
    SystemRegistration { name, dependencies }
}

fn single(name: &'static str) -> (res: Vec<&'static str>)
    ensures
        res@ == seq![name],
{
    let mut v: Vec<&'static str> = Vec::new();
    v.push(name);
    v
}

fn pair(first: &'static str, second: &'static str) -> (res: Vec<&'static str>)
    ensures
        res@ == seq![first, second],
{
    let mut v: Vec<&'static str> = Vec::new();
    v.push(first);
    v.push(second);
    v
}

/// The registrations of the game logic systems that the dispatcher is built
/// with, for a server (`is_server`) or a client.
pub fn build_game_logic_systems(is_server: bool) -> (res: Vec<SystemRegistration>)
    ensures
        res@.map_values(|r: SystemRegistration| r@) == game_logic_schedule(is_server),
{
    let mut res: Vec<SystemRegistration> = Vec::new();
    res.push(registration("pause_system", single("game_network_system")));
    res.push(registration("level_system", single("pause_system")));
    res.push(registration("spawner_system", single("level_system")));
    res.push(registration(
        "action_system",
        dependencies_with_optional(single("spawner_system").as_slice(), !is_server, single("input_system").as_slice()),
    ));
    res.push(registration("monster_dying_system", single("action_system")));
    res.push(registration("missile_dying_system", single("action_system")));
    res.push(registration("world_position_transform_system", single("action_system")));
    res.push(registration(
        "state_switcher_system",
        dependencies_with_optional(
            pair("monster_dying_system", "missile_dying_system").as_slice(),
            !is_server,
            single("menu_system").as_slice(),
        ),
    ));
    assert(res@.map_values(|r: SystemRegistration| r@) =~= game_logic_schedule(is_server));
    res
}

} // verus!
