use anvaya::TypeTag;
use anvaya::World;

const PLAYER: TypeTag = 1;
const ABILITIES: TypeTag = 2;
const AGE: TypeTag = 3;

#[derive(Debug, PartialEq, Clone)]
enum Component {
    Player(&'static str),
    Shoot,
    Melee,
    Age(u8),
}

#[test]
fn basic() {
    // World and spawn...
    let mut world: World<Component> = World::new();
    let a = world.spawn();
    a.insert(&mut world, PLAYER, Component::Player("Mike"))
        .insert(&mut world, ABILITIES, Component::Shoot);
    let b = world.spawn();
    b.insert(&mut world, PLAYER, Component::Player("Hannah"))
        .insert(&mut world, ABILITIES, Component::Melee);
    // Query and filter...
    let mut query = world.query();
    query.with(ABILITIES);
    let results = query.get(PLAYER).unwrap();
    // Validate...
    assert_eq!(*results[0].1, Component::Player("Mike"));
    assert_eq!(*results[1].1, Component::Player("Hannah"));
}

#[test]
fn insert_then_component_mut_returns_value() {
    // A component inserted for an entity reads back unchanged, regardless of
    // unrelated inserts on other entities and tags in between.
    let mut world: World<Component> = World::new();
    let a = world.spawn();
    let b = world.spawn();
    world.insert(a.id(), PLAYER, Component::Player("Mike"));
    world.insert(b.id(), PLAYER, Component::Player("Hannah"));
    world.insert(b.id(), AGE, Component::Age(18));
    world.insert(a.id(), ABILITIES, Component::Shoot);
    assert_eq!(
        world.component_mut(a.id(), PLAYER),
        Some(&mut Component::Player("Mike"))
    );
    assert_eq!(
        world.component_mut(b.id(), PLAYER),
        Some(&mut Component::Player("Hannah"))
    );
    assert_eq!(world.component_mut(b.id(), AGE), Some(&mut Component::Age(18)));
}

#[test]
fn reinsert_overwrites_component() {
    // insert(e, t, v1); insert(e, t, v2) leaves v2 visible.
    let mut world: World<Component> = World::new();
    let a = world.spawn();
    world.insert(a.id(), PLAYER, Component::Player("Mike"));
    world.insert(a.id(), PLAYER, Component::Player("Hannah"));
    assert_eq!(
        world.component_mut(a.id(), PLAYER),
        Some(&mut Component::Player("Hannah"))
    );
}

#[test]
fn component_mut_missing_paths() {
    let mut world: World<Component> = World::new();
    let a = world.spawn();
    world.insert(a.id(), PLAYER, Component::Player("Mike"));
    // No handle for the tag.
    assert_eq!(world.component_mut(a.id(), AGE), None);
    // No such entity.
    assert_eq!(world.component_mut(17, PLAYER), None);
}

#[test]
fn component_mut_writes_through() {
    let mut world: World<Component> = World::new();
    let a = world.spawn();
    world.insert(a.id(), AGE, Component::Age(15));
    let age = world.component_mut(a.id(), AGE).unwrap();
    *age = Component::Age(16);
    assert_eq!(world.component_mut(a.id(), AGE), Some(&mut Component::Age(16)));
}

#[test]
fn spawned_entities_get_consecutive_keys() {
    let mut world: World<Component> = World::new();
    let a = world.spawn();
    let b = world.spawn();
    let c = world.spawn();
    assert_eq!(a.id(), 0);
    assert_eq!(b.id(), 1);
    assert_eq!(c.id(), 2);
}

#[test]
fn default_world_is_empty() {
    let mut world: World<Component> = Default::default();
    assert_eq!(world.component_mut(0, PLAYER), None);
    let q = world.query();
    assert!(q.get(PLAYER).is_none());
}

#[test]
fn insert_returns_fresh_slot_keys() {
    let mut world: World<Component> = World::new();
    let a = world.spawn();
    let b = world.spawn();
    let k1 = world.insert(a.id(), PLAYER, Component::Player("Mike"));
    let k2 = world.insert(b.id(), PLAYER, Component::Player("Hannah"));
    assert_ne!(k1, k2);
    assert_eq!(k1, 0);
    assert_eq!(k2, 1);
}
