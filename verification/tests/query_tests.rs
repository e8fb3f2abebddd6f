use anvaya::EntityFrequency;
use anvaya::TypeTag;
use anvaya::World;

const PLAYER: TypeTag = 1;
const AGE: TypeTag = 2;
const CRICKETER: TypeTag = 3;
const FOOTBALLER: TypeTag = 4;

#[derive(Debug, PartialEq, Clone)]
enum Component {
    Player(&'static str),
    Age(u8),
    Cricketer,
    Footballer,
}

fn players_world() -> World<Component> {
    let mut world: World<Component> = World::new();
    let a = world.spawn();
    a.insert(&mut world, PLAYER, Component::Player("Mike"))
        .insert(&mut world, AGE, Component::Age(15))
        .insert(&mut world, CRICKETER, Component::Cricketer)
        .insert(&mut world, FOOTBALLER, Component::Footballer);
    let b = world.spawn();
    b.insert(&mut world, PLAYER, Component::Player("Rahul"))
        .insert(&mut world, AGE, Component::Age(18))
        .insert(&mut world, CRICKETER, Component::Cricketer)
        .insert(&mut world, FOOTBALLER, Component::Footballer);
    let c = world.spawn();
    c.insert(&mut world, PLAYER, Component::Player("Sam"))
        .insert(&mut world, AGE, Component::Age(22))
        .insert(&mut world, CRICKETER, Component::Cricketer);
    world
}

fn entity_keys(results: &[(usize, &Component)]) -> Vec<usize> {
    results.iter().map(|p| p.0).collect()
}

#[test]
fn and_clauses_are_order_independent() {
    // with A then B matches the same entities as with B then A: exactly
    // those holding both.
    let world = players_world();
    let mut q1 = world.query();
    q1.with(CRICKETER);
    q1.with(FOOTBALLER);
    let r1 = q1.get(PLAYER).unwrap();
    let mut q2 = world.query();
    q2.with(FOOTBALLER);
    q2.with(CRICKETER);
    let r2 = q2.get(PLAYER).unwrap();
    let mut k1 = entity_keys(&r1);
    let mut k2 = entity_keys(&r2);
    k1.sort();
    k2.sort();
    assert_eq!(k1, k2);
    assert_eq!(k1, vec![0, 1]);
}

#[test]
fn get_without_with_yields_nothing() {
    // A clause count of zero is not "match everything": it matches nothing.
    let world = players_world();
    let q = world.query();
    let results = q.get(PLAYER).unwrap();
    assert!(results.is_empty());
}

#[test]
fn get_on_missing_table_yields_none() {
    let world: World<Component> = World::new();
    let q = world.query();
    assert!(q.get(PLAYER).is_none());
}

#[test]
fn with_on_missing_table_is_a_no_op() {
    // A clause on a tag with no table contributes no matches and does not
    // count as a clause.
    let world = players_world();
    let mut q = world.query();
    q.with(99);
    q.with(CRICKETER);
    let results = q.get(PLAYER).unwrap();
    assert_eq!(entity_keys(&results), vec![0, 1, 2]);
}

#[test]
fn end_to_end_players_scenario() {
    let world = players_world();

    // Footballers of age at least sixteen: Rahul alone.
    let mut q1 = world.query();
    q1.with(FOOTBALLER);
    let adults: Vec<usize> = q1
        .get(AGE)
        .unwrap()
        .iter()
        .filter(|(_, c)| matches!(c, Component::Age(a) if *a >= 16))
        .map(|p| p.0)
        .collect();
    assert_eq!(adults, vec![1]);

    // Cricketers of age at least fifteen: all three.
    let mut q2 = world.query();
    q2.with(CRICKETER);
    let fifteen_up: Vec<usize> = q2
        .get(AGE)
        .unwrap()
        .iter()
        .filter(|(_, c)| matches!(c, Component::Age(a) if *a >= 15))
        .map(|p| p.0)
        .collect();
    assert_eq!(fifteen_up, vec![0, 1, 2]);
}

#[test]
fn repeated_clause_still_matches() {
    // Issuing the same clause twice narrows to the same set.
    let world = players_world();
    let mut q = world.query();
    q.with(FOOTBALLER);
    q.with(FOOTBALLER);
    let results = q.get(PLAYER).unwrap();
    assert_eq!(entity_keys(&results), vec![0, 1]);
}

#[test]
fn matched_entity_without_yield_tag_is_skipped() {
    // Sam is a cricketer but no footballer; a footballer query yields no
    // component for Sam even when resolving a tag Sam holds.
    let world = players_world();
    let mut q = world.query();
    q.with(FOOTBALLER);
    let results = q.get(CRICKETER).unwrap();
    assert_eq!(entity_keys(&results), vec![0, 1]);
}

#[test]
fn entity_frequency_counts_per_entity() {
    let mut freq = EntityFrequency::new();
    freq.add_entity(4);
    freq.add_entity(4);
    freq.add_entity(9);
    assert_eq!(freq.count(4), 2);
    assert_eq!(freq.count(9), 1);
    assert_eq!(freq.count(0), 0);
}
