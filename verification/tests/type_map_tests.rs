use anvaya::TypeMap;
use anvaya::TypeTag;

const PLAYER_TAG: TypeTag = 1;
const HP_TAG: TypeTag = 2;
const ABILITY_TAG: TypeTag = 3;
const UNUSED_TAG: TypeTag = 4;

#[derive(Debug, PartialEq)]
enum Registered {
    Player(String),
    Hp(u8),
    Melee,
    Shoot,
}

#[test]
fn type_map_custom_types_basic() {
    // Inserts...
    let mut type_map: TypeMap<Registered> = TypeMap::new();
    type_map.insert(PLAYER_TAG, Registered::Player("Mike".to_string()));
    type_map.insert(HP_TAG, Registered::Hp(100));
    type_map.insert(ABILITY_TAG, Registered::Melee);
    assert_eq!(type_map.len(), 3);

    // Has Query...
    assert!(type_map.has(PLAYER_TAG));
    assert!(type_map.has(HP_TAG));
    assert!(!type_map.has(UNUSED_TAG));

    // Getters...
    assert_eq!(
        type_map.get(PLAYER_TAG),
        Some(&Registered::Player("Mike".to_string()))
    );
    assert_eq!(type_map.get(HP_TAG), Some(&Registered::Hp(100)));
    assert_eq!(type_map.get(ABILITY_TAG), Some(&Registered::Melee));

    // Mutations...
    let player = type_map.get_mut(PLAYER_TAG).unwrap();
    *player = Registered::Player("Hannah".to_string());
    let hp = type_map.get_mut(HP_TAG).unwrap();
    *hp = Registered::Hp(50);
    let ability = type_map.get_mut(ABILITY_TAG).unwrap();
    *ability = Registered::Shoot;
    assert_eq!(
        type_map.get(PLAYER_TAG),
        Some(&Registered::Player("Hannah".to_string()))
    );
    assert_eq!(type_map.get(HP_TAG), Some(&Registered::Hp(50)));
    assert_eq!(type_map.get(ABILITY_TAG), Some(&Registered::Shoot));

    // Length
    assert_eq!(type_map.len(), 3);

    // Clear...
    type_map.clear();
    assert!(type_map.is_empty());
    assert_eq!(type_map.len(), 0);
}

#[test]
fn type_map_primitive_values() {
    let mut type_map: TypeMap<i32> = TypeMap::new();
    type_map.insert(PLAYER_TAG, 1);
    assert_eq!(type_map.get(PLAYER_TAG), Some(&1));
    assert_eq!(type_map.get(UNUSED_TAG), None);
    assert!(!type_map.is_empty());
}

#[test]
fn type_map_round_trip() {
    // Insert, look up, check presence; then clear and check absence.
    let mut type_map: TypeMap<u64> = TypeMap::new();
    type_map.insert(HP_TAG, 77);
    assert_eq!(type_map.get(HP_TAG), Some(&77));
    assert!(type_map.has(HP_TAG));
    type_map.clear();
    assert_eq!(type_map.len(), 0);
    assert!(!type_map.has(HP_TAG));
    assert!(type_map.is_empty());
}

#[test]
fn type_map_reinsert_replaces() {
    let mut type_map: TypeMap<u64> = TypeMap::new();
    type_map.insert(HP_TAG, 5);
    type_map.insert(HP_TAG, 9);
    assert_eq!(type_map.get(HP_TAG), Some(&9));
    assert_eq!(type_map.len(), 1);
}

#[test]
fn type_map_with_capacity_starts_empty() {
    let type_map: TypeMap<u64> = TypeMap::with_capacity(16);
    assert!(type_map.is_empty());
    assert_eq!(type_map.len(), 0);
    assert!(!type_map.has(PLAYER_TAG));
}

#[test]
fn type_map_get_mut_missing_tag() {
    let mut type_map: TypeMap<u64> = TypeMap::new();
    type_map.insert(PLAYER_TAG, 3);
    assert_eq!(type_map.get_mut(UNUSED_TAG), None);
    assert_eq!(type_map.get(PLAYER_TAG), Some(&3));
}

#[test]
fn type_map_get_mut_writes_through() {
    let mut type_map: TypeMap<u64> = TypeMap::new();
    type_map.insert(PLAYER_TAG, 3);
    let v = type_map.get_mut(PLAYER_TAG).unwrap();
    *v = 8;
    assert_eq!(type_map.get(PLAYER_TAG), Some(&8));
}
