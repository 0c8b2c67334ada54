use daedelecs::component::Component;
use daedelecs::entity::Entity;
use daedelecs::error::EcsError;
use daedelecs::system::{System, SystemData};
use daedelecs::world::World;
use std::collections::HashSet;
use std::fmt::Debug;

const NAME: u64 = 1;
const HEALTH: u64 = 2;
const STRENGTH: u64 = 3;
const WORLD_ENTITY: u64 = 4;
const EXAMPLE: u64 = 5;
const ANOTHER_EXAMPLE: u64 = 6;

#[derive(Debug, Clone, PartialEq)]
enum Comp {
    Name(String),
    Health(i32),
    Strength(i32),
    WorldEntity,
    Example(i32),
    AnotherExample(i32),
}

impl Component for Comp {
    fn type_key_spec(&self) -> u64 {
        self.type_key()
    }
    fn type_key(&self) -> u64 {
        match self {
            Comp::Name(_) => NAME,
            Comp::Health(_) => HEALTH,
            Comp::Strength(_) => STRENGTH,
            Comp::WorldEntity => WORLD_ENTITY,
            Comp::Example(_) => EXAMPLE,
            Comp::AnotherExample(_) => ANOTHER_EXAMPLE,
        }
    }
}

struct HealthData;
impl SystemData for HealthData {
    fn requires_key(key: u64) -> bool {
        Self::type_ids().contains(&key)
    }
    fn type_ids() -> Vec<u64> {
        vec![HEALTH]
    }
}

struct StrengthData;
impl SystemData for StrengthData {
    fn requires_key(key: u64) -> bool {
        Self::type_ids().contains(&key)
    }
    fn type_ids() -> Vec<u64> {
        vec![STRENGTH]
    }
}

struct NameData;
impl SystemData for NameData {
    fn requires_key(key: u64) -> bool {
        Self::type_ids().contains(&key)
    }
    fn type_ids() -> Vec<u64> {
        vec![NAME]
    }
}

struct WorldEntityData;
impl SystemData for WorldEntityData {
    fn requires_key(key: u64) -> bool {
        Self::type_ids().contains(&key)
    }
    fn type_ids() -> Vec<u64> {
        vec![WORLD_ENTITY]
    }
}

struct ExampleData;
impl SystemData for ExampleData {
    fn requires_key(key: u64) -> bool {
        Self::type_ids().contains(&key)
    }
    fn type_ids() -> Vec<u64> {
        vec![EXAMPLE]
    }
}

struct HealthAndStrengthData;
impl SystemData for HealthAndStrengthData {
    fn requires_key(key: u64) -> bool {
        Self::type_ids().contains(&key)
    }
    fn type_ids() -> Vec<u64> {
        vec![HEALTH, STRENGTH]
    }
}

struct AddHealthSystem;
impl<T> System<T, Comp> for AddHealthSystem {
    type Data = HealthData;
    fn system_key_spec() -> u64 {
        101
    }
    fn system_key() -> u64 {
        101
    }
    fn run(entity: &mut Entity<Comp>, _world: &mut World<T, Comp>) {
        match entity.get_mut_component(HEALTH).unwrap() {
            Comp::Health(h) => *h += 1,
            _ => panic!("health key holds another component"),
        }
    }
}

struct SapStrengthSystem;
impl<T> System<T, Comp> for SapStrengthSystem {
    type Data = StrengthData;
    fn system_key_spec() -> u64 {
        102
    }
    fn system_key() -> u64 {
        102
    }
    fn run(entity: &mut Entity<Comp>, _world: &mut World<T, Comp>) {
        match entity.get_mut_component(STRENGTH).unwrap() {
            Comp::Strength(s) => *s -= 1,
            _ => panic!("strength key holds another component"),
        }
    }
}

struct PrintSystem;
impl<T> System<T, Comp> for PrintSystem {
    type Data = NameData;
    fn system_key_spec() -> u64 {
        103
    }
    fn system_key() -> u64 {
        103
    }
    fn run(entity: &mut Entity<Comp>, _world: &mut World<T, Comp>) {
        let name = entity.get_component(NAME).unwrap();
        let mut line = format!("Entity[name={:?}", name);
        if let Some(health) = entity.get_component(HEALTH) {
            line = format!("{}, health={:?}", line, health);
        }
        if let Some(strength) = entity.get_component(STRENGTH) {
            line = format!("{}, strength={:?}", line, strength);
        }
        println!("{}]", line);
    }
}

struct PrintWorldSystem;
impl<T: Debug> System<T, Comp> for PrintWorldSystem {
    type Data = WorldEntityData;
    fn system_key_spec() -> u64 {
        104
    }
    fn system_key() -> u64 {
        104
    }
    fn run(_entity: &mut Entity<Comp>, world: &mut World<T, Comp>) {
        println!("{:?}", world.state);
        world.run_system::<PrintSystem>().unwrap();
    }
}

struct ExampleSystem;
impl System<(), Comp> for ExampleSystem {
    type Data = ExampleData;
    fn system_key_spec() -> u64 {
        105
    }
    fn system_key() -> u64 {
        105
    }
    fn run(entity: &mut Entity<Comp>, _world: &mut World<(), Comp>) {
        let foo = entity.get_component(EXAMPLE).unwrap();
        println!("{foo:?}");
    }
}

/// Runs the health system from inside its own run, and records whether the
/// nested run failed.
struct ReentrantSystem;
impl System<Vec<Result<Vec<usize>, EcsError>>, Comp> for ReentrantSystem {
    type Data = HealthData;
    fn system_key_spec() -> u64 {
        106
    }
    fn system_key() -> u64 {
        106
    }
    fn run(_entity: &mut Entity<Comp>, world: &mut World<Vec<Result<Vec<usize>, EcsError>>, Comp>) {
        let r = world.run_system::<AddHealthSystem>();
        world.state.push(r);
    }
}

/// Removes the entity it runs on.
struct SelfRemovingSystem;
impl<T> System<T, Comp> for SelfRemovingSystem {
    type Data = StrengthData;
    fn system_key_spec() -> u64 {
        107
    }
    fn system_key() -> u64 {
        107
    }
    fn run(entity: &mut Entity<Comp>, world: &mut World<T, Comp>) {
        world.remove_entity(entity);
    }
}

struct BothSystem;
impl<T> System<T, Comp> for BothSystem {
    type Data = HealthAndStrengthData;
    fn system_key_spec() -> u64 {
        108
    }
    fn system_key() -> u64 {
        108
    }
    fn run(_entity: &mut Entity<Comp>, _world: &mut World<T, Comp>) {}
}

/// Removes the entity named "bar".
struct RemoveBarSystem;
impl<T> System<T, Comp> for RemoveBarSystem {
    type Data = NameData;
    fn system_key_spec() -> u64 {
        109
    }
    fn system_key() -> u64 {
        109
    }
    fn run(entity: &mut Entity<Comp>, world: &mut World<T, Comp>) {
        if entity.get_component(NAME) == Some(&Comp::Name("bar".to_string())) {
            world.remove_entity(entity);
        }
    }
}

fn add(world: &mut World<(), Comp>, components: Vec<Comp>) -> usize {
    let mut b = Entity::builder();
    for c in components {
        b = b.with(c).ok().unwrap();
    }
    b.add_to_world(world)
}

fn component_of<T>(world: &World<T, Comp>, id: usize, key: u64) -> Option<Comp> {
    world.entity(id).unwrap().get_component(key).cloned()
}

#[test]
fn ecs_visual_test() {
    let mut world = World::new(());

    Entity::builder()
        .with(Comp::Name("foo".to_string())).ok().unwrap()
        .with(Comp::Health(5)).ok().unwrap()
        .add_to_world(&mut world);
    Entity::builder()
        .with(Comp::Name("bar".to_string())).ok().unwrap()
        .with(Comp::Health(10)).ok().unwrap()
        .with(Comp::Strength(1)).ok().unwrap()
        .add_to_world(&mut world);
    Entity::builder()
        .with(Comp::Name("qux".to_string())).ok().unwrap()
        .with(Comp::Strength(3)).ok().unwrap()
        .add_to_world(&mut world);
    Entity::builder()
        .with(Comp::WorldEntity).ok().unwrap()
        .add_to_world(&mut world);

    world.register_system::<AddHealthSystem>();
    world.register_system::<SapStrengthSystem>();

    assert!(!HashSet::from([HEALTH]).contains(&STRENGTH));

    let first = world.entity_ids()[0];
    assert!(world.entity_is_eligible::<AddHealthSystem>(world.entity(first).unwrap()).unwrap());
    assert!(!world.entity_is_eligible::<SapStrengthSystem>(world.entity(first).unwrap()).unwrap());

    world.run_system::<PrintSystem>().unwrap();
    println!();
    world.run_system::<AddHealthSystem>().unwrap();
    world.run_system::<PrintSystem>().unwrap();
    println!();
    world.run_system::<SapStrengthSystem>().unwrap();
    world.run_system::<PrintSystem>().unwrap();
    world.run_system::<PrintWorldSystem>().unwrap();
}

#[test]
fn entity_eligibility_test() {
    let mut world = World::new(());

    Entity::builder()
        .with(Comp::Health(5)).ok().unwrap()
        .add_to_world(&mut world);
    Entity::builder()
        .with(Comp::Health(10)).ok().unwrap()
        .with(Comp::Strength(1)).ok().unwrap()
        .add_to_world(&mut world);

    world.register_system::<SapStrengthSystem>();
    world.register_system::<AddHealthSystem>();

    assert!(!HashSet::from([HEALTH]).contains(&STRENGTH));
    assert!(HashSet::from([HEALTH]).contains(&HEALTH));

    assert_eq!(
        world.required_types::<AddHealthSystem>().unwrap().into_iter().collect::<HashSet<u64>>(),
        HashSet::from([HEALTH])
    );
    assert_eq!(
        world.required_types::<SapStrengthSystem>().unwrap().into_iter().collect::<HashSet<u64>>(),
        HashSet::from([STRENGTH])
    );

    assert_eq!(STRENGTH, STRENGTH);
    assert_eq!(HEALTH, HEALTH);
    assert_ne!(STRENGTH, HEALTH);

    let first = world.entity_ids()[0];
    assert_eq!(world.entity(first).unwrap().has_component(HEALTH), true);
    assert_eq!(world.entity(first).unwrap().has_component(STRENGTH), false);

    let entity = world.entity(first).unwrap();

    assert_eq!(entity.component_keys(), vec![HEALTH]);

    assert_eq!(world.entity_is_eligible::<AddHealthSystem>(world.entity(first).unwrap()).unwrap(), true);
    assert_eq!(world.entity_is_eligible::<SapStrengthSystem>(world.entity(first).unwrap()).unwrap(), false);
}

#[test]
fn sender_minimal_failing_test() {
    let mut world = World::new(());
    Entity::builder().with(Comp::Example(2)).ok().unwrap().add_to_world(&mut world);
    Entity::builder().add_to_world(&mut world);
    world.run_system::<ExampleSystem>().unwrap();
}

#[test]
fn test() {
    let mut world = World::new(());
    Entity::builder()
        .with(Comp::Example(0)).ok().unwrap()
        .add_to_world(&mut world);
    world.run_system::<ExampleSystem>().unwrap();
    assert!(world.is_registered::<ExampleSystem>());
    assert!(world.required_types::<ExampleSystem>().is_ok());
    assert!(world.system_entities::<ExampleSystem>().is_some());
}

fn two_entity_world() -> (World<(), Comp>, usize, usize) {
    let mut world = World::new(());
    let a = add(&mut world, vec![Comp::Name("foo".to_string()), Comp::Health(5)]);
    let b = add(&mut world, vec![Comp::Name("bar".to_string()), Comp::Health(10), Comp::Strength(1)]);
    (world, a, b)
}

#[test]
fn scenario_health_increment() {
    let (mut world, a, b) = two_entity_world();
    world.register_system::<AddHealthSystem>();
    let ran = world.run_system::<AddHealthSystem>().unwrap();
    assert_eq!(ran, vec![a, b]);
    assert_eq!(component_of(&world, a, HEALTH), Some(Comp::Health(6)));
    assert_eq!(component_of(&world, b, HEALTH), Some(Comp::Health(11)));
    assert_eq!(component_of(&world, b, STRENGTH), Some(Comp::Strength(1)));
    assert_eq!(component_of(&world, a, NAME), Some(Comp::Name("foo".to_string())));
    assert_eq!(component_of(&world, b, NAME), Some(Comp::Name("bar".to_string())));
    assert_eq!(component_of(&world, a, STRENGTH), None);
}

#[test]
fn scenario_strength_registered_late() {
    let (mut world, a, b) = two_entity_world();
    world.register_system::<AddHealthSystem>();
    world.run_system::<AddHealthSystem>().unwrap();
    world.register_system::<SapStrengthSystem>();
    assert_eq!(world.system_entities::<SapStrengthSystem>(), Some(vec![b]));
    let ran = world.run_system::<SapStrengthSystem>().unwrap();
    assert_eq!(ran, vec![b]);
    assert_eq!(component_of(&world, b, STRENGTH), Some(Comp::Strength(0)));
    assert_eq!(component_of(&world, a, HEALTH), Some(Comp::Health(6)));
}

#[test]
fn scenario_empty_entity_excluded() {
    let (mut world, a, b) = two_entity_world();
    let c = Entity::builder().add_to_world(&mut world);
    world.register_system::<AddHealthSystem>();
    let cache = world.system_entities::<AddHealthSystem>().unwrap();
    assert!(!cache.contains(&c));
    assert_eq!(cache, vec![a, b]);
    let ran = world.run_system::<AddHealthSystem>().unwrap();
    assert!(!ran.contains(&c));
    assert_eq!(world.entity(c).unwrap().component_keys(), Vec::<u64>::new());
}

#[test]
fn scenario_removed_entity_not_run() {
    let (mut world, a, b) = two_entity_world();
    world.register_system::<AddHealthSystem>();
    world.run_system::<AddHealthSystem>().unwrap();
    world.register_system::<SapStrengthSystem>();
    world.run_system::<SapStrengthSystem>().unwrap();
    assert_eq!(world.run_system::<RemoveBarSystem>().unwrap(), vec![a, b]);
    assert_eq!(world.entity_ids(), vec![a]);
    assert_eq!(world.system_entities::<SapStrengthSystem>(), Some(vec![]));
    assert_eq!(world.run_system::<SapStrengthSystem>().unwrap(), Vec::<usize>::new());
    assert!(world.entity(b).is_none());
}

#[test]
fn scenario_duplicate_component() {
    let b = Entity::<Comp>::builder().with(Comp::Health(1)).ok().unwrap();
    match b.with(Comp::Health(1)) {
        Ok(_) => panic!("a second health component was accepted"),
        Err((b, e)) => {
            assert_eq!(e, EcsError::DuplicateComponent);
            let mut world = World::new(());
            let id = b.add_to_world(&mut world);
            assert_eq!(world.entity(id).unwrap().component_keys(), vec![HEALTH]);
            assert_eq!(component_of(&world, id, HEALTH), Some(Comp::Health(1)));
        }
    }
}

#[test]
fn cache_tracks_admission_before_and_after_registration() {
    let mut world = World::new(());
    let a = add(&mut world, vec![Comp::Health(1), Comp::Strength(1)]);
    let _b = add(&mut world, vec![Comp::Health(1)]);
    world.register_system::<BothSystem>();
    let c = add(&mut world, vec![Comp::Strength(2), Comp::Health(2)]);
    let _d = add(&mut world, vec![Comp::Strength(2)]);
    assert_eq!(world.system_entities::<BothSystem>(), Some(vec![a, c]));
}

#[test]
fn register_twice_changes_nothing() {
    let (mut world, a, b) = two_entity_world();
    world.register_system::<SapStrengthSystem>();
    let required = world.required_types::<SapStrengthSystem>().unwrap();
    let cache = world.system_entities::<SapStrengthSystem>().unwrap();
    world.register_system::<SapStrengthSystem>();
    assert_eq!(world.required_types::<SapStrengthSystem>().unwrap(), required);
    assert_eq!(world.system_entities::<SapStrengthSystem>().unwrap(), cache);
    assert_eq!(cache, vec![b]);
    assert!(!cache.contains(&a));
}

#[test]
fn run_without_registration_registers_first() {
    let (mut w1, _, _) = two_entity_world();
    let (mut w2, _, _) = two_entity_world();
    assert!(!w1.is_registered::<AddHealthSystem>());
    let r1 = w1.run_system::<AddHealthSystem>().unwrap();
    w2.register_system::<AddHealthSystem>();
    let r2 = w2.run_system::<AddHealthSystem>().unwrap();
    assert_eq!(r1, r2);
    assert!(w1.is_registered::<AddHealthSystem>());
    assert_eq!(w1.system_entities::<AddHealthSystem>(), w2.system_entities::<AddHealthSystem>());
    assert_eq!(component_of(&w1, 1, HEALTH), component_of(&w2, 1, HEALTH));
}

#[test]
fn identifiers_increase_and_are_not_reused() {
    let mut world = World::new(());
    let a = add(&mut world, vec![Comp::Strength(1)]);
    let b = add(&mut world, vec![Comp::Strength(1)]);
    assert_eq!((a, b), (1, 2));
    world.run_system::<SelfRemovingSystem>().unwrap();
    assert!(world.entity_ids().is_empty());
    let c = add(&mut world, vec![Comp::Health(1)]);
    assert_eq!(c, 3);
    assert_eq!(world.entity(c).unwrap().identifier(), 3);
}

#[test]
fn removed_entity_not_in_later_registration() {
    let mut world = World::new(());
    let a = add(&mut world, vec![Comp::Strength(1), Comp::Health(1)]);
    world.run_system::<SelfRemovingSystem>().unwrap();
    world.register_system::<AddHealthSystem>();
    assert_eq!(world.system_entities::<AddHealthSystem>(), Some(vec![]));
    assert_eq!(world.run_system::<AddHealthSystem>().unwrap(), Vec::<usize>::new());
    assert!(world.entity(a).is_none());
}

#[test]
fn missing_registration_is_reported() {
    let (world, a, _) = two_entity_world();
    assert_eq!(world.required_types::<AddHealthSystem>(), Err(EcsError::MissingRegistration));
    assert_eq!(
        world.entity_is_eligible::<AddHealthSystem>(world.entity(a).unwrap()),
        Err(EcsError::MissingRegistration)
    );
    assert_eq!(world.system_entities::<AddHealthSystem>(), None);
    assert_eq!(World::<(), Comp>::get_required_types::<BothSystem>(), vec![HEALTH, STRENGTH]);
}

#[test]
fn nested_run_reaching_held_entity_conflicts() {
    let mut world: World<Vec<Result<Vec<usize>, EcsError>>, Comp> = World::new(Vec::new());
    let a = Entity::builder().with(Comp::Health(1)).ok().unwrap().add_to_world(&mut world);
    let ran = world.run_system::<ReentrantSystem>().unwrap();
    assert_eq!(ran, vec![a]);
    assert_eq!(world.state, vec![Err(EcsError::BorrowConflict)]);
    assert_eq!(component_of(&world, a, HEALTH), Some(Comp::Health(1)));
}

#[test]
fn component_access() {
    let mut e = Entity::<Comp>::builder();
    e = e.with(Comp::Name("n".to_string())).ok().unwrap();
    e = e.with(Comp::AnotherExample(4)).ok().unwrap();
    let mut world = World::new(());
    let id = e.add_to_world(&mut world);
    let ent = world.entity(id).unwrap();
    assert_eq!(ent.get_component(ANOTHER_EXAMPLE), Some(&Comp::AnotherExample(4)));
    assert_eq!(ent.get_component(HEALTH), None);
    assert!(ent.has_component(NAME));
    assert!(!ent.has_component(STRENGTH));
    assert_eq!(ent.component_keys(), vec![NAME, ANOTHER_EXAMPLE]);
    let mut built = Entity::<Comp>::builder().with(Comp::Example(7)).ok().unwrap();
    built = built.with(Comp::Strength(2)).ok().unwrap();
    let id2 = built.add_to_world(&mut world);
    assert_eq!(id2, id + 1);
    assert!(world.entity(id2).unwrap().get_component(HEALTH).is_none());
}

#[test]
fn entities_equal_by_identifier() {
    let mut world = World::new(());
    let a = add(&mut world, vec![Comp::Health(1)]);
    let b = add(&mut world, vec![Comp::Health(1)]);
    assert!(world.entity(a).unwrap() == world.entity(a).unwrap());
    assert!(world.entity(a).unwrap() != world.entity(b).unwrap());
}

#[test]
fn mutable_access_changes_one_component() {
    let mut world = World::new(());
    let a = add(&mut world, vec![Comp::Health(3), Comp::Strength(3)]);
    world.run_system::<SapStrengthSystem>().unwrap();
    assert_eq!(component_of(&world, a, STRENGTH), Some(Comp::Strength(2)));
    assert_eq!(component_of(&world, a, HEALTH), Some(Comp::Health(3)));
    assert_eq!(world.entity(a).unwrap().component_keys(), vec![HEALTH, STRENGTH]);
}

/// Resets health through the checked setter, and records whether a
/// strength component could be replaced too.
struct ResetHealthSystem;
impl System<Vec<bool>, Comp> for ResetHealthSystem {
    type Data = HealthData;
    fn system_key_spec() -> u64 {
        110
    }
    fn system_key() -> u64 {
        110
    }
    fn run(entity: &mut Entity<Comp>, world: &mut World<Vec<bool>, Comp>) {
        let prev = entity.replace_component(Comp::Health(42));
        assert!(matches!(prev, Ok(Comp::Health(_))));
        let strength = entity.replace_component(Comp::Strength(0));
        world.state.push(strength.is_ok());
    }
}

#[test]
fn replace_component_keeps_keys() {
    let mut world: World<Vec<bool>, Comp> = World::new(Vec::new());
    let a = Entity::builder().with(Comp::Health(1)).ok().unwrap().add_to_world(&mut world);
    let b = Entity::builder()
        .with(Comp::Strength(5)).ok().unwrap()
        .with(Comp::Health(2)).ok().unwrap()
        .add_to_world(&mut world);
    assert_eq!(world.run_system::<ResetHealthSystem>().unwrap(), vec![a, b]);
    assert_eq!(world.state, vec![false, true]);
    assert_eq!(world.entity(a).unwrap().get_component(HEALTH), Some(&Comp::Health(42)));
    assert_eq!(world.entity(a).unwrap().component_keys(), vec![HEALTH]);
    assert_eq!(world.entity(b).unwrap().get_component(STRENGTH), Some(&Comp::Strength(0)));
    assert_eq!(world.entity(b).unwrap().get_component(HEALTH), Some(&Comp::Health(42)));
}

#[test]
fn run_visits_cache_in_admission_order() {
    let mut world = World::new(());
    let a = add(&mut world, vec![Comp::Strength(1)]);
    let _b = add(&mut world, vec![Comp::Health(1)]);
    let c = add(&mut world, vec![Comp::Strength(1), Comp::Health(1)]);
    let d = add(&mut world, vec![Comp::Strength(1)]);
    assert_eq!(world.run_system::<SapStrengthSystem>().unwrap(), vec![a, c, d]);
    assert_eq!(world.system_entities::<SapStrengthSystem>(), Some(vec![a, c, d]));
    assert_eq!(world.entity_ids(), vec![1, 2, 3, 4]);
}
