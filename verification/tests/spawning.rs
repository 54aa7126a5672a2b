use moonshine_spawn::builder::WithChildren;
use moonshine_spawn::bundle::Bundle;
use moonshine_spawn::engine::force_spawn_children;
use moonshine_spawn::key::SpawnKey;
use moonshine_spawn::registry::Spawnables;
use moonshine_spawn::spawn::{CommandBuffer, SpawnCommands, SpawnWorld};
use moonshine_spawn::store::{EntityId, EntityStore};

const FOO: u64 = 1;
const BAR: u64 = 2;

fn foo() -> Bundle {
    Bundle::new(vec![FOO])
}

fn bar() -> Bundle {
    Bundle::new(vec![BAR])
}

fn first_child(world: &EntityStore, entity: EntityId) -> EntityId {
    let children = world.children(entity).unwrap();
    children.iter().copied().next().unwrap()
}

#[test]
fn spawn_bundle() {
    let registry = Spawnables::new();
    let mut world = EntityStore::new();
    let entity = world.spawn_once_with(&registry, foo()).unwrap();
    assert!(world.contains(entity, FOO));
}

#[test]
fn spawn_bundle_deferred() {
    let registry = Spawnables::new();
    let mut world = EntityStore::new();
    let mut commands = CommandBuffer::new();
    let entity = commands.spawn_once_with(&mut world, foo()).unwrap();
    commands.apply(&mut world, &registry).unwrap();
    force_spawn_children(&mut world, &registry).unwrap();
    assert!(world.contains(entity, FOO));
}

#[test]
fn spawn_with_key() {
    let mut registry = Spawnables::new();
    registry.register(SpawnKey::from("FOO"), foo()).unwrap();
    let mut world = EntityStore::new();
    let entity = world.spawn_key(&registry, SpawnKey::from("FOO")).unwrap();
    assert!(world.contains(entity, FOO));
}

#[test]
fn spawn_with_key_deferred() {
    let mut registry = Spawnables::new();
    registry.register(SpawnKey::from("FOO"), foo()).unwrap();
    let mut world = EntityStore::new();
    let mut commands = CommandBuffer::new();
    let entity = commands.spawn_key(&mut world, SpawnKey::from("FOO")).unwrap();
    commands.apply(&mut world, &registry).unwrap();
    force_spawn_children(&mut world, &registry).unwrap();
    assert!(world.contains(entity, FOO));
}

#[test]
fn spawn_bundle_with_children() {
    let registry = Spawnables::new();
    let mut world = EntityStore::new();
    let entity = world
        .spawn_once_with(
            &registry,
            foo().with_children(|foo| {
                foo.spawn(bar());
            }),
        )
        .unwrap();
    let child = first_child(&world, entity);
    assert!(world.contains(child, BAR));
}

#[test]
fn spawn_bundle_with_children_deferred() {
    let registry = Spawnables::new();
    let mut world = EntityStore::new();
    let mut commands = CommandBuffer::new();
    let entity = commands
        .spawn_once_with(
            &mut world,
            foo().with_children(|foo| {
                foo.spawn(bar());
            }),
        )
        .unwrap();
    commands.apply(&mut world, &registry).unwrap();
    force_spawn_children(&mut world, &registry).unwrap();
    let child = first_child(&world, entity);
    assert!(world.contains(child, BAR));
}

#[test]
fn spawn_bundle_with_children_with_key() {
    let mut registry = Spawnables::new();
    registry.register(SpawnKey::from("BAR"), bar()).unwrap();
    let mut world = EntityStore::new();
    let entity = world
        .spawn_once_with(
            &registry,
            foo().with_children(|foo| {
                foo.spawn_key(SpawnKey::from("BAR"));
            }),
        )
        .unwrap();
    let child = first_child(&world, entity);
    assert!(world.contains(child, BAR));
}

#[test]
fn spawn_bundle_with_children_with_key_deferred() {
    let mut registry = Spawnables::new();
    registry.register(SpawnKey::from("BAR"), bar()).unwrap();
    let mut world = EntityStore::new();
    let mut commands = CommandBuffer::new();
    let entity = commands
        .spawn_once_with(
            &mut world,
            foo().with_children(|foo| {
                foo.spawn_key(SpawnKey::from("BAR"));
            }),
        )
        .unwrap();
    commands.apply(&mut world, &registry).unwrap();
    force_spawn_children(&mut world, &registry).unwrap();
    let child = first_child(&world, entity);
    assert!(world.contains(child, BAR));
}
