use moonshine_spawn::builder::{spawn_children, WithChildren};
use moonshine_spawn::bundle::Bundle;
use moonshine_spawn::engine::{force_spawn_children, invoke_spawn_children};
use moonshine_spawn::error::SpawnError;
use moonshine_spawn::key::SpawnKey;
use moonshine_spawn::registry::Spawnables;
use moonshine_spawn::spawn::{CommandBuffer, SpawnCommands, SpawnWorld};
use moonshine_spawn::store::{EntityId, EntityStore};

const A: u64 = 10;
const B: u64 = 20;
const C: u64 = 30;
const Z: u64 = 99;

fn sorted(mut components: Vec<u64>) -> Vec<u64> {
    components.sort();
    components
}

fn registry_with(name: &str, bundle: Bundle) -> Spawnables {
    let mut registry = Spawnables::new();
    registry.register(SpawnKey::from(name), bundle).unwrap();
    registry
}

#[test]
fn new_store_is_empty() {
    let world = EntityStore::new();
    assert_eq!(world.len(), 0);
    assert!(!world.should_spawn_children());
    assert!(world.pending().is_empty());
    assert!(world.components(EntityId(0)).is_none());
    assert!(world.children(EntityId(0)).is_none());
    assert!(world.parent(EntityId(0)).is_none());
    assert!(!world.contains(EntityId(0), A));
    assert!(!world.has_ledger(EntityId(0)));
}

#[test]
fn inline_bundle_round_trip() {
    let registry = Spawnables::new();
    let mut world = EntityStore::new();
    let entity = world.spawn_once_with(&registry, Bundle::new(vec![A])).unwrap();
    assert_eq!(entity, EntityId(0));
    assert_eq!(world.len(), 1);
    assert_eq!(sorted(world.components(entity).unwrap()), vec![A]);
    assert!(world.children(entity).unwrap().is_empty());
    assert!(world.parent(entity).is_none());
    assert!(!world.has_ledger(entity));
}

#[test]
fn bundle_components_are_held_once() {
    let registry = Spawnables::new();
    let mut world = EntityStore::new();
    let entity = world.spawn_once_with(&registry, Bundle::new(vec![A, B, A, A, B])).unwrap();
    assert_eq!(sorted(world.components(entity).unwrap()), vec![A, B]);
}

#[test]
fn empty_bundle_gives_an_empty_entity() {
    let registry = Spawnables::new();
    let mut world = EntityStore::new();
    let entity = world.spawn_once_with(&registry, Bundle::new(Vec::new())).unwrap();
    assert!(world.components(entity).unwrap().is_empty());
}

#[test]
fn handles_count_up() {
    let registry = Spawnables::new();
    let mut world = EntityStore::new();
    for expected in 0..5 {
        let entity = world.spawn_once_with(&registry, Bundle::new(vec![A])).unwrap();
        assert_eq!(entity, EntityId(expected));
    }
    assert_eq!(world.len(), 5);
}

#[test]
fn repeatable_spawn_leaves_the_constructor() {
    let registry = Spawnables::new();
    let mut world = EntityStore::new();
    let prototype = Bundle::new(vec![A, B]);
    let first = world.spawn_with(&registry, &prototype).unwrap();
    let second = world.spawn_with(&registry, &prototype).unwrap();
    assert_ne!(first, second);
    assert_eq!(sorted(world.components(first).unwrap()), vec![A, B]);
    assert_eq!(sorted(world.components(second).unwrap()), vec![A, B]);
    assert_eq!(sorted(prototype.components), vec![A, B]);
}

#[test]
fn key_indirection_is_repeatable() {
    let registry = registry_with("K", Bundle::new(vec![A]));
    let mut world = EntityStore::new();
    let first = world.spawn_key(&registry, SpawnKey::from("K")).unwrap();
    let second = world.spawn_key(&registry, SpawnKey::from("K")).unwrap();
    assert_eq!(first, EntityId(0));
    assert_eq!(second, EntityId(1));
    assert_eq!(sorted(world.components(first).unwrap()), vec![A]);
    assert_eq!(sorted(world.components(second).unwrap()), vec![A]);
}

#[test]
fn key_with_extra_bundle_merges_both() {
    let registry = registry_with("K", Bundle::new(vec![A]));
    let mut world = EntityStore::new();
    let entity = world.spawn_key_with(&registry, SpawnKey::from("K"), Bundle::new(vec![Z])).unwrap();
    assert_eq!(sorted(world.components(entity).unwrap()), vec![A, Z]);
}

#[test]
fn key_with_extra_bundle_keeps_shared_components_once() {
    let registry = registry_with("K", Bundle::new(vec![A, B]));
    let mut world = EntityStore::new();
    let entity =
        world.spawn_key_with(&registry, SpawnKey::from("K"), Bundle::new(vec![B, Z])).unwrap();
    assert_eq!(sorted(world.components(entity).unwrap()), vec![A, B, Z]);
}

#[test]
fn unknown_key_creates_no_entity() {
    let registry = registry_with("K", Bundle::new(vec![A]));
    let mut world = EntityStore::new();
    world.spawn_once_with(&registry, Bundle::new(vec![B])).unwrap();
    match world.spawn_key(&registry, SpawnKey::from("missing")) {
        Err(SpawnError::InvalidKey(key)) => assert_eq!(key.name(), "missing"),
        other => panic!("expected an invalid key, got {:?}", other),
    }
    assert_eq!(world.len(), 1);
    assert_eq!(sorted(world.components(EntityId(0)).unwrap()), vec![B]);
}

#[test]
fn unknown_key_with_extra_bundle_creates_no_entity() {
    let registry = Spawnables::new();
    let mut world = EntityStore::new();
    let refused = world.spawn_key_with(&registry, SpawnKey::from("K"), Bundle::new(vec![Z]));
    assert!(matches!(refused, Err(SpawnError::InvalidKey(_))));
    assert_eq!(world.len(), 0);
}

#[test]
fn recursive_children() {
    let registry = Spawnables::new();
    let mut world = EntityStore::new();
    let root = world
        .spawn_once_with(
            &registry,
            Bundle::new(vec![A]).with_children(|root| {
                root.spawn(Bundle::new(vec![B]).with_children(|child| {
                    child.spawn(Bundle::new(vec![C]));
                }));
            }),
        )
        .unwrap();
    assert_eq!(world.len(), 3);
    assert_eq!(sorted(world.components(root).unwrap()), vec![A]);
    let children = world.children(root).unwrap();
    assert_eq!(children, vec![EntityId(1)]);
    assert_eq!(sorted(world.components(children[0]).unwrap()), vec![B]);
    assert_eq!(world.parent(children[0]), Some(root));
    let grandchildren = world.children(children[0]).unwrap();
    assert_eq!(grandchildren, vec![EntityId(2)]);
    assert_eq!(sorted(world.components(grandchildren[0]).unwrap()), vec![C]);
    assert_eq!(world.parent(grandchildren[0]), Some(children[0]));
    assert!(world.children(grandchildren[0]).unwrap().is_empty());
    for index in 0..3 {
        assert!(!world.has_ledger(EntityId(index)));
    }
    assert!(!world.should_spawn_children());
}

#[test]
fn by_key_children() {
    let registry = registry_with("K", Bundle::new(vec![A]));
    let mut world = EntityStore::new();
    let root = world
        .spawn_once_with(
            &registry,
            Bundle::new(vec![B]).with_children(|root| {
                root.spawn_key(SpawnKey::from("K"))
                    .spawn_key_with(SpawnKey::from("K"), Bundle::new(vec![Z]));
            }),
        )
        .unwrap();
    let children = world.children(root).unwrap();
    assert_eq!(children, vec![EntityId(1), EntityId(2)]);
    assert_eq!(sorted(world.components(children[0]).unwrap()), vec![A]);
    assert_eq!(sorted(world.components(children[1]).unwrap()), vec![A, Z]);
}

#[test]
fn siblings_keep_request_order() {
    let registry = Spawnables::new();
    let mut world = EntityStore::new();
    let root = world
        .spawn_once_with(
            &registry,
            Bundle::new(vec![A]).with_children(|root| {
                root.spawn(Bundle::new(vec![1])).spawn(Bundle::new(vec![2])).spawn(Bundle::new(vec![3]));
            }),
        )
        .unwrap();
    let children = world.children(root).unwrap();
    assert_eq!(children, vec![EntityId(1), EntityId(2), EntityId(3)]);
    for (position, child) in children.iter().enumerate() {
        assert_eq!(sorted(world.components(*child).unwrap()), vec![position as u64 + 1]);
        assert_eq!(world.parent(*child), Some(root));
    }
}

#[test]
fn generations_are_breadth_first() {
    let registry = Spawnables::new();
    let mut world = EntityStore::new();
    let branch = |tag: u64| {
        Bundle::new(vec![tag]).with_children(move |branch| {
            branch.spawn(Bundle::new(vec![tag + 1])).spawn(Bundle::new(vec![tag + 2]));
        })
    };
    let left = branch(100);
    let right = branch(200);
    let root = world
        .spawn_once_with(
            &registry,
            Bundle::new(vec![A]).with_children(move |root| {
                root.spawn(left).spawn(right);
            }),
        )
        .unwrap();
    assert_eq!(world.len(), 7);
    assert_eq!(world.children(root).unwrap(), vec![EntityId(1), EntityId(2)]);
    assert_eq!(world.children(EntityId(1)).unwrap(), vec![EntityId(3), EntityId(4)]);
    assert_eq!(world.children(EntityId(2)).unwrap(), vec![EntityId(5), EntityId(6)]);
    let tags: Vec<u64> =
        (0..7).map(|index| world.components(EntityId(index)).unwrap()[0]).collect();
    assert_eq!(tags, vec![A, 100, 200, 101, 102, 201, 202]);
}

#[test]
fn registered_prototype_brings_its_own_children() {
    let prototype = Bundle::new(vec![A]).with_children(|prototype| {
        prototype.spawn(Bundle::new(vec![B]));
    });
    let registry = registry_with("K", prototype);
    let mut world = EntityStore::new();
    let first = world.spawn_key(&registry, SpawnKey::from("K")).unwrap();
    let second = world.spawn_key(&registry, SpawnKey::from("K")).unwrap();
    assert_eq!(world.len(), 4);
    assert_eq!(world.children(first).unwrap(), vec![EntityId(1)]);
    assert_eq!(second, EntityId(2));
    assert_eq!(world.children(second).unwrap(), vec![EntityId(3)]);
    assert_eq!(sorted(world.components(EntityId(3)).unwrap()), vec![B]);
}

#[test]
fn extra_bundle_ledger_replaces_the_prototype_ledger() {
    let prototype = Bundle::new(vec![A]).with_children(|prototype| {
        prototype.spawn(Bundle::new(vec![B]));
    });
    let registry = registry_with("K", prototype);
    let mut world = EntityStore::new();
    let extra = Bundle::new(vec![Z]).with_children(|extra| {
        extra.spawn(Bundle::new(vec![C])).spawn(Bundle::new(vec![C]));
    });
    let entity = world.spawn_key_with(&registry, SpawnKey::from("K"), extra).unwrap();
    let children = world.children(entity).unwrap();
    assert_eq!(children.len(), 2);
    assert_eq!(sorted(world.components(children[0]).unwrap()), vec![C]);
    assert_eq!(sorted(world.components(children[1]).unwrap()), vec![C]);
}

#[test]
fn empty_ledger_is_drained_without_children() {
    let registry = Spawnables::new();
    let mut world = EntityStore::new();
    let entity = world
        .spawn_once_with(&registry, Bundle::new(vec![A]).with_children(|_| {}))
        .unwrap();
    assert_eq!(world.len(), 1);
    assert!(world.children(entity).unwrap().is_empty());
    assert!(!world.has_ledger(entity));
}

#[test]
fn spawn_children_builds_the_ledger_in_order() {
    let ledger = spawn_children(|parent| {
        parent.spawn(Bundle::new(vec![A]));
        parent.spawn_key(SpawnKey::from("K"));
        parent.spawn_key_with(SpawnKey::from("K"), Bundle::new(vec![Z]));
    });
    assert_eq!(ledger.len(), 3);
    let registry = registry_with("K", Bundle::new(vec![B]));
    let mut world = EntityStore::new();
    let root = world
        .spawn_once_with(&registry, Bundle { components: vec![C], children: Some(ledger) })
        .unwrap();
    let children = world.children(root).unwrap();
    assert_eq!(sorted(world.components(children[0]).unwrap()), vec![A]);
    assert_eq!(sorted(world.components(children[1]).unwrap()), vec![B]);
    assert_eq!(sorted(world.components(children[2]).unwrap()), vec![B, Z]);
}

#[test]
fn unknown_key_in_a_ledger_changes_nothing() {
    let registry = Spawnables::new();
    let mut world = EntityStore::new();
    world.spawn_once_with(&registry, Bundle::new(vec![A])).unwrap();
    let refused = world.spawn_once_with(
        &registry,
        Bundle::new(vec![B]).with_children(|root| {
            root.spawn(Bundle::new(vec![C])).spawn_key(SpawnKey::from("missing"));
        }),
    );
    match refused {
        Err(SpawnError::InvalidKey(key)) => assert_eq!(key.name(), "missing"),
        other => panic!("expected an invalid key, got {:?}", other),
    }
    assert_eq!(world.len(), 1);
    assert_eq!(sorted(world.components(EntityId(0)).unwrap()), vec![A]);
    assert!(world.children(EntityId(0)).unwrap().is_empty());
}

#[test]
fn deferred_entity_is_empty_until_applied() {
    let registry = Spawnables::new();
    let mut world = EntityStore::new();
    let mut commands = CommandBuffer::new();
    let entity = commands.spawn_once_with(&mut world, Bundle::new(vec![A])).unwrap();
    assert_eq!(entity, EntityId(0));
    assert_eq!(world.len(), 1);
    assert_eq!(commands.len(), 1);
    assert!(world.components(entity).unwrap().is_empty());
    commands.apply(&mut world, &registry).unwrap();
    assert_eq!(commands.len(), 0);
    assert_eq!(sorted(world.components(entity).unwrap()), vec![A]);
}

#[test]
fn deferred_children_wait_for_the_driver() {
    let registry = Spawnables::new();
    let mut world = EntityStore::new();
    let mut commands = CommandBuffer::new();
    let entity = commands
        .spawn_once_with(
            &mut world,
            Bundle::new(vec![A]).with_children(|root| {
                root.spawn(Bundle::new(vec![B]));
            }),
        )
        .unwrap();
    commands.apply(&mut world, &registry).unwrap();
    assert!(world.has_ledger(entity));
    assert!(world.should_spawn_children());
    assert_eq!(world.pending(), vec![entity]);
    assert!(world.children(entity).unwrap().is_empty());
    force_spawn_children(&mut world, &registry).unwrap();
    assert!(!world.has_ledger(entity));
    assert_eq!(world.children(entity).unwrap(), vec![EntityId(1)]);
}

#[test]
fn deferred_commands_apply_in_order() {
    let registry = registry_with("K", Bundle::new(vec![A]));
    let mut world = EntityStore::new();
    let mut commands = CommandBuffer::new();
    let first = commands.spawn_with(&mut world, &Bundle::new(vec![B])).unwrap();
    let second = commands.spawn_key(&mut world, SpawnKey::from("K")).unwrap();
    let third =
        commands.spawn_key_with(&mut world, SpawnKey::from("K"), Bundle::new(vec![Z])).unwrap();
    assert_eq!((first, second, third), (EntityId(0), EntityId(1), EntityId(2)));
    commands.apply(&mut world, &registry).unwrap();
    assert_eq!(sorted(world.components(first).unwrap()), vec![B]);
    assert_eq!(sorted(world.components(second).unwrap()), vec![A]);
    assert_eq!(sorted(world.components(third).unwrap()), vec![A, Z]);
}

#[test]
fn deferred_equals_immediate() {
    let prototype = Bundle::new(vec![A]).with_children(|prototype| {
        prototype.spawn(Bundle::new(vec![B]).with_children(|child| {
            child.spawn_key(SpawnKey::from("leaf"));
        }));
    });
    let mut registry = registry_with("K", prototype);
    registry.register(SpawnKey::from("leaf"), Bundle::new(vec![C])).unwrap();

    let mut immediate = EntityStore::new();
    let now = immediate.spawn_key_with(&registry, SpawnKey::from("K"), Bundle::new(vec![Z])).unwrap();

    let mut deferred = EntityStore::new();
    let mut commands = CommandBuffer::new();
    let later = commands
        .spawn_key_with(&mut deferred, SpawnKey::from("K"), Bundle::new(vec![Z]))
        .unwrap();
    commands.apply(&mut deferred, &registry).unwrap();
    force_spawn_children(&mut deferred, &registry).unwrap();

    assert_eq!(now, later);
    assert_eq!(immediate.len(), deferred.len());
    for index in 0..immediate.len() {
        let entity = EntityId(index);
        assert_eq!(
            immediate.components(entity).map(sorted),
            deferred.components(entity).map(sorted)
        );
        assert_eq!(immediate.children(entity), deferred.children(entity));
        assert_eq!(immediate.parent(entity), deferred.parent(entity));
        assert_eq!(immediate.has_ledger(entity), deferred.has_ledger(entity));
    }
    assert_eq!(immediate.len(), 3);
}

#[test]
fn deferred_unknown_key_leaves_an_empty_placeholder() {
    let registry = Spawnables::new();
    let mut world = EntityStore::new();
    let mut commands = CommandBuffer::new();
    let entity = commands.spawn_key(&mut world, SpawnKey::from("missing")).unwrap();
    match commands.apply(&mut world, &registry) {
        Err(SpawnError::InvalidKey(key)) => assert_eq!(key.name(), "missing"),
        other => panic!("expected an invalid key, got {:?}", other),
    }
    assert_eq!(world.len(), 1);
    assert!(world.components(entity).unwrap().is_empty());
    assert_eq!(commands.len(), 1);
}

#[test]
fn failed_apply_changes_nothing() {
    let registry = Spawnables::new();
    let mut world = EntityStore::new();
    let mut commands = CommandBuffer::new();
    let first = commands.spawn_once_with(&mut world, Bundle::new(vec![A])).unwrap();
    commands.spawn_key(&mut world, SpawnKey::from("missing")).unwrap();
    assert!(commands.apply(&mut world, &registry).is_err());
    assert!(world.components(first).unwrap().is_empty());
    assert_eq!(commands.len(), 2);
}

#[test]
fn commands_for_another_store_are_refused() {
    let registry = Spawnables::new();
    let mut world = EntityStore::new();
    let mut commands = CommandBuffer::new();
    commands.spawn_once_with(&mut world, Bundle::new(vec![A])).unwrap();
    let mut other = EntityStore::new();
    match commands.apply(&mut other, &registry) {
        Err(SpawnError::MissingEntity(entity)) => assert_eq!(entity, EntityId(0)),
        found => panic!("expected a missing entity, got {:?}", found),
    }
    assert_eq!(other.len(), 0);
    assert_eq!(commands.len(), 1);
}

#[test]
fn draining_is_idempotent() {
    let registry = Spawnables::new();
    let mut world = EntityStore::new();
    let mut commands = CommandBuffer::new();
    commands
        .spawn_once_with(
            &mut world,
            Bundle::new(vec![A]).with_children(|root| {
                root.spawn(Bundle::new(vec![B]));
            }),
        )
        .unwrap();
    commands.apply(&mut world, &registry).unwrap();
    force_spawn_children(&mut world, &registry).unwrap();
    assert!(!world.should_spawn_children());
    let len = world.len();
    force_spawn_children(&mut world, &registry).unwrap();
    invoke_spawn_children(&mut world, &registry).unwrap();
    assert_eq!(world.len(), len);
    assert_eq!(world.children(EntityId(0)).unwrap(), vec![EntityId(1)]);
    assert!(!world.should_spawn_children());
}

#[test]
fn immediate_spawn_drains_what_was_pending() {
    let registry = Spawnables::new();
    let mut world = EntityStore::new();
    let mut commands = CommandBuffer::new();
    let waiting = commands
        .spawn_once_with(
            &mut world,
            Bundle::new(vec![A]).with_children(|root| {
                root.spawn(Bundle::new(vec![B]));
            }),
        )
        .unwrap();
    commands.apply(&mut world, &registry).unwrap();
    let entity = world.spawn_once_with(&registry, Bundle::new(vec![C])).unwrap();
    assert_eq!(entity, EntityId(1));
    assert_eq!(world.children(waiting).unwrap(), vec![EntityId(2)]);
    assert_eq!(sorted(world.components(EntityId(2)).unwrap()), vec![B]);
    assert!(!world.should_spawn_children());
}

#[test]
fn pending_lists_ledger_owners_in_creation_order() {
    let registry = Spawnables::new();
    let mut world = EntityStore::new();
    let mut commands = CommandBuffer::new();
    let with_ledger = || {
        Bundle::new(vec![A]).with_children(|root| {
            root.spawn(Bundle::new(vec![B]));
        })
    };
    let first = commands.spawn_once_with(&mut world, with_ledger()).unwrap();
    commands.spawn_once_with(&mut world, Bundle::new(vec![C])).unwrap();
    let third = commands.spawn_once_with(&mut world, with_ledger()).unwrap();
    commands.apply(&mut world, &registry).unwrap();
    assert_eq!(world.pending(), vec![first, third]);
    invoke_spawn_children(&mut world, &registry).unwrap();
    assert_eq!(world.children(first).unwrap(), vec![EntityId(3)]);
    assert_eq!(world.children(third).unwrap(), vec![EntityId(4)]);
    assert!(world.pending().is_empty());
}

#[test]
fn failed_pass_puts_the_ledgers_back() {
    let mut registry = Spawnables::new();
    let mut world = EntityStore::new();
    let mut commands = CommandBuffer::new();
    let plain = world.spawn_once_with(&registry, Bundle::new(vec![C])).unwrap();
    let first = commands
        .spawn_once_with(
            &mut world,
            Bundle::new(vec![A]).with_children(|root| {
                root.spawn(Bundle::new(vec![B]).with_children(|child| {
                    child.spawn(Bundle::new(vec![C]));
                }));
            }),
        )
        .unwrap();
    let second = commands
        .spawn_once_with(
            &mut world,
            Bundle::new(vec![A]).with_children(|root| {
                root.spawn(Bundle::new(vec![B])).spawn_key(SpawnKey::from("late"));
            }),
        )
        .unwrap();
    commands.apply(&mut world, &registry).unwrap();
    assert_eq!(world.len(), 3);

    match force_spawn_children(&mut world, &registry) {
        Err(SpawnError::InvalidKey(key)) => assert_eq!(key.name(), "late"),
        other => panic!("expected an invalid key, got {:?}", other),
    }
    assert_eq!(world.len(), 3);
    assert_eq!(world.pending(), vec![first, second]);
    for entity in [plain, first, second] {
        assert!(world.children(entity).unwrap().is_empty());
        assert!(world.parent(entity).is_none());
    }
    assert_eq!(sorted(world.components(plain).unwrap()), vec![C]);
    assert_eq!(sorted(world.components(first).unwrap()), vec![A]);

    registry.register(SpawnKey::from("late"), Bundle::new(vec![Z])).unwrap();
    force_spawn_children(&mut world, &registry).unwrap();
    assert_eq!(world.len(), 7);
    assert_eq!(world.children(first).unwrap(), vec![EntityId(3)]);
    assert_eq!(world.children(second).unwrap(), vec![EntityId(4), EntityId(5)]);
    assert_eq!(world.children(EntityId(3)).unwrap(), vec![EntityId(6)]);
    assert_eq!(sorted(world.components(EntityId(5)).unwrap()), vec![Z]);
    assert_eq!(sorted(world.components(EntityId(6)).unwrap()), vec![C]);
    assert!(world.pending().is_empty());
}

#[test]
fn failed_immediate_spawn_keeps_what_was_pending() {
    let registry = Spawnables::new();
    let mut world = EntityStore::new();
    let mut commands = CommandBuffer::new();
    let waiting = commands
        .spawn_once_with(
            &mut world,
            Bundle::new(vec![A]).with_children(|root| {
                root.spawn(Bundle::new(vec![B]));
            }),
        )
        .unwrap();
    commands.apply(&mut world, &registry).unwrap();
    let refused = world.spawn_once_with(
        &registry,
        Bundle::new(vec![C]).with_children(|root| {
            root.spawn_key(SpawnKey::from("missing"));
        }),
    );
    assert!(matches!(refused, Err(SpawnError::InvalidKey(_))));
    assert_eq!(world.len(), 1);
    assert!(world.has_ledger(waiting));
    assert!(world.children(waiting).unwrap().is_empty());
    force_spawn_children(&mut world, &registry).unwrap();
    assert_eq!(world.children(waiting).unwrap(), vec![EntityId(1)]);
}

#[test]
fn failed_apply_restores_earlier_commands() {
    let registry = registry_with("K", Bundle::new(vec![A]));
    let mut world = EntityStore::new();
    let mut commands = CommandBuffer::new();
    let first = commands.spawn_key(&mut world, SpawnKey::from("K")).unwrap();
    let second = commands
        .spawn_once_with(
            &mut world,
            Bundle::new(vec![B]).with_children(|root| {
                root.spawn(Bundle::new(vec![C]));
            }),
        )
        .unwrap();
    commands.spawn_key_with(&mut world, SpawnKey::from("missing"), Bundle::new(vec![Z])).unwrap();
    assert!(matches!(commands.apply(&mut world, &registry), Err(SpawnError::InvalidKey(_))));
    assert_eq!(world.len(), 3);
    assert_eq!(commands.len(), 3);
    assert!(world.components(first).unwrap().is_empty());
    assert!(world.components(second).unwrap().is_empty());
    assert!(!world.has_ledger(second));
    assert!(!world.should_spawn_children());
}

#[test]
fn duplicate_copies_deeply() {
    let original = Bundle::new(vec![A]).with_children(|root| {
        root.spawn(Bundle::new(vec![B]))
            .spawn_key(SpawnKey::from("K"))
            .spawn_key_with(SpawnKey::from("K"), Bundle::new(vec![Z]));
    });
    let copy = original.duplicate();
    drop(original);
    let registry = registry_with("K", Bundle::new(vec![C]));
    let mut world = EntityStore::new();
    let root = world.spawn_once_with(&registry, copy.clone()).unwrap();
    assert_eq!(world.children(root).unwrap().len(), 3);
    assert_eq!(sorted(world.components(EntityId(1)).unwrap()), vec![B]);
    assert_eq!(sorted(world.components(EntityId(2)).unwrap()), vec![C]);
    assert_eq!(sorted(world.components(EntityId(3)).unwrap()), vec![C, Z]);
    assert_eq!(copy.children.unwrap().len(), 3);
}

#[test]
fn store_duplicate_is_independent() {
    let registry = Spawnables::new();
    let mut world = EntityStore::new();
    world.spawn_once_with(&registry, Bundle::new(vec![A])).unwrap();
    let snapshot = world.duplicate();
    world.spawn_once_with(&registry, Bundle::new(vec![B])).unwrap();
    assert_eq!(snapshot.len(), 1);
    assert_eq!(world.len(), 2);
    assert_eq!(sorted(snapshot.components(EntityId(0)).unwrap()), vec![A]);
}
