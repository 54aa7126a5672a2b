use moonshine_spawn::builder::{spawn_children, WithChildren};
use moonshine_spawn::bundle::{Bundle, ChildRequest, SpawnChildren};
use moonshine_spawn::key::SpawnKey;

fn sorted(mut components: Vec<u64>) -> Vec<u64> {
    components.sort();
    components
}

#[test]
fn new_ledger_is_empty() {
    assert_eq!(SpawnChildren::new().len(), 0);
    assert_eq!(SpawnChildren::default().len(), 0);
    assert!(SpawnChildren::new().into_requests().is_empty());
}

#[test]
fn ledger_keeps_request_order() {
    let mut ledger = SpawnChildren::new();
    ledger.add_child(Bundle::new(vec![1]));
    ledger.add_child_with_key(SpawnKey::from("K"));
    ledger.push(ChildRequest::ByKeyWith(SpawnKey::from("L"), Bundle::new(vec![2])));
    assert_eq!(ledger.len(), 3);
    let requests = ledger.into_requests();
    assert_eq!(requests.len(), 3);
    match &requests[0] {
        ChildRequest::Inline(bundle) => assert_eq!(sorted(bundle.components.clone()), vec![1]),
        other => panic!("expected an inline request, got {:?}", other),
    }
    match &requests[1] {
        ChildRequest::ByKey(key) => assert_eq!(key.name(), "K"),
        other => panic!("expected a request by key, got {:?}", other),
    }
    match &requests[2] {
        ChildRequest::ByKeyWith(key, bundle) => {
            assert_eq!(key.name(), "L");
            assert_eq!(sorted(bundle.components.clone()), vec![2]);
        }
        other => panic!("expected a request by key with a bundle, got {:?}", other),
    }
}

#[test]
fn builder_chains_in_order() {
    let ledger = spawn_children(|parent| {
        parent
            .spawn_key(SpawnKey::from("first"))
            .spawn(Bundle::new(vec![7]))
            .spawn_key_with(SpawnKey::from("third"), Bundle::new(vec![8]));
    });
    let requests = ledger.into_requests();
    assert!(matches!(&requests[0], ChildRequest::ByKey(key) if key.name() == "first"));
    assert!(matches!(&requests[1], ChildRequest::Inline(_)));
    assert!(matches!(&requests[2], ChildRequest::ByKeyWith(key, _) if key.name() == "third"));
}

#[test]
fn with_children_keeps_the_components() {
    let bundle = Bundle::new(vec![3, 4]).with_children(|parent| {
        parent.spawn(Bundle::new(vec![5]));
    });
    assert_eq!(sorted(bundle.components.clone()), vec![3, 4]);
    assert_eq!(bundle.children.as_ref().unwrap().len(), 1);
}

#[test]
fn with_children_replaces_an_earlier_ledger() {
    let bundle = Bundle::new(vec![3])
        .with_children(|parent| {
            parent.spawn(Bundle::new(vec![5])).spawn(Bundle::new(vec![6]));
        })
        .with_children(|parent| {
            parent.spawn_key(SpawnKey::from("K"));
        });
    let requests = bundle.children.unwrap().into_requests();
    assert_eq!(requests.len(), 1);
    assert!(matches!(&requests[0], ChildRequest::ByKey(key) if key.name() == "K"));
}

#[test]
fn new_bundle_has_no_ledger() {
    let bundle = Bundle::new(vec![1, 2]);
    assert!(bundle.children.is_none());
    assert_eq!(sorted(bundle.components), vec![1, 2]);
}

#[test]
fn clones_are_deep_copies() {
    let original = Bundle::new(vec![1]).with_children(|parent| {
        parent.spawn(Bundle::new(vec![2]).with_children(|child| {
            child.spawn_key(SpawnKey::from("K"));
        }));
    });
    let copy = original.clone();
    drop(original);
    let requests = copy.children.unwrap().clone().into_requests();
    match requests[0].clone() {
        ChildRequest::Inline(middle) => {
            assert_eq!(sorted(middle.components), vec![2]);
            let inner = middle.children.unwrap().into_requests();
            assert!(matches!(&inner[0], ChildRequest::ByKey(key) if key.name() == "K"));
        }
        other => panic!("expected an inline request, got {:?}", other),
    }
}
