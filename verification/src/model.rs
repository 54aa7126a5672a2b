//! The mathematical model that every contract of this crate is stated over.
//!
//! A store is a sequence of entities; an entity's handle is its position.
//! Entities are never removed, so a handle stays valid once it was issued.

use vstd::prelude::*;

verus! {

/// What one resolution installs on an entity: a set of components and,
/// optionally, a ledger of children to materialise later.
#[verifier::ext_equal]
pub struct BundleView {
    pub components: Set<u64>,
    pub children: Option<Seq<RequestView>>,
}

/// One deferred child-construction request.
#[verifier::ext_equal]
pub enum RequestView {
    /// An inline constructor, used up by the request.
    Inline(BundleView),
    /// A reference to a registered prototype.
    ByKey(Seq<char>),
    /// A reference to a registered prototype and a bundle merged in after it.
    ByKeyWith(Seq<char>, BundleView),
}

/// One entity of a store.
#[verifier::ext_equal]
pub struct EntityView {
    pub components: Set<u64>,
    /// The pending-children ledger, while it waits to be drained.
    pub ledger: Option<Seq<RequestView>>,
    pub parent: Option<nat>,
    pub children: Seq<nat>,
}

/// A store: the entity with handle `i` stands at position `i`.
pub type StoreView = Seq<EntityView>;

/// A registry: prototypes by the name of their key.
pub type RegistryView = Map<Seq<char>, BundleView>;

/// One unit of deferred work: the entity reserved for it and what to put there.
pub type CommandView = (nat, RequestView);

/// Why an operation was refused.
pub enum Fault {
    /// A prototype is already registered under this name.
    DuplicateKey(Seq<char>),
    /// No prototype is registered under this name.
    InvalidKey(Seq<char>),
    /// The store holds as many entities as a handle can address.
    StoreFull,
    /// A deferred command names an entity that the store does not hold.
    MissingEntity(nat),
}

/// The most entities that a store can hold.
pub open spec fn capacity() -> nat {
    usize::MAX as nat
}

/// Registering `bundle` under `name`: refused where the name is taken, and
/// otherwise one more entry.
pub open spec fn register(registry: RegistryView, name: Seq<char>, bundle: BundleView) -> Result<
    RegistryView,
    Fault,
> {
    if registry.dom().contains(name) {
        Err(Fault::DuplicateKey(name))
    } else {
        Ok(registry.insert(name, bundle))
    }
}

/// An entity as it is right after its creation.
pub open spec fn empty_entity() -> EntityView {
    EntityView { components: Set::empty(), ledger: None, parent: None, children: Seq::empty() }
}

/// The entity `e` after `bundle` was inserted: the components are merged, and
/// a ledger that the bundle carries replaces the one the entity had.
pub open spec fn receive(e: EntityView, bundle: BundleView) -> EntityView {
    EntityView {
        components: e.components.union(bundle.components),
        ledger: if bundle.children is Some {
            bundle.children
        } else {
            e.ledger
        },
        ..e
    }
}

/// The store after `bundle` was inserted on `entity`.
pub open spec fn install(s: StoreView, entity: int, bundle: BundleView) -> StoreView
    recommends
        0 <= entity < s.len(),
{
    s.update(entity, receive(s[entity], bundle))
}

/// The store after the ledger of `entity` was detached.
pub open spec fn detach(s: StoreView, entity: int) -> StoreView
    recommends
        0 <= entity < s.len(),
{
    s.update(entity, EntityView { ledger: None, ..s[entity] })
}

/// The store after `child` became the last child of `parent`.
pub open spec fn attach(s: StoreView, parent: int, child: int) -> StoreView
    recommends
        0 <= parent < s.len(),
        0 <= child < s.len(),
        parent != child,
{
    let linked = s.update(
        parent,
        EntityView { children: s[parent].children.push(child as nat), ..s[parent] },
    );
    linked.update(child, EntityView { parent: Some(parent as nat), ..linked[child] })
}

/// The name that `request` refers to and `registry` lacks, if there is one.
pub open spec fn missing_key(registry: RegistryView, request: RequestView) -> Option<Seq<char>> {
    match request {
        RequestView::Inline(_) => None,
        RequestView::ByKey(name) => if registry.dom().contains(name) {
            None
        } else {
            Some(name)
        },
        RequestView::ByKeyWith(name, _) => if registry.dom().contains(name) {
            None
        } else {
            Some(name)
        },
    }
}

/// The store after `request` was resolved and its bundles were inserted on
/// `entity`. A by-key request inserts the registered prototype; a by-key
/// request with an extra bundle inserts the prototype first, then the extra.
pub open spec fn populate(
    s: StoreView,
    registry: RegistryView,
    entity: int,
    request: RequestView,
) -> StoreView
    recommends
        0 <= entity < s.len(),
        missing_key(registry, request) is None,
{
    match request {
        RequestView::Inline(bundle) => install(s, entity, bundle),
        RequestView::ByKey(name) => install(s, entity, registry[name]),
        RequestView::ByKeyWith(name, extra) => install(
            install(s, entity, registry[name]),
            entity,
            extra,
        ),
    }
}

/// Why no entity can be created for `request`, if anything stands against it.
/// An unknown key is reported before a full store.
pub open spec fn refusal(s: StoreView, registry: RegistryView, request: RequestView) -> Option<
    Fault,
> {
    match missing_key(registry, request) {
        Some(name) => Some(Fault::InvalidKey(name)),
        None => if s.len() >= capacity() {
            Some(Fault::StoreFull)
        } else {
            None
        },
    }
}

/// The store after a new entity was created at the end and populated from
/// `request`.
pub open spec fn place(s: StoreView, registry: RegistryView, request: RequestView) -> StoreView
    recommends
        refusal(s, registry, request) is None,
{
    populate(s.push(empty_entity()), registry, s.len() as int, request)
}

/// The handles, in rising order, of the first `n` entities that carry a ledger.
pub open spec fn pending_below(s: StoreView, n: nat) -> Seq<nat>
    recommends
        n <= s.len(),
    decreases n,
{
    if n == 0 {
        Seq::empty()
    } else {
        let rest = pending_below(s, (n - 1) as nat);
        if s[n - 1].ledger is Some {
            rest.push((n - 1) as nat)
        } else {
            rest
        }
    }
}

/// The handles, in rising order, of all entities that carry a ledger.
pub open spec fn pending(s: StoreView) -> Seq<nat> {
    pending_below(s, s.len())
}

/// Whether any entity carries a ledger.
pub open spec fn has_pending(s: StoreView) -> bool {
    exists|i: int| 0 <= i < s.len() && (#[trigger] s[i]).ledger is Some
}

/// What a drain yields: the store, and the work list of the next generation.
pub type Progress = Result<(StoreView, Seq<nat>), Fault>;

/// Materialises `requests[from..]`, the rest of the detached ledger of
/// `owner`, in request order. Each request gets a new entity, which is
/// populated, attached to `owner` as its last child, and appended to `next`
/// if it now carries a ledger of its own.
pub open spec fn drain(
    s: StoreView,
    registry: RegistryView,
    owner: nat,
    requests: Seq<RequestView>,
    from: nat,
    next: Seq<nat>,
) -> Progress
    decreases requests.len() - from,
{
    if from >= requests.len() {
        Ok((s, next))
    } else {
        match refusal(s, registry, requests[from as int]) {
            Some(fault) => Err(fault),
            None => {
                let child = s.len();
                let placed = place(s, registry, requests[from as int]);
                let grown = attach(placed, owner as int, child as int);
                let queued = if placed[child as int].ledger is Some {
                    next.push(child)
                } else {
                    next
                };
                drain(grown, registry, owner, requests, from + 1, queued)
            },
        }
    }
}

/// Visits `batch[from..]`, the rest of one generation: each entity loses its
/// ledger, if it has one, and has it drained.
pub open spec fn generation(
    s: StoreView,
    registry: RegistryView,
    batch: Seq<nat>,
    from: nat,
    next: Seq<nat>,
) -> Progress
    decreases batch.len() - from,
{
    if from >= batch.len() {
        Ok((s, next))
    } else {
        let owner = batch[from as int];
        match s[owner as int].ledger {
            None => generation(s, registry, batch, from + 1, next),
            Some(requests) => match drain(
                detach(s, owner as int),
                registry,
                owner,
                requests,
                0,
                next,
            ) {
                Err(fault) => Err(fault),
                Ok((drained, queued)) => generation(drained, registry, batch, from + 1, queued),
            },
        }
    }
}

/// Runs generations from the work list `batch` until one leaves no work.
/// A generation that created no entity ends the pass: nothing new can carry
/// a ledger then.
pub open spec fn generations(s: StoreView, registry: RegistryView, batch: Seq<nat>) -> Result<
    StoreView,
    Fault,
>
    decreases capacity() - s.len(),
{
    if batch.len() == 0 {
        Ok(s)
    } else {
        match generation(s, registry, batch, 0, Seq::empty()) {
            Err(fault) => Err(fault),
            Ok((grown, next)) => if s.len() < grown.len() <= capacity() {
                generations(grown, registry, next)
            } else {
                Ok(grown)
            },
        }
    }
}

/// One full child-resolution pass over the store.
pub open spec fn pass(s: StoreView, registry: RegistryView) -> Result<StoreView, Fault> {
    generations(s, registry, pending(s))
}

/// An immediate spawn: a new entity is created and populated, then a full
/// pass runs. The new entity's handle is the old length of the store.
pub open spec fn spawn_now(s: StoreView, registry: RegistryView, request: RequestView) -> Result<
    StoreView,
    Fault,
> {
    match refusal(s, registry, request) {
        Some(fault) => Err(fault),
        None => pass(place(s, registry, request), registry),
    }
}

/// Applies `queue[from..]`, the rest of the deferred commands, in the order
/// in which they were enqueued.
pub open spec fn flush(
    s: StoreView,
    registry: RegistryView,
    queue: Seq<CommandView>,
    from: nat,
) -> Result<StoreView, Fault>
    decreases queue.len() - from,
{
    if from >= queue.len() {
        Ok(s)
    } else {
        let (entity, request) = queue[from as int];
        if entity >= s.len() {
            Err(Fault::MissingEntity(entity))
        } else {
            match missing_key(registry, request) {
                Some(name) => Err(Fault::InvalidKey(name)),
                None => flush(populate(s, registry, entity as int, request), registry, queue, from + 1),
            }
        }
    }
}

/// Every handle in `pending_below(s, n)` is below `n`, and the entity that
/// it names carries a ledger.
pub proof fn lemma_pending_bounds(s: StoreView, n: nat)
    requires
        n <= s.len(),
    ensures
        forall|i: int|
            0 <= i < pending_below(s, n).len() ==> {
                &&& (#[trigger] pending_below(s, n)[i]) < n
                &&& s[pending_below(s, n)[i] as int].ledger is Some
            },
        forall|e: int|
            0 <= e < n && (#[trigger] s[e]).ledger is Some ==> pending_below(s, n).contains(
                e as nat,
            ),
    decreases n,
{
    if n > 0 {
        lemma_pending_bounds(s, (n - 1) as nat);
        let rest = pending_below(s, (n - 1) as nat);
        assert forall|e: int| 0 <= e < n && (#[trigger] s[e]).ledger is Some implies pending_below(
            s,
            n,
        ).contains(e as nat) by {
            if e == n - 1 {
                assert(pending_below(s, n)[rest.len() as int] == e as nat);
            } else {
                let at = choose|i: int| 0 <= i < rest.len() && rest[i] == e as nat;
                assert(pending_below(s, n)[at] == e as nat);
            }
        }
    }
}

/// A pass over a store in which no entity carries a ledger changes nothing.
pub proof fn lemma_pass_without_pending(s: StoreView, registry: RegistryView)
    requires
        !has_pending(s),
    ensures
        pass(s, registry) == Ok::<StoreView, Fault>(s),
{
    lemma_pending_bounds(s, s.len());
    if pending(s).len() > 0 {
        assert(s[pending(s)[0] as int].ledger is Some);
    }
}

/// The work list below `n` depends only on which of the first `n` entities
/// carry a ledger.
pub proof fn lemma_pending_agrees(s: StoreView, other: StoreView, n: nat)
    requires
        n <= s.len(),
        n <= other.len(),
        forall|e: int| 0 <= e < n ==> (#[trigger] s[e]).ledger is Some == other[e].ledger is Some,
    ensures
        pending_below(s, n) == pending_below(other, n),
    decreases n,
{
    if n > 0 {
        lemma_pending_agrees(s, other, (n - 1) as nat);
        assert(s[n - 1].ledger is Some == other[n - 1].ledger is Some);
    }
}

} // verus!
