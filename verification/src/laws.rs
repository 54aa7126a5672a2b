//! What holds of every pass, and of the entry points taken together.

use crate::model::{attach, capacity, detach, drain, empty_entity, generation, generations};
use crate::model::{flush, has_pending, install, pass, pending, pending_below, place, populate};
use crate::model::{missing_key, refusal, register, spawn_now};
use crate::model::{lemma_pass_without_pending, lemma_pending_bounds};
use crate::model::{BundleView, EntityView, Fault, RegistryView, RequestView, StoreView};
use vstd::prelude::*;

verus! {

/// The entity that `request` makes of an empty one.
pub open spec fn resolved(registry: RegistryView, request: RequestView) -> EntityView {
    populate(seq![empty_entity()], registry, 0, request)[0]
}

/// The entity that a pass creates for `request` in the ledger of `owner`.
pub open spec fn born(registry: RegistryView, owner: nat, request: RequestView) -> EntityView {
    EntityView { parent: Some(owner), ..resolved(registry, request) }
}

/// Placing `request` appends the entity that the request resolves to, and
/// touches nothing else.
pub proof fn lemma_place(s: StoreView, registry: RegistryView, request: RequestView)
    ensures
        place(s, registry, request) == s.push(resolved(registry, request)),
{
    let one = seq![empty_entity()];
    let more = s.push(empty_entity());
    let at = s.len() as int;
    match request {
        RequestView::Inline(bundle) => {
            assert(install(more, at, bundle) =~= s.push(install(one, 0, bundle)[0]));
        },
        RequestView::ByKey(name) => {
            assert(install(more, at, registry[name]) =~= s.push(
                install(one, 0, registry[name])[0],
            ));
        },
        RequestView::ByKeyWith(name, extra) => {
            let first = install(more, at, registry[name]);
            let first_one = install(one, 0, registry[name]);
            assert(install(first, at, extra) =~= s.push(install(first_one, 0, extra)[0]));
        },
    }
}

/// What a drain does, in closed form. It creates one entity for each request
/// that was left, in request order, directly behind the entities that were
/// there. Each is what its request resolves to, with `owner` as its parent,
/// and is appended to the children of `owner` in the same order. No other
/// entity changes. The work list grows by exactly the new entities that carry
/// a ledger.
pub proof fn law_drain_closed_form(
    s: StoreView,
    registry: RegistryView,
    owner: nat,
    requests: Seq<RequestView>,
    from: nat,
    next: Seq<nat>,
)
    requires
        owner < s.len() <= capacity(),
        from <= requests.len(),
    ensures
        drain(s, registry, owner, requests, from, next) matches Ok((grown, queued)) ==> {
            &&& grown.len() == s.len() + requests.len() - from
            &&& grown.len() <= capacity()
            &&& forall|e: int| 0 <= e < s.len() && e != owner ==> #[trigger] grown[e] == s[e]
            &&& grown[owner as int] == EntityView {
                children: s[owner as int].children + Seq::new(
                    (requests.len() - from) as nat,
                    |i: int| (s.len() + i) as nat,
                ),
                ..s[owner as int]
            }
            &&& forall|i: int|
                0 <= i < requests.len() - from ==> #[trigger] grown[s.len() + i] == born(
                    registry,
                    owner,
                    requests[from + i],
                )
            &&& next.is_prefix_of(queued)
            &&& forall|i: int|
                next.len() <= i < queued.len() ==> s.len() <= #[trigger] queued[i] < grown.len()
            &&& forall|e: int|
                s.len() <= e < grown.len() && (#[trigger] grown[e]).ledger is Some
                    ==> queued.contains(e as nat)
            &&& forall|i: int|
                next.len() <= i < queued.len() ==> grown[(#[trigger] queued[i]) as int].ledger is Some
            &&& forall|i: int, j: int|
                next.len() <= i < j < queued.len() ==> (#[trigger] queued[i]) < (#[trigger] queued[j])
            &&& grown.len() == s.len() ==> queued == next
        },
    decreases requests.len() - from,
{
    if from < requests.len() && refusal(s, registry, requests[from as int]) is None {
        let request = requests[from as int];
        let child = s.len();
        let placed = place(s, registry, request);
        let stepped = attach(placed, owner as int, child as int);
        let listed = if placed[child as int].ledger is Some {
            next.push(child)
        } else {
            next
        };
        lemma_place(s, registry, request);
        law_drain_closed_form(stepped, registry, owner, requests, from + 1, listed);
        if let Ok((grown, queued)) = drain(s, registry, owner, requests, from, next) {
            let rest = Seq::new(
                (requests.len() - from - 1) as nat,
                |i: int| (stepped.len() + i) as nat,
            );
            let all = Seq::new((requests.len() - from) as nat, |i: int| (s.len() + i) as nat);
            assert(drain(stepped, registry, owner, requests, from + 1, listed) == Ok::<
                (StoreView, Seq<nat>),
                Fault,
            >((grown, queued)));
            assert(placed == s.push(resolved(registry, request)));
            assert(stepped.len() == s.len() + 1);
            assert(grown.len() == s.len() + requests.len() - from);
            assert(s[owner as int].children.push(child) + rest =~= s[owner as int].children + all);
            assert(stepped[owner as int].children == s[owner as int].children.push(child));
            assert(grown[owner as int].children == s[owner as int].children + all);
            assert(stepped[s.len() as int] == born(registry, owner, request));
            assert(grown[s.len() as int] == born(registry, owner, request));
            assert forall|i: int| 0 <= i < requests.len() - from implies #[trigger] grown[s.len()
                + i] == born(registry, owner, requests[from + i]) by {
                if i > 0 {
                    assert(grown[stepped.len() + (i - 1)] == born(
                        registry,
                        owner,
                        requests[from + 1 + (i - 1)],
                    ));
                }
            }
            assert forall|e: int| 0 <= e < s.len() && e != owner implies #[trigger] grown[e]
                == s[e] by {
                assert(stepped[e] == s[e]);
            }
            assert(next.is_prefix_of(listed));
            assert(next.is_prefix_of(queued));
            assert forall|e: int|
                s.len() <= e < grown.len() && (#[trigger] grown[e]).ledger is Some implies queued.contains(
                e as nat,
            ) by {
                if e == s.len() {
                    assert(listed[next.len() as int] == child);
                    assert(queued[next.len() as int] == child);
                }
            }
            assert forall|i: int| next.len() <= i < queued.len() implies s.len() <= #[trigger] queued[i]
                < grown.len() by {
                if i < listed.len() {
                    assert(queued[i] == listed[i]);
                }
            }
            assert forall|i: int| next.len() <= i < queued.len() implies grown[(
            #[trigger] queued[i]) as int].ledger is Some by {
                if i < listed.len() {
                    assert(queued[i] == listed[i]);
                    assert(queued[i] == child);
                }
            }
            assert forall|i: int, j: int| next.len() <= i < j < queued.len() implies (
            #[trigger] queued[i]) < (#[trigger] queued[j]) by {
                if i < listed.len() {
                    assert(queued[i] == listed[i]);
                    assert(queued[i] == child);
                }
            }
        }
    } else if from >= requests.len() {
        assert(s[owner as int].children + Seq::new(0, |i: int| (s.len() + i) as nat)
            =~= s[owner as int].children);
    }
}

/// Whether the hierarchy of `s` is sound: every child that an entity lists
/// was created after it, is listed once and names that entity as its parent;
/// and every entity that names a parent is listed by it.
pub open spec fn consistent(s: StoreView) -> bool {
    &&& s.len() <= capacity()
    &&& forall|e: int| 0 <= e < s.len() ==> (#[trigger] s[e]).children.no_duplicates()
    &&& forall|e: int, i: int|
        0 <= e < s.len() && 0 <= i < s[e].children.len() ==> {
            &&& e < (#[trigger] s[e].children[i]) < s.len()
            &&& s[s[e].children[i] as int].parent == Some(e as nat)
        }
    &&& forall|c: int|
        0 <= c < s.len() && (#[trigger] s[c]).parent is Some ==> {
            &&& s[c].parent->0 < c
            &&& s[s[c].parent->0 as int].children.contains(c as nat)
        }
}

/// What a request resolves to has no parent and no children.
pub proof fn lemma_resolved_is_loose(registry: RegistryView, request: RequestView)
    ensures
        resolved(registry, request).parent is None,
        resolved(registry, request).children == Seq::<nat>::empty(),
{
}

/// A drain keeps the hierarchy sound.
pub proof fn lemma_drain_consistent(
    s: StoreView,
    registry: RegistryView,
    owner: nat,
    requests: Seq<RequestView>,
    from: nat,
    next: Seq<nat>,
)
    requires
        consistent(s),
        owner < s.len(),
        from <= requests.len(),
    ensures
        drain(s, registry, owner, requests, from, next) matches Ok((grown, _)) ==> consistent(
            grown,
        ),
{
    law_drain_closed_form(s, registry, owner, requests, from, next);
    if let Ok((grown, _)) = drain(s, registry, owner, requests, from, next) {
        let n = s.len() as int;
        let made = (requests.len() - from) as int;
        let before = s[owner as int].children;
        let fresh = Seq::new(made as nat, |i: int| (n + i) as nat);
        let after = grown[owner as int].children;
        assert(after == before + fresh);
        assert forall|e: int| n <= e < grown.len() implies {
            &&& (#[trigger] grown[e]).parent == Some(owner)
            &&& grown[e].children == Seq::<nat>::empty()
        } by {
            assert(grown[n + (e - n)] == born(registry, owner, requests[from + (e - n)]));
            lemma_resolved_is_loose(registry, requests[from + (e - n)]);
        }
        assert forall|i: int| 0 <= i < after.len() implies {
            &&& owner < (#[trigger] after[i]) < grown.len()
            &&& grown[after[i] as int].parent == Some(owner)
        } by {
            if i < before.len() {
                assert(after[i] == before[i]);
                assert(s[owner as int].children[i] == before[i]);
                let c = before[i] as int;
                if c != owner {
                    assert(grown[c] == s[c]);
                }
            } else {
                assert(after[i] == fresh[i - before.len()]);
            }
        }
        assert(after.no_duplicates()) by {
            assert forall|i: int, j: int|
                0 <= i < after.len() && 0 <= j < after.len() && i != j implies after[i]
                != after[j] by {
                if i < before.len() {
                    assert(after[i] == before[i]);
                    assert(s[owner as int].children[i] == before[i]);
                } else {
                    assert(after[i] == fresh[i - before.len()]);
                }
                if j < before.len() {
                    assert(after[j] == before[j]);
                    assert(s[owner as int].children[j] == before[j]);
                } else {
                    assert(after[j] == fresh[j - before.len()]);
                }
            }
        }
        assert forall|e: int| 0 <= e < grown.len() implies (#[trigger] grown[e]).children.no_duplicates() by {
            if e < n && e != owner {
                assert(grown[e] == s[e]);
            }
        }
        assert forall|e: int, i: int|
            0 <= e < grown.len() && 0 <= i < grown[e].children.len() implies {
            &&& e < (#[trigger] grown[e].children[i]) < grown.len()
            &&& grown[grown[e].children[i] as int].parent == Some(e as nat)
        } by {
            if e < n && e != owner {
                assert(grown[e] == s[e]);
                let c = s[e].children[i] as int;
                if c != owner {
                    assert(grown[c] == s[c]);
                }
            } else if e == owner {
                assert(grown[e].children[i] == after[i]);
            }
        }
        assert forall|c: int| 0 <= c < grown.len() && (#[trigger] grown[c]).parent is Some implies {
            &&& grown[c].parent->0 < c
            &&& grown[grown[c].parent->0 as int].children.contains(c as nat)
        } by {
            if c < n {
                if c != owner {
                    assert(grown[c] == s[c]);
                }
                assert(grown[c].parent == s[c].parent);
                assert(s[c].parent is Some);
                let p = s[c].parent->0 as int;
                let at = choose|i: int| 0 <= i < s[p].children.len() && s[p].children[i] == c;
                if p != owner {
                    assert(grown[p] == s[p]);
                } else {
                    assert(after[at] == before[at]);
                }
            } else {
                assert(after[before.len() + (c - n)] == fresh[c - n]);
            }
        }
    }
}

/// Whether every handle in `list` is one of a store of `len` entities.
pub open spec fn within(list: Seq<nat>, len: nat) -> bool {
    forall|i: int| 0 <= i < list.len() ==> #[trigger] list[i] < len
}

/// Whether every entity of `s` that carries a ledger is still due: it stands
/// in `batch[from..]` or in `next`.
pub open spec fn due(s: StoreView, batch: Seq<nat>, from: nat, next: Seq<nat>) -> bool {
    forall|e: int|
        0 <= e < s.len() && (#[trigger] s[e]).ledger is Some ==> {
            ||| exists|i: int| from <= i < batch.len() && #[trigger] batch[i] == e
            ||| next.contains(e as nat)
        }
}

/// What a pass leaves of the entities that were there: all of them stay, with
/// their components and their parent; their children stay in front of any new
/// ones; none gains a ledger.
pub open spec fn kept(s: StoreView, grown: StoreView) -> bool {
    &&& s.len() <= grown.len()
    &&& forall|e: int|
        0 <= e < s.len() ==> {
            &&& (#[trigger] grown[e]).components == s[e].components
            &&& grown[e].parent == s[e].parent
            &&& s[e].children.is_prefix_of(grown[e].children)
            &&& grown[e].ledger is Some ==> grown[e].ledger == s[e].ledger
        }
}

/// What the rest of a generation does: it keeps what was there, and every
/// entity that carries a ledger afterwards stands in the next work list.
pub proof fn lemma_generation(
    s: StoreView,
    registry: RegistryView,
    batch: Seq<nat>,
    from: nat,
    next: Seq<nat>,
)
    requires
        s.len() <= capacity(),
        from <= batch.len(),
        within(batch, s.len()),
        within(next, s.len()),
        due(s, batch, from, next),
    ensures
        generation(s, registry, batch, from, next) matches Ok((grown, queued)) ==> {
            &&& kept(s, grown)
            &&& grown.len() <= capacity()
            &&& within(queued, grown.len())
            &&& due(grown, batch, batch.len(), queued)
            &&& next.is_prefix_of(queued)
            &&& grown.len() == s.len() ==> queued == next
            &&& consistent(s) ==> consistent(grown)
        },
    decreases batch.len() - from,
{
    if from < batch.len() {
        let owner = batch[from as int];
        match s[owner as int].ledger {
            None => {
                assert forall|e: int|
                    0 <= e < s.len() && (#[trigger] s[e]).ledger is Some implies {
                    ||| exists|i: int| from + 1 <= i < batch.len() && #[trigger] batch[i] == e
                    ||| next.contains(e as nat)
                } by {
                    if !next.contains(e as nat) {
                        let i = choose|i: int| from <= i < batch.len() && #[trigger] batch[i] == e;
                        assert(i != from);
                    }
                }
                lemma_generation(s, registry, batch, from + 1, next);
            },
            Some(requests) => {
                let bare = detach(s, owner as int);
                law_drain_closed_form(bare, registry, owner, requests, 0, next);
                if consistent(s) {
                    lemma_detach_consistent(s, owner as int);
                    lemma_drain_consistent(bare, registry, owner, requests, 0, next);
                }
                if let Ok((drained, listed)) = drain(bare, registry, owner, requests, 0, next) {
                    assert(kept(s, drained)) by {
                        assert forall|e: int| 0 <= e < s.len() implies {
                            &&& (#[trigger] drained[e]).components == s[e].components
                            &&& drained[e].parent == s[e].parent
                            &&& s[e].children.is_prefix_of(drained[e].children)
                            &&& drained[e].ledger is Some ==> drained[e].ledger == s[e].ledger
                        } by {
                            if e != owner {
                                assert(drained[e] == bare[e]);
                            }
                        }
                    }
                    assert(within(listed, drained.len())) by {
                        assert forall|i: int| 0 <= i < listed.len() implies #[trigger] listed[i]
                            < drained.len() by {
                            if i < next.len() {
                                assert(listed[i] == next[i]);
                            }
                        }
                    }
                    assert(due(drained, batch, from + 1, listed)) by {
                        assert forall|e: int|
                            0 <= e < drained.len() && (#[trigger] drained[e]).ledger is Some implies {
                            ||| exists|i: int|
                                from + 1 <= i < batch.len() && #[trigger] batch[i] == e
                            ||| listed.contains(e as nat)
                        } by {
                            if e < s.len() {
                                assert(e != owner);
                                assert(drained[e] == bare[e]);
                                assert(s[e].ledger is Some);
                                if next.contains(e as nat) {
                                    let at = choose|i: int| 0 <= i < next.len() && next[i] == e;
                                    assert(listed[at] == e);
                                } else {
                                    let i = choose|i: int|
                                        from <= i < batch.len() && #[trigger] batch[i] == e;
                                    assert(i != from);
                                }
                            }
                        }
                    }
                    lemma_generation(drained, registry, batch, from + 1, listed);
                    if let Ok((grown, queued)) = generation(
                        drained,
                        registry,
                        batch,
                        from + 1,
                        listed,
                    ) {
                        assert(kept(s, grown)) by {
                            assert forall|e: int| 0 <= e < s.len() implies {
                                &&& (#[trigger] grown[e]).components == s[e].components
                                &&& grown[e].parent == s[e].parent
                                &&& s[e].children.is_prefix_of(grown[e].children)
                                &&& grown[e].ledger is Some ==> grown[e].ledger == s[e].ledger
                            } by {
                                assert(drained[e].components == s[e].components);
                            }
                        }
                    }
                }
            },
        }
    } else {
        assert forall|e: int|
            0 <= e < s.len() && (#[trigger] s[e]).ledger is Some implies next.contains(e as nat) by {
            if !next.contains(e as nat) {
                let i = choose|i: int| from <= i < batch.len() && #[trigger] batch[i] == e;
            }
        }
    }
}

/// What generations do, run until no work is left: they keep what was
/// there, and leave no entity with a ledger.
pub proof fn lemma_generations(s: StoreView, registry: RegistryView, batch: Seq<nat>)
    requires
        s.len() <= capacity(),
        within(batch, s.len()),
        due(s, batch, 0, Seq::empty()),
    ensures
        generations(s, registry, batch) matches Ok(grown) ==> {
            &&& kept(s, grown)
            &&& grown.len() <= capacity()
            &&& !has_pending(grown)
            &&& consistent(s) ==> consistent(grown)
        },
    decreases capacity() - s.len(),
{
    if batch.len() == 0 {
    } else {
        lemma_generation(s, registry, batch, 0, Seq::empty());
        if let Ok((grown, next)) = generation(s, registry, batch, 0, Seq::empty()) {
            if s.len() < grown.len() <= capacity() {
                assert(due(grown, next, 0, Seq::empty())) by {
                    assert forall|e: int|
                        0 <= e < grown.len() && (#[trigger] grown[e]).ledger is Some implies {
                        ||| exists|i: int| 0 <= i < next.len() && #[trigger] next[i] == e
                        ||| Seq::<nat>::empty().contains(e as nat)
                    } by {
                        assert(next.contains(e as nat));
                    }
                }
                lemma_generations(grown, registry, next);
                if let Ok(done) = generations(grown, registry, next) {
                    assert(kept(s, done)) by {
                        assert forall|e: int| 0 <= e < s.len() implies {
                            &&& (#[trigger] done[e]).components == s[e].components
                            &&& done[e].parent == s[e].parent
                            &&& s[e].children.is_prefix_of(done[e].children)
                            &&& done[e].ledger is Some ==> done[e].ledger == s[e].ledger
                        } by {
                            assert(grown[e].components == s[e].components);
                        }
                    }
                }
            }
        }
    }
}

/// After a pass no entity carries a ledger, whatever the store held before.
/// The entities that were there are all still there, with the components and
/// the parent that they had, and with their old children in front of any new
/// ones. A second pass right after the first changes nothing. A hierarchy
/// that was sound is sound afterwards.
pub proof fn law_pass_drains(s: StoreView, registry: RegistryView)
    requires
        s.len() <= capacity(),
    ensures
        pass(s, registry) matches Ok(grown) ==> {
            &&& !has_pending(grown)
            &&& kept(s, grown)
            &&& pass(grown, registry) == Ok::<StoreView, Fault>(grown)
            &&& consistent(s) ==> consistent(grown)
        },
{
    lemma_pending_bounds(s, s.len());
    assert(due(s, pending(s), 0, Seq::empty())) by {
        assert forall|e: int| 0 <= e < s.len() && (#[trigger] s[e]).ledger is Some implies {
            ||| exists|i: int| 0 <= i < pending(s).len() && #[trigger] pending(s)[i] == e
            ||| Seq::<nat>::empty().contains(e as nat)
        } by {
            assert(pending(s).contains(e as nat));
        }
    }
    lemma_generations(s, registry, pending(s));
    if let Ok(grown) = pass(s, registry) {
        lemma_pass_without_pending(grown, registry);
    }
}

/// Keys are unique by name. Once a prototype is registered under a name,
/// registering under any key of that name is refused, whatever the bundle;
/// and a registration that succeeds keeps every entry that was there.
pub proof fn law_uniqueness(
    registry: RegistryView,
    first: Seq<char>,
    second: Seq<char>,
    bundle: BundleView,
    other: BundleView,
)
    requires
        first == second,
    ensures
        register(registry, first, bundle) matches Ok(grown) ==> {
            &&& register(grown, second, other) == Err::<RegistryView, Fault>(
                Fault::DuplicateKey(second),
            )
            &&& grown[first] == bundle
            &&& forall|name: Seq<char>| #[trigger]
                registry.dom().contains(name) ==> grown.dom().contains(name) && grown[name]
                    == registry[name]
        },
        register(registry, first, bundle) is Err ==> registry.dom().contains(first),
{
}

/// An immediate spawn of an inline bundle yields an entity that holds
/// exactly the components of the bundle, has no parent and, once the spawn
/// has returned, no ledger. The entities that were there keep their
/// components. Where nothing was pending and the bundle carries no ledger,
/// the store has the new entity and is otherwise as before.
pub proof fn law_round_trip(s: StoreView, registry: RegistryView, bundle: BundleView)
    requires
        s.len() < capacity(),
    ensures
        spawn_now(s, registry, RequestView::Inline(bundle)) matches Ok(grown) ==> {
            &&& grown[s.len() as int].components == bundle.components
            &&& grown[s.len() as int].parent is None
            &&& grown[s.len() as int].ledger is None
            &&& kept(s, grown)
        },
        !has_pending(s) && bundle.children is None ==> spawn_now(
            s,
            registry,
            RequestView::Inline(bundle),
        ) == Ok::<StoreView, Fault>(
            s.push(
                EntityView {
                    components: bundle.components,
                    ledger: None,
                    parent: None,
                    children: Seq::empty(),
                },
            ),
        ),
{
    let request = RequestView::Inline(bundle);
    let placed = place(s, registry, request);
    lemma_place(s, registry, request);
    law_pass_drains(placed, registry);
    assert(resolved(registry, request).components =~= bundle.components);
    if let Ok(grown) = pass(placed, registry) {
        assert(kept(s, grown)) by {
            assert forall|e: int| 0 <= e < s.len() implies {
                &&& (#[trigger] grown[e]).components == s[e].components
                &&& grown[e].parent == s[e].parent
                &&& s[e].children.is_prefix_of(grown[e].children)
                &&& grown[e].ledger is Some ==> grown[e].ledger == s[e].ledger
            } by {
                assert(placed[e] == s[e]);
            }
        }
    }
    if !has_pending(s) && bundle.children is None {
        assert(!has_pending(placed)) by {
            assert forall|e: int| 0 <= e < placed.len() implies (#[trigger] placed[e]).ledger is None by {
                if e < s.len() {
                    assert(s[e].ledger is None);
                }
            }
        }
        lemma_pass_without_pending(placed, registry);
        assert(resolved(registry, request) =~= EntityView {
            components: bundle.components,
            ledger: None,
            parent: None,
            children: Seq::empty(),
        });
    }
}

/// A spawn by a registered key yields an entity that holds exactly the
/// components of the registered prototype. The prototype is not used up: a
/// second spawn by the same key yields another entity, with another handle
/// and the same components, and leaves the first as it was.
pub proof fn law_key_indirection(s: StoreView, registry: RegistryView, name: Seq<char>)
    requires
        registry.dom().contains(name),
        s.len() < capacity(),
    ensures
        spawn_now(s, registry, RequestView::ByKey(name)) matches Ok(once) ==> {
            &&& s.len() < once.len()
            &&& once[s.len() as int].components == registry[name].components
            &&& once.len() < capacity() ==> (spawn_now(once, registry, RequestView::ByKey(name)) matches Ok(
                twice,
            ) ==> {
                &&& once.len() < twice.len()
                &&& twice[once.len() as int].components == registry[name].components
                &&& twice[s.len() as int].components == registry[name].components
            })
        },
{
    let request = RequestView::ByKey(name);
    lemma_spawn_by_key(s, registry, name);
    if let Ok(once) = spawn_now(s, registry, request) {
        if once.len() < capacity() {
            lemma_spawn_by_key(once, registry, name);
        }
    }
}

/// A spawn by a registered key keeps what was there and adds, at the old
/// length of the store, an entity with the components of the prototype.
proof fn lemma_spawn_by_key(s: StoreView, registry: RegistryView, name: Seq<char>)
    requires
        registry.dom().contains(name),
        s.len() < capacity(),
    ensures
        spawn_now(s, registry, RequestView::ByKey(name)) matches Ok(grown) ==> {
            &&& s.len() < grown.len()
            &&& grown[s.len() as int].components == registry[name].components
            &&& kept(s, grown)
        },
{
    let request = RequestView::ByKey(name);
    let placed = place(s, registry, request);
    lemma_place(s, registry, request);
    law_pass_drains(placed, registry);
    assert(resolved(registry, request).components =~= registry[name].components);
    if let Ok(grown) = pass(placed, registry) {
        assert forall|e: int| 0 <= e < s.len() implies {
            &&& (#[trigger] grown[e]).components == s[e].components
            &&& grown[e].parent == s[e].parent
            &&& s[e].children.is_prefix_of(grown[e].children)
            &&& grown[e].ledger is Some ==> grown[e].ledger == s[e].ledger
        } by {
            assert(placed[e] == s[e]);
        }
    }
}

/// Deferring a spawn, applying the buffer and running the next pass comes to
/// the same as spawning at once: the same store, entity for entity, or the
/// same fault.
pub proof fn law_deferred_equivalence(s: StoreView, registry: RegistryView, request: RequestView)
    requires
        s.len() < capacity(),
    ensures
        (match flush(s.push(empty_entity()), registry, seq![(s.len(), request)], 0) {
            Ok(flushed) => pass(flushed, registry),
            Err(fault) => Err(fault),
        }) == spawn_now(s, registry, request),
{
    let reserved = s.push(empty_entity());
    let queue = seq![(s.len(), request)];
    assert(queue[0] == (s.len(), request));
    reveal_with_fuel(flush, 3);
}

/// A spawn by a key that is not registered is refused with that key, both
/// alone and with an extra bundle. Applying a deferred spawn by such a key is
/// refused in the same way.
pub proof fn law_unknown_key(
    s: StoreView,
    registry: RegistryView,
    name: Seq<char>,
    extra: BundleView,
)
    requires
        !registry.dom().contains(name),
    ensures
        spawn_now(s, registry, RequestView::ByKey(name)) == Err::<StoreView, Fault>(
            Fault::InvalidKey(name),
        ),
        spawn_now(s, registry, RequestView::ByKeyWith(name, extra)) == Err::<StoreView, Fault>(
            Fault::InvalidKey(name),
        ),
        flush(s.push(empty_entity()), registry, seq![(s.len(), RequestView::ByKey(name))], 0)
            == Err::<StoreView, Fault>(Fault::InvalidKey(name)),
{
    let queue = seq![(s.len(), RequestView::ByKey(name))];
    assert(queue[0] == (s.len(), RequestView::ByKey(name)));
}

/// A drain succeeds where every request that is left names a registered key,
/// or none, and the store has room for one entity for each.
pub proof fn lemma_drain_succeeds(
    s: StoreView,
    registry: RegistryView,
    owner: nat,
    requests: Seq<RequestView>,
    from: nat,
    next: Seq<nat>,
)
    requires
        owner < s.len(),
        from <= requests.len(),
        forall|i: int|
            from <= i < requests.len() ==> missing_key(registry, #[trigger] requests[i]) is None,
        s.len() + requests.len() - from <= capacity(),
    ensures
        drain(s, registry, owner, requests, from, next) is Ok,
    decreases requests.len() - from,
{
    if from < requests.len() {
        let request = requests[from as int];
        let child = s.len();
        let placed = place(s, registry, request);
        lemma_place(s, registry, request);
        let stepped = attach(placed, owner as int, child as int);
        let listed = if placed[child as int].ledger is Some {
            next.push(child)
        } else {
            next
        };
        lemma_drain_succeeds(stepped, registry, owner, requests, from + 1, listed);
    }
}

/// The work list of a store in which only the last entity carries a ledger
/// holds that entity alone.
proof fn lemma_pending_last(s: StoreView, last: EntityView)
    requires
        !has_pending(s),
        last.ledger is Some,
    ensures
        pending(s.push(last)) == seq![s.len()],
{
    let pushed = s.push(last);
    lemma_pending_bounds(pushed, s.len());
    let before = pending_below(pushed, s.len());
    if before.len() > 0 {
        assert(pushed[before[0] as int] == s[before[0] as int]);
        assert(s[before[0] as int].ledger is Some);
    }
    assert(pending(pushed) =~= seq![s.len()]);
}

/// A generation whose work list is one entity with a ledger is the drain of
/// that ledger.
proof fn lemma_single_owner(
    s: StoreView,
    registry: RegistryView,
    owner: nat,
    requests: Seq<RequestView>,
)
    requires
        owner < s.len(),
        s[owner as int].ledger == Some(requests),
    ensures
        generation(s, registry, seq![owner], 0, Seq::empty()) == drain(
            detach(s, owner as int),
            registry,
            owner,
            requests,
            0,
            Seq::empty(),
        ),
{
    let batch = seq![owner];
    assert(batch[0] == owner);
    reveal_with_fuel(generation, 3);
}

/// A root `{A}` whose ledger asks for `{B}`, whose ledger in turn asks for
/// `{C}`, spawned into a store in which nothing is pending, yields three new
/// entities in the order of their generations: the root with `{A}` and the
/// one child; the child with `{B}`, the root as its parent and one child of
/// its own; and the grandchild with `{C}`. None of them retains a ledger,
/// and the entities that were there are untouched.
pub proof fn law_recursive_children(
    s: StoreView,
    registry: RegistryView,
    a: Set<u64>,
    b: Set<u64>,
    c: Set<u64>,
)
    requires
        !has_pending(s),
        s.len() + 3 <= capacity(),
    ensures
        spawn_now(
            s,
            registry,
            RequestView::Inline(
                BundleView {
                    components: a,
                    children: Some(
                        seq![
                            RequestView::Inline(
                                BundleView {
                                    components: b,
                                    children: Some(
                                        seq![
                                            RequestView::Inline(
                                                BundleView { components: c, children: None },
                                            ),
                                        ],
                                    ),
                                },
                            ),
                        ],
                    ),
                },
            ),
        ) == Ok::<StoreView, Fault>(
            s.push(
                EntityView {
                    components: a,
                    ledger: None,
                    parent: None,
                    children: seq![s.len() + 1],
                },
            ).push(
                EntityView {
                    components: b,
                    ledger: None,
                    parent: Some(s.len()),
                    children: seq![s.len() + 2],
                },
            ).push(
                EntityView {
                    components: c,
                    ledger: None,
                    parent: Some(s.len() + 1),
                    children: Seq::empty(),
                },
            ),
        ),
{
    let n = s.len();
    let leaf = BundleView { components: c, children: None };
    let for_leaf = seq![RequestView::Inline(leaf)];
    let middle = BundleView { components: b, children: Some(for_leaf) };
    let for_middle = seq![RequestView::Inline(middle)];
    let root = BundleView { components: a, children: Some(for_middle) };
    let request = RequestView::Inline(root);
    let none = Seq::<nat>::empty();
    assert(for_leaf[0] == RequestView::Inline(leaf));
    assert(for_middle[0] == RequestView::Inline(middle));

    // The root is placed, and is the only entity with a ledger.
    let placed = place(s, registry, request);
    lemma_place(s, registry, request);
    let root_entity = resolved(registry, request);
    assert(root_entity =~= EntityView {
        components: a,
        ledger: Some(for_middle),
        parent: None,
        children: Seq::empty(),
    });
    lemma_pending_last(s, root_entity);

    // The first generation drains the ledger of the root.
    lemma_single_owner(placed, registry, n, for_middle);
    let bare = detach(placed, n as int);
    lemma_drain_succeeds(bare, registry, n, for_middle, 0, none);
    law_drain_closed_form(bare, registry, n, for_middle, 0, none);
    let (first, next) = drain(bare, registry, n, for_middle, 0, none)->Ok_0;
    assert(first[bare.len() as int + 0int] == born(registry, n, for_middle[0int + 0int]));
    assert(resolved(registry, for_middle[0]) =~= EntityView {
        components: b,
        ledger: Some(for_leaf),
        parent: None,
        children: Seq::empty(),
    });
    assert(next.contains((n + 1) as nat));
    assert(next =~= seq![(n + 1) as nat]) by {
        if next.len() > 1 {
            assert(next[0] < next[1]);
        }
    }

    // The second generation drains the ledger of the child.
    lemma_single_owner(first, registry, n + 1, for_leaf);
    let bare_child = detach(first, (n + 1) as int);
    lemma_drain_succeeds(bare_child, registry, n + 1, for_leaf, 0, none);
    law_drain_closed_form(bare_child, registry, n + 1, for_leaf, 0, none);
    let (second, last) = drain(bare_child, registry, n + 1, for_leaf, 0, none)->Ok_0;
    assert(second[bare_child.len() as int + 0int] == born(registry, n + 1, for_leaf[0int + 0int]));
    assert(resolved(registry, for_leaf[0]) =~= EntityView {
        components: c,
        ledger: None,
        parent: None,
        children: Seq::empty(),
    });
    assert(last =~= none) by {
        if last.len() > 0 {
            assert(second[last[0] as int].ledger is Some);
        }
    }
    reveal_with_fuel(generations, 3);
    let built = s.push(
        EntityView { components: a, ledger: None, parent: None, children: seq![n + 1] },
    ).push(
        EntityView { components: b, ledger: None, parent: Some(n), children: seq![n + 2] },
    ).push(
        EntityView {
            components: c,
            ledger: None,
            parent: Some(n + 1),
            children: Seq::empty(),
        },
    );
    assert(second =~= built) by {
        assert(second.len() == n + 3);
        assert forall|e: int| 0 <= e < n implies second[e] == s[e] by {
            assert(first[e] == bare[e]);
            assert(second[e] == bare_child[e]);
        }
        assert(first[n as int] == bare_child[n as int]);
        assert(second[n as int] == bare_child[n as int]);
        assert(first[n as int].children =~= seq![n + 1]);
        assert(second[(n + 1) as int].children =~= seq![n + 2]);
    }
}

/// A root whose ledger asks for the prototype under a key, and then for the
/// same prototype with an extra bundle, gets two children, in that order: one
/// with exactly the components of the prototype, one with those and the
/// components of the extra bundle.
pub proof fn law_by_key_children(
    s: StoreView,
    registry: RegistryView,
    name: Seq<char>,
    root: Set<u64>,
    extra: Set<u64>,
)
    requires
        !has_pending(s),
        s.len() + 3 <= capacity(),
        registry.dom().contains(name),
        registry[name].children is None,
    ensures
        spawn_now(
            s,
            registry,
            RequestView::Inline(
                BundleView {
                    components: root,
                    children: Some(
                        seq![
                            RequestView::ByKey(name),
                            RequestView::ByKeyWith(
                                name,
                                BundleView { components: extra, children: None },
                            ),
                        ],
                    ),
                },
            ),
        ) == Ok::<StoreView, Fault>(
            s.push(
                EntityView {
                    components: root,
                    ledger: None,
                    parent: None,
                    children: seq![s.len() + 1, s.len() + 2],
                },
            ).push(
                EntityView {
                    components: registry[name].components,
                    ledger: None,
                    parent: Some(s.len()),
                    children: Seq::empty(),
                },
            ).push(
                EntityView {
                    components: registry[name].components.union(extra),
                    ledger: None,
                    parent: Some(s.len()),
                    children: Seq::empty(),
                },
            ),
        ),
{
    let n = s.len();
    let merged = BundleView { components: extra, children: None };
    let wanted = seq![RequestView::ByKey(name), RequestView::ByKeyWith(name, merged)];
    let top = BundleView { components: root, children: Some(wanted) };
    let request = RequestView::Inline(top);
    let none = Seq::<nat>::empty();
    assert(wanted[0] == RequestView::ByKey(name));
    assert(wanted[1] == RequestView::ByKeyWith(name, merged));

    let placed = place(s, registry, request);
    lemma_place(s, registry, request);
    let root_entity = resolved(registry, request);
    assert(root_entity =~= EntityView {
        components: root,
        ledger: Some(wanted),
        parent: None,
        children: Seq::empty(),
    });
    lemma_pending_last(s, root_entity);

    lemma_single_owner(placed, registry, n, wanted);
    let bare = detach(placed, n as int);
    lemma_drain_succeeds(bare, registry, n, wanted, 0, none);
    law_drain_closed_form(bare, registry, n, wanted, 0, none);
    let (grown, next) = drain(bare, registry, n, wanted, 0, none)->Ok_0;
    assert(grown[bare.len() as int + 0int] == born(registry, n, wanted[0int + 0int]));
    assert(grown[bare.len() as int + 1int] == born(registry, n, wanted[0int + 1int]));
    assert(resolved(registry, wanted[0]) =~= EntityView {
        components: registry[name].components,
        ledger: None,
        parent: None,
        children: Seq::empty(),
    });
    assert(resolved(registry, wanted[1]) =~= EntityView {
        components: registry[name].components.union(extra),
        ledger: None,
        parent: None,
        children: Seq::empty(),
    });
    assert(next =~= none) by {
        if next.len() > 0 {
            assert(grown[next[0] as int].ledger is Some);
        }
    }
    reveal_with_fuel(generations, 3);
    let built = s.push(
        EntityView { components: root, ledger: None, parent: None, children: seq![n + 1, n + 2] },
    ).push(
        EntityView {
            components: registry[name].components,
            ledger: None,
            parent: Some(n),
            children: Seq::empty(),
        },
    ).push(
        EntityView {
            components: registry[name].components.union(extra),
            ledger: None,
            parent: Some(n),
            children: Seq::empty(),
        },
    );
    assert(grown =~= built) by {
        assert(grown.len() == n + 3);
        assert forall|e: int| 0 <= e < n implies grown[e] == s[e] by {
            assert(grown[e] == bare[e]);
        }
        assert(grown[n as int].children =~= seq![n + 1, n + 2]);
    }
}

/// Detaching a ledger keeps the hierarchy sound.
pub proof fn lemma_detach_consistent(s: StoreView, entity: int)
    requires
        consistent(s),
        0 <= entity < s.len(),
    ensures
        consistent(detach(s, entity)),
{
    let bare = detach(s, entity);
    assert forall|e: int| 0 <= e < bare.len() implies {
        &&& (#[trigger] bare[e]).children == s[e].children
        &&& bare[e].parent == s[e].parent
    } by {}
    lemma_same_links(s, bare);
}

/// A store with the links of a sound one is sound.
proof fn lemma_same_links(s: StoreView, other: StoreView)
    requires
        consistent(s),
        other.len() == s.len(),
        forall|e: int|
            0 <= e < s.len() ==> {
                &&& (#[trigger] other[e]).children == s[e].children
                &&& other[e].parent == s[e].parent
            },
    ensures
        consistent(other),
{
    assert forall|e: int| 0 <= e < other.len() implies (#[trigger] other[e]).children.no_duplicates() by {
        assert(s[e].children.no_duplicates());
    }
    assert forall|e: int, i: int|
        0 <= e < other.len() && 0 <= i < other[e].children.len() implies {
        &&& e < (#[trigger] other[e].children[i]) < other.len()
        &&& other[other[e].children[i] as int].parent == Some(e as nat)
    } by {
        let c = s[e].children[i] as int;
        assert(other[c].parent == s[c].parent);
    }
    assert forall|c: int| 0 <= c < other.len() && (#[trigger] other[c]).parent is Some implies {
        &&& other[c].parent->0 < c
        &&& other[other[c].parent->0 as int].children.contains(c as nat)
    } by {
        assert(s[c].parent is Some);
        let p = s[c].parent->0 as int;
        assert(other[p].children == s[p].children);
    }
}

/// Inserting bundles on an entity keeps the hierarchy sound.
pub proof fn lemma_populate_consistent(
    s: StoreView,
    registry: RegistryView,
    entity: int,
    request: RequestView,
)
    requires
        consistent(s),
        0 <= entity < s.len(),
    ensures
        consistent(populate(s, registry, entity, request)),
{
    let after = populate(s, registry, entity, request);
    assert forall|e: int| 0 <= e < s.len() implies {
        &&& (#[trigger] after[e]).children == s[e].children
        &&& after[e].parent == s[e].parent
    } by {}
    lemma_same_links(s, after);
}

/// A new, empty entity keeps the hierarchy sound.
pub proof fn lemma_reserve_consistent(s: StoreView)
    requires
        consistent(s),
        s.len() < capacity(),
    ensures
        consistent(s.push(empty_entity())),
{
    let more = s.push(empty_entity());
    assert forall|e: int, i: int|
        0 <= e < more.len() && 0 <= i < more[e].children.len() implies {
        &&& e < (#[trigger] more[e].children[i]) < more.len()
        &&& more[more[e].children[i] as int].parent == Some(e as nat)
    } by {
        assert(more[e] == s[e]);
        let c = s[e].children[i] as int;
        assert(more[c] == s[c]);
    }
    assert forall|c: int| 0 <= c < more.len() && (#[trigger] more[c]).parent is Some implies {
        &&& more[c].parent->0 < c
        &&& more[more[c].parent->0 as int].children.contains(c as nat)
    } by {
        assert(more[c] == s[c]);
        let p = s[c].parent->0 as int;
        assert(more[p] == s[p]);
    }
    assert forall|e: int| 0 <= e < more.len() implies (#[trigger] more[e]).children.no_duplicates() by {
        if e < s.len() {
            assert(more[e] == s[e]);
        }
    }
}

/// The hierarchy stays sound. An empty store is sound, and every operation
/// that succeeds on a sound store leaves a sound store: an immediate spawn,
/// the reservation of an entity for a deferred spawn, the application of
/// deferred commands, and a pass.
pub proof fn law_hierarchy_stays_sound(
    s: StoreView,
    registry: RegistryView,
    request: RequestView,
    queue: Seq<(nat, RequestView)>,
    from: nat,
)
    requires
        consistent(s),
    ensures
        consistent(StoreView::empty()),
        spawn_now(s, registry, request) matches Ok(grown) ==> consistent(grown),
        s.len() < capacity() ==> consistent(s.push(empty_entity())),
        flush(s, registry, queue, from) matches Ok(flushed) ==> consistent(flushed),
        pass(s, registry) matches Ok(grown) ==> consistent(grown),
    decreases queue.len() - from,
{
    law_pass_drains(s, registry);
    if s.len() < capacity() {
        lemma_reserve_consistent(s);
        if refusal(s, registry, request) is None {
            let more = s.push(empty_entity());
            lemma_populate_consistent(more, registry, s.len() as int, request);
            law_pass_drains(place(s, registry, request), registry);
        }
    }
    if from < queue.len() {
        let (entity, wanted) = queue[from as int];
        if entity < s.len() && missing_key(registry, wanted) is None {
            let after = populate(s, registry, entity as int, wanted);
            lemma_populate_consistent(s, registry, entity as int, wanted);
            law_hierarchy_stays_sound(after, registry, request, queue, from + 1);
        }
    }
}

} // verus!
