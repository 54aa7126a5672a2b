//! Bundles, child requests and pending-children ledgers.

use crate::key::SpawnKey;
use crate::model::{BundleView, RequestView};
use vstd::prelude::*;

verus! {

/// What one resolution installs on an entity: components, named by their
/// identifiers, and optionally a ledger of children to materialise later.
#[derive(Debug)]
pub struct Bundle {
    pub components: Vec<u64>,
    pub children: Option<SpawnChildren>,
}

/// One deferred child-construction request.
#[derive(Debug)]
pub enum ChildRequest {
    /// An inline constructor, used up by the request.
    Inline(Bundle),
    /// A reference to a registered prototype.
    ByKey(SpawnKey),
    /// A reference to a registered prototype and a bundle merged in after it.
    ByKeyWith(SpawnKey, Bundle),
}

/// An ordered list of deferred child-construction requests, carried by the
/// entity that will become their parent.
#[derive(Debug)]
pub struct SpawnChildren {
    requests: Vec<ChildRequest>,
}

/// The model of a bundle.
pub open spec fn bundle_view(bundle: Bundle) -> BundleView
    decreases bundle,
{
    BundleView {
        components: bundle.components@.to_set(),
        children: match bundle.children {
            Some(ledger) => Some(ledger_view(ledger)),
            None => None,
        },
    }
}

/// The model of a request.
pub open spec fn request_view(request: ChildRequest) -> RequestView
    decreases request,
{
    match request {
        ChildRequest::Inline(bundle) => RequestView::Inline(bundle_view(bundle)),
        ChildRequest::ByKey(key) => RequestView::ByKey(key@),
        ChildRequest::ByKeyWith(key, bundle) => RequestView::ByKeyWith(key@, bundle_view(bundle)),
    }
}

/// The model of a ledger: the models of its requests, in request order.
pub closed spec fn ledger_view(ledger: SpawnChildren) -> Seq<RequestView>
    decreases ledger,
{
    Seq::new(
        ledger.requests.len() as nat,
        |i: int|
            if 0 <= i < ledger.requests.len() {
                request_view(ledger.requests[i])
            } else {
                arbitrary()
            },
    )
}

impl View for Bundle {
    type V = BundleView;

    open spec fn view(&self) -> BundleView {
        bundle_view(*self)
    }
}

impl View for ChildRequest {
    type V = RequestView;

    open spec fn view(&self) -> RequestView {
        request_view(*self)
    }
}

impl View for SpawnChildren {
    type V = Seq<RequestView>;

    open spec fn view(&self) -> Seq<RequestView> {
        ledger_view(*self)
    }
}

impl Bundle {
    /// A bundle of the given components that carries no ledger.
    pub fn new(components: Vec<u64>) -> (bundle: Self)
        ensures
            bundle@.components == components@.to_set(),
            bundle@.children is None,
    {
        Bundle { components, children: None }
    }

    /// A copy that installs the same components and the same ledger.
    pub fn duplicate(&self) -> (copy: Self)
        ensures
            copy@ == self@,
        decreases self,
    {
        let components = self.components.clone();
        assert(components@ =~= self.components@);
        let children = match &self.children {
            Some(ledger) => Some(ledger.duplicate()),
            None => None,
        };
        Bundle { components, children }
    }
}

impl ChildRequest {
    /// A copy that asks for the same child.
    pub fn duplicate(&self) -> (copy: Self)
        ensures
            copy@ == self@,
        decreases self,
    {
        match self {
            ChildRequest::Inline(bundle) => ChildRequest::Inline(bundle.duplicate()),
            ChildRequest::ByKey(key) => ChildRequest::ByKey(key.clone()),
            ChildRequest::ByKeyWith(key, bundle) => ChildRequest::ByKeyWith(
                key.clone(),
                bundle.duplicate(),
            ),
        }
    }
}

impl SpawnChildren {
    /// A ledger without requests.
    pub fn new() -> (ledger: Self)
        ensures
            ledger@ == Seq::<RequestView>::empty(),
    {
        let ledger = SpawnChildren { requests: Vec::new() };
        assert(ledger@ =~= Seq::<RequestView>::empty());
        ledger
    }

    /// The number of requests.
    pub fn len(&self) -> (n: usize)
        ensures
            n == self@.len(),
    {
        self.requests.len()
    }

    /// Appends `request` behind the requests that are there.
    pub fn push(&mut self, request: ChildRequest)
        ensures
            final(self)@ == old(self)@.push(request@),
    {
        self.requests.push(request);
        assert(self@ =~= old(self)@.push(request@));
    }

    /// Appends a request for a child from an inline constructor.
    pub fn add_child(&mut self, spawnable: Bundle)
        ensures
            final(self)@ == old(self)@.push(RequestView::Inline(spawnable@)),
    {
        self.push(ChildRequest::Inline(spawnable));
    }

    /// Appends a request for a child from the prototype registered under
    /// `key`.
    pub fn add_child_with_key(&mut self, key: SpawnKey)
        ensures
            final(self)@ == old(self)@.push(RequestView::ByKey(key@)),
    {
        self.push(ChildRequest::ByKey(key));
    }

    /// Hands out the requests, in request order.
    pub fn into_requests(self) -> (requests: Vec<ChildRequest>)
        ensures
            requests.len() == self@.len(),
            forall|i: int| 0 <= i < requests.len() ==> (#[trigger] requests[i])@ == self@[i],
    {
        self.requests
    }

    /// A copy that holds the same requests in the same order.
    pub fn duplicate(&self) -> (copy: Self)
        ensures
            copy@ == self@,
        decreases self,
    {
        let mut requests: Vec<ChildRequest> = Vec::new();
        let mut i: usize = 0;
        while i < self.requests.len()
            invariant
                i <= self.requests.len(),
                requests.len() == i,
                forall|j: int| 0 <= j < i ==> (#[trigger] requests[j])@ == self.requests[j]@,
            decreases self.requests.len() - i,
        {
            let request = self.requests[i].duplicate();
            requests.push(request);
            i = i + 1;
        }
        let copy = SpawnChildren { requests };
        assert(copy@ =~= self@);
        copy
    }
}

impl Clone for Bundle {
    fn clone(&self) -> (copy: Self)
        ensures
            copy@ == self@,
    {
        self.duplicate()
    }
}

impl Clone for ChildRequest {
    fn clone(&self) -> (copy: Self)
        ensures
            copy@ == self@,
    {
        self.duplicate()
    }
}

impl Clone for SpawnChildren {
    fn clone(&self) -> (copy: Self)
        ensures
            copy@ == self@,
    {
        self.duplicate()
    }
}

impl Default for SpawnChildren {
    fn default() -> (ledger: Self)
        ensures
            ledger@ == Seq::<RequestView>::empty(),
    {
        SpawnChildren::new()
    }
}

} // verus!
