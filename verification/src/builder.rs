//! Authoring of pending-children ledgers.

use crate::bundle::{Bundle, ChildRequest, SpawnChildren};
use crate::key::SpawnKey;
use crate::model::{BundleView, RequestView};
use vstd::prelude::*;

verus! {

/// Collects the child requests of one ledger, in the order in which they are
/// asked for.
pub struct SpawnChildBuilder {
    children: SpawnChildren,
}

impl View for SpawnChildBuilder {
    type V = Seq<RequestView>;

    closed spec fn view(&self) -> Seq<RequestView> {
        self.children@
    }
}

impl SpawnChildBuilder {
    /// Asks for a child from an inline constructor.
    pub fn spawn(&mut self, spawnable: Bundle) -> (again: &mut Self)
        ensures
            again@ == old(self)@.push(RequestView::Inline(spawnable@)),
            *final(self) == *final(again),
    {
        self.children.add_child(spawnable);
        self
    }

    /// Asks for a child from the prototype registered under `key`.
    pub fn spawn_key(&mut self, key: SpawnKey) -> (again: &mut Self)
        ensures
            again@ == old(self)@.push(RequestView::ByKey(key@)),
            *final(self) == *final(again),
    {
        self.children.add_child_with_key(key);
        self
    }

    /// Asks for a child from the prototype registered under `key`, with
    /// `bundle` merged in after it.
    pub fn spawn_key_with(&mut self, key: SpawnKey, bundle: Bundle) -> (again: &mut Self)
        ensures
            again@ == old(self)@.push(RequestView::ByKeyWith(key@, bundle@)),
            *final(self) == *final(again),
    {
        self.children.push(ChildRequest::ByKeyWith(key, bundle));
        self
    }
}

/// Builds a ledger: `f` is handed an empty builder, and the ledger holds what
/// `f` has asked for when it returns.
#[must_use]
pub fn spawn_children<F: FnOnce(&mut SpawnChildBuilder)>(f: F) -> (children: SpawnChildren)
    requires
        forall|builder: &mut SpawnChildBuilder|
            builder@.len() == 0 ==> #[trigger] f.requires((builder,)),
    ensures
        exists|builder: &mut SpawnChildBuilder|
            {
                &&& builder@.len() == 0
                &&& #[trigger] f.ensures((builder,), ())
                &&& children@ == final(builder)@
            },
{
    let mut builder = SpawnChildBuilder { children: SpawnChildren::new() };
    f(&mut builder);
    builder.children
}

/// Attaching children to a bundle.
pub trait WithChildren: View<V = BundleView> + Sized {
    /// The bundle with the ledger that `f` builds: `f` is handed an empty
    /// builder, and the ledger holds what `f` has asked for when it returns.
    /// A ledger that the bundle carried before is replaced.
    fn with_children<F: FnOnce(&mut SpawnChildBuilder)>(self, f: F) -> (bundle: Bundle)
        requires
            forall|builder: &mut SpawnChildBuilder|
                builder@.len() == 0 ==> #[trigger] f.requires((builder,)),
        ensures
            bundle@.components == self@.components,
            exists|builder: &mut SpawnChildBuilder|
                {
                    &&& builder@.len() == 0
                    &&& #[trigger] f.ensures((builder,), ())
                    &&& bundle@.children == Some(final(builder)@)
                },
    ;
}

impl WithChildren for Bundle {
    fn with_children<F: FnOnce(&mut SpawnChildBuilder)>(self, f: F) -> (bundle: Bundle) {
        let children = spawn_children(f);
        Bundle { components: self.components, children: Some(children) }
    }
}

} // verus!
