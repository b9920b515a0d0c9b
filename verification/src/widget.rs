use vstd::prelude::*;

use crate::properties::invalidated_of;
use crate::properties::PropertyValue;
use crate::properties::WidgetProperties;
use crate::properties::PROPERTY_INVALIDATED;

verus! {

/// The capability that every widget provides: access to its property store,
/// plus the invalidation protocol that dirty-tracking relies on.  Only the
/// property accessors and the initial state must be implemented; the
/// protocol methods have default implementations in terms of them.
///
/// Rendering is deliberately not part of this capability: the widget cache
/// reports which widgets must be composited where, and a backend maps each
/// widget to its drawn surface.
pub trait Widget: Sized {
    /// The widget's property map, as specification-level data.  A widget
    /// implementation that takes part in the proofs overrides this with
    /// the map its property store holds; the default leaves the map
    /// unspecified, which is all that holds of an implementation outside
    /// the proofs.
    open spec fn props(&self) -> Map<u32, PropertyValue> {
        vstd::pervasive::arbitrary()
    }

    /// A widget in its initial state, with an empty property store.
    fn fresh() -> (w: Self)
        ensures
            w.props() == Map::<u32, PropertyValue>::empty(),
    ;

    /// Exclusive access to this widget's property store.
    fn properties(&mut self) -> (p: &mut WidgetProperties)
        ensures
            (*p)@ == old(self).props(),
            final(self).props() == (*final(p))@,
    ;

    /// Shared access to this widget's property store.
    fn properties_ref(&self) -> (p: &WidgetProperties)
        ensures
            p@ == self.props(),
    ;

    /// Sets a property for the widget.
    fn set_property(&mut self, property_key: u32, property_value: PropertyValue)
        ensures
            final(self).props() == old(self).props().insert(property_key, property_value),
    {
        let p = self.properties();
        p.set(property_key, property_value);
    }

    /// Marks the widget as needing a redraw.
    fn invalidate(&mut self)
        ensures
            final(self).props() == old(self).props().insert(
                PROPERTY_INVALIDATED,
                PropertyValue::Flag(true),
            ),
    {
        let p = self.properties();
        p.invalidate();
    }

    /// Consuming read of the invalidated state: reports whether the widget
    /// needs its surface redrawn and clears the flag, so that each
    /// invalidation event is observed by rendering exactly once.
    fn take_invalidated(&mut self) -> (r: bool)
        ensures
            r == invalidated_of(old(self).props()),
            final(self).props() == old(self).props().remove(PROPERTY_INVALIDATED),
    {
        let p = self.properties();
        let r = p.key_set(PROPERTY_INVALIDATED);
        p.delete(PROPERTY_INVALIDATED);
        r
    }

    /// Non-consuming peek of the invalidated state, used by the global
    /// "is a draw pass worth doing at all" check.
    fn is_invalidated(&self) -> (r: bool)
        ensures
            r == invalidated_of(self.props()),
    {
        self.properties_ref().key_set(PROPERTY_INVALIDATED)
    }
}

/// One invalidation event is observed by exactly one consuming read: the
/// event raises the flag, the consuming read reports it and lowers it, and
/// further consuming reads report `false` until the next event.  Writing a
/// property other than the flag leaves the flag as it was.
pub proof fn lemma_invalidation_observed_once(
    m: Map<u32, PropertyValue>,
    key: u32,
    value: PropertyValue,
)
    ensures
        invalidated_of(m.insert(PROPERTY_INVALIDATED, PropertyValue::Flag(true))),
        !invalidated_of(
            m.insert(PROPERTY_INVALIDATED, PropertyValue::Flag(true)).remove(PROPERTY_INVALIDATED),
        ),
        !invalidated_of(m.remove(PROPERTY_INVALIDATED)),
        key != PROPERTY_INVALIDATED ==> invalidated_of(m.insert(key, value)) == invalidated_of(m),
{
}

} // verus!
