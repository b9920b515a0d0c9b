use vstd::prelude::*;

use crate::properties::PropertyValue;
use crate::properties::WidgetProperties;
use crate::widget::Widget;

verus! {

/// The base widget: a plain rectangle whose fill, border and geometry are
/// all taken from its property store.  It carries no state of its own
/// beyond the properties, so it also serves as a pure logical container.
pub struct BaseWidget {
    properties: WidgetProperties,
}

impl Default for BaseWidget {
    /// A base widget with an empty property store.
    fn default() -> (r: BaseWidget)
        ensures
            r.props() == Map::<u32, PropertyValue>::empty(),
    {
        BaseWidget { properties: WidgetProperties::default() }
    }
}

impl Widget for BaseWidget {
    closed spec fn props(&self) -> Map<u32, PropertyValue> {
        self.properties@
    }

    fn fresh() -> (w: BaseWidget) {
        BaseWidget { properties: WidgetProperties::default() }
    }

    fn properties(&mut self) -> (p: &mut WidgetProperties) {
        &mut self.properties
    }

    fn properties_ref(&self) -> (p: &WidgetProperties) {
        &self.properties
    }
}

} // verus!
