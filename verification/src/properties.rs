use std::collections::HashMap;
use vstd::prelude::*;

verus! {

broadcast use vstd::std_specs::hash::group_hash_axioms;

/// Key reserved for widgets that a native layer adds on its own.
pub const PROPERTY_NATIVE_WIDGET_ADDER: u32 = 0;

/// Key of the dirty flag: present when the widget must be redrawn.
pub const PROPERTY_INVALIDATED: u32 = 1;

/// Key of the visibility flag: set to `true` to hide a widget.
pub const PROPERTY_HIDDEN: u32 = 2;

/// Key of the widget's origin, a pair of screen coordinates.
pub const PROPERTY_ORIGIN: u32 = 3;

/// Key of the widget's size, a width/height pair.
pub const PROPERTY_SIZE: u32 = 4;

/// Key of the widget's text contents.
pub const PROPERTY_TEXT: u32 = 5;

/// Key of the widget's main (fill) color.
pub const PROPERTY_MAIN_COLOR: u32 = 6;

/// Key of the widget's background color.
pub const PROPERTY_BACKGROUND_COLOR: u32 = 7;

/// Key of the widget's border color.
pub const PROPERTY_BORDER_COLOR: u32 = 8;

/// Key of the widget's border width.
pub const PROPERTY_BORDER_WIDTH: u32 = 9;

/// An RGBA color with 8-bit channels.
#[derive(Clone, Copy, Debug, PartialEq, Eq, Structural)]
pub struct Color {
    pub r: u8,
    pub g: u8,
    pub b: u8,
    pub a: u8,
}

impl Color {
    /// An opaque color from red, green and blue channels.
    pub fn rgb(r: u8, g: u8, b: u8) -> (c: Color)
        ensures
            c == (Color { r, g, b, a: 255u8 }),
    {
        Color { r, g, b, a: 255 }
    }

    /// A color from red, green, blue and alpha channels.
    pub fn rgba(r: u8, g: u8, b: u8, a: u8) -> (c: Color)
        ensures
            c == (Color { r, g, b, a }),
    {
        Color { r, g, b, a }
    }
}

/// A typed property value.  Geometry is stored as native pairs, colors as
/// [`Color`], flags as booleans and text as strings; no encoding is involved.
#[derive(Debug, PartialEq, Eq)]
pub enum PropertyValue {
    /// A text value.
    Text(String),
    /// A pair of coordinates or dimensions.
    Pair(u32, u32),
    /// A color value.
    Color(Color),
    /// A boolean flag.
    Flag(bool),
}

/// True when the property map carries the dirty flag.  The flag is a matter
/// of key presence, whatever value the key holds.
pub open spec fn invalidated_of(m: Map<u32, PropertyValue>) -> bool {
    m.contains_key(PROPERTY_INVALIDATED)
}

/// The boolean read of a property key: `true` exactly when the key is set
/// to the flag value `true`; absent or differently-typed values read `false`.
pub open spec fn bool_of(m: Map<u32, PropertyValue>, key: u32) -> bool {
    m.contains_key(key) && m[key] == PropertyValue::Flag(true)
}

/// True when the property map marks the widget hidden.
pub open spec fn hidden_of(m: Map<u32, PropertyValue>) -> bool {
    bool_of(m, PROPERTY_HIDDEN)
}

/// The pair read of a property key, falling back to the given default when
/// the key is absent or holds a value of another type.
pub open spec fn pair_of(m: Map<u32, PropertyValue>, key: u32, dw: u32, dh: u32) -> (u32, u32) {
    if m.contains_key(key) {
        match m[key] {
            PropertyValue::Pair(a, b) => (a, b),
            _ => (dw, dh),
        }
    } else {
        (dw, dh)
    }
}

/// The color read of a property key, falling back to the given default when
/// the key is absent or holds a value of another type.
pub open spec fn color_of(m: Map<u32, PropertyValue>, key: u32, d: Color) -> Color {
    if m.contains_key(key) {
        match m[key] {
            PropertyValue::Color(c) => c,
            _ => d,
        }
    } else {
        d
    }
}

/// The store of properties that defines a widget's behavior.  Its view is
/// the mapping from property keys to values; a key that is absent reads as
/// the type-specific default and is never an error.
pub struct WidgetProperties {
    properties: HashMap<u32, PropertyValue>,
}

impl View for WidgetProperties {
    type V = Map<u32, PropertyValue>;

    closed spec fn view(&self) -> Map<u32, PropertyValue> {
        self.properties@
    }
}

impl Default for WidgetProperties {
    /// An empty property store: every typed getter reads its default.
    fn default() -> (r: WidgetProperties)
        ensures
            r@ == Map::<u32, PropertyValue>::empty(),
    {
        WidgetProperties { properties: HashMap::new() }
    }
}

impl WidgetProperties {
    /// Sets a value for a property based on its numerical key.
    pub fn set(&mut self, property_key: u32, property_value: PropertyValue)
        ensures
            final(self)@ == old(self)@.insert(property_key, property_value),
    {
        self.properties.insert(property_key, property_value);
    }

    /// Deletes a property value for the given numerical key.
    pub fn delete(&mut self, property_key: u32)
        ensures
            final(self)@ == old(self)@.remove(property_key),
    {
        self.properties.remove(&property_key);
    }

    /// Retrieves the value for a property; an unset key reads as empty text.
    pub fn get(&self, property_key: u32) -> (r: PropertyValue)
        ensures
            self@.contains_key(property_key) ==> r == self@[property_key],
            !self@.contains_key(property_key) ==> (r matches PropertyValue::Text(s) && s@
                == Seq::<char>::empty()),
    {
        match self.properties.get(&property_key) {
            Some(v) => Self::copy_value(v),
            None => PropertyValue::Text(String::new()),
        }
    }

    /// A fresh value equal to the referenced one.
    fn copy_value(v: &PropertyValue) -> (r: PropertyValue)
        ensures
            r == *v,
    {
        match v {
            PropertyValue::Text(s) => PropertyValue::Text(s.clone()),
            PropertyValue::Pair(a, b) => PropertyValue::Pair(*a, *b),
            PropertyValue::Color(c) => PropertyValue::Color(*c),
            PropertyValue::Flag(b) => PropertyValue::Flag(*b),
        }
    }

    /// Returns a flag indicating whether a property for a numerical key has
    /// been set.
    pub fn key_set(&self, property_key: u32) -> (r: bool)
        ensures
            r == self@.contains_key(property_key),
    {
        self.properties.contains_key(&property_key)
    }

    /// Sets the invalidated state, marking the widget as needing a redraw.
    pub fn invalidate(&mut self)
        ensures
            final(self)@ == old(self)@.insert(PROPERTY_INVALIDATED, PropertyValue::Flag(true)),
            invalidated_of(final(self)@),
    {
        self.set(PROPERTY_INVALIDATED, PropertyValue::Flag(true));
    }

    /// Stores the color for the specified key and sets the invalidate flag:
    /// a changed color requires the widget's surface to be re-rendered.
    pub fn set_color(&mut self, property_key: u32, color: Color)
        ensures
            final(self)@ == old(self)@.insert(property_key, PropertyValue::Color(color)).insert(
                PROPERTY_INVALIDATED,
                PropertyValue::Flag(true),
            ),
    {
        self.set(property_key, PropertyValue::Color(color));
        self.invalidate();
    }

    /// Sets the size of the widget and sets the invalidate flag afterward:
    /// the widget's contents must be re-rendered at the new bounds.
    pub fn set_bounds(&mut self, w: u32, h: u32)
        ensures
            final(self)@ == old(self)@.insert(PROPERTY_SIZE, PropertyValue::Pair(w, h)).insert(
                PROPERTY_INVALIDATED,
                PropertyValue::Flag(true),
            ),
    {
        self.set(PROPERTY_SIZE, PropertyValue::Pair(w, h));
        self.invalidate();
    }

    /// Sets the origin for the widget.  Does not set the invalidate flag, as
    /// repositioning only recomposites the cached surface and requires no
    /// repaint of its contents.
    pub fn set_origin(&mut self, x: u32, y: u32)
        ensures
            final(self)@ == old(self)@.insert(PROPERTY_ORIGIN, PropertyValue::Pair(x, y)),
    {
        self.set(PROPERTY_ORIGIN, PropertyValue::Pair(x, y));
    }

    /// Sets a boolean for a given property key.
    pub fn set_bool(&mut self, property_key: u32)
        ensures
            final(self)@ == old(self)@.insert(property_key, PropertyValue::Flag(true)),
    {
        self.set(property_key, PropertyValue::Flag(true));
    }

    /// Retrieves a color based on the given property key.  If no color is
    /// stored there, the specified `default_color` is returned.
    pub fn get_color(&self, property_key: u32, default_color: Color) -> (c: Color)
        ensures
            c == color_of(self@, property_key, default_color),
    {
        match self.properties.get(&property_key) {
            Some(PropertyValue::Color(c)) => *c,
            _ => default_color,
        }
    }

    /// Retrieves the stored pair for a key, or the default when the key is
    /// absent or holds a value of another type.
    fn get_pair(&self, property_key: u32, default_pair: (u32, u32)) -> (r: (u32, u32))
        ensures
            r == pair_of(self@, property_key, default_pair.0, default_pair.1),
    {
        match self.properties.get(&property_key) {
            Some(PropertyValue::Pair(a, b)) => (*a, *b),
            _ => default_pair,
        }
    }

    /// Retrieves the stored bounds as a tuple.  If no bounds have been set,
    /// invisible bounds (0x0) are returned.
    pub fn get_bounds(&self) -> (r: (u32, u32))
        ensures
            r == pair_of(self@, PROPERTY_SIZE, 0, 0),
    {
        self.get_pair(PROPERTY_SIZE, (0, 0))
    }

    /// Retrieves the origin of the widget.  If no origin has been set, an
    /// origin of 0x0 is returned.
    pub fn get_origin(&self) -> (r: (u32, u32))
        ensures
            r == pair_of(self@, PROPERTY_ORIGIN, 0, 0),
    {
        self.get_pair(PROPERTY_ORIGIN, (0, 0))
    }

    /// Retrieves the boolean value for a specified property.  Absent keys
    /// and values of another type read `false`.
    pub fn get_bool(&self, property_key: u32) -> (r: bool)
        ensures
            r == bool_of(self@, property_key),
    {
        match self.properties.get(&property_key) {
            Some(PropertyValue::Flag(b)) => *b,
            _ => false,
        }
    }
}

} // verus!
