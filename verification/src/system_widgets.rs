/// A base widget that fills its bounds with a background and border, based
/// on the settings in its properties.  Custom widgets can use it as the
/// top-level container for their own drawing.
pub mod base_widget;
