//! A retained-mode widget tree for composing interactive UI surfaces.
//!
//! Widgets are flat-stored nodes indexed by dense integer ids.  Each widget
//! owns a property store that drives its behavior and dirty-tracking.  The
//! cache tracks parent/child/name relationships, decides which widgets must
//! be composited (and in what order) on a draw pass, and resolves points to
//! the topmost visible widget.

/// The per-widget property store.  Each property is identified by a numeric
/// (`u32`) key and holds a typed value; absent keys mean "use the default."
pub mod properties;

/// The `Widget` trait that all drawable widgets implement.  A widget's
/// behavior is defined by interactions with its property store; widgets are
/// marked `invalidated` when their rendered surface must be refreshed.
pub mod widget;

/// Stock widgets shipped with the library.
pub mod system_widgets;

/// The widget cache: a flat, id-indexed store of widgets that maintains the
/// tree structure, the invalidation protocol, the draw-pass plan, and point
/// hit-testing.
pub mod caches;

/// Library-level laws: proofs that the invalidation protocol, the draw
/// pass and the hit-test behave as documented, stated over the cache's
/// specification-level model.
pub mod laws;
