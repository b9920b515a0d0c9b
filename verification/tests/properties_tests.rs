use pushrod_widgets::properties::Color;
use pushrod_widgets::properties::PropertyValue;
use pushrod_widgets::properties::WidgetProperties;
use pushrod_widgets::properties::PROPERTY_HIDDEN;
use pushrod_widgets::properties::PROPERTY_INVALIDATED;
use pushrod_widgets::properties::PROPERTY_MAIN_COLOR;
use pushrod_widgets::properties::PROPERTY_TEXT;
use pushrod_widgets::widget::Widget;
use pushrod_widgets::system_widgets::base_widget::BaseWidget;

#[test]
fn absent_keys_read_defaults() {
    let p = WidgetProperties::default();
    assert_eq!(p.get_bounds(), (0, 0));
    assert_eq!(p.get_origin(), (0, 0));
    assert!(!p.get_bool(PROPERTY_HIDDEN));
    let fallback = Color::rgb(7, 8, 9);
    assert_eq!(p.get_color(PROPERTY_MAIN_COLOR, fallback), fallback);
    assert_eq!(p.get(PROPERTY_TEXT), PropertyValue::Text(String::new()));
}

#[test]
fn set_get_delete_roundtrip() {
    let mut p = WidgetProperties::default();
    p.set(PROPERTY_TEXT, PropertyValue::Text(String::from("hello")));
    assert!(p.key_set(PROPERTY_TEXT));
    assert_eq!(p.get(PROPERTY_TEXT), PropertyValue::Text(String::from("hello")));
    p.delete(PROPERTY_TEXT);
    assert!(!p.key_set(PROPERTY_TEXT));
    assert_eq!(p.get(PROPERTY_TEXT), PropertyValue::Text(String::new()));
}

#[test]
fn malformed_values_read_as_defaults() {
    let mut p = WidgetProperties::default();
    // a color stored where the getters expect a pair, and the other way round
    p.set(
        pushrod_widgets::properties::PROPERTY_SIZE,
        PropertyValue::Color(Color::rgb(1, 2, 3)),
    );
    p.set(PROPERTY_MAIN_COLOR, PropertyValue::Pair(4, 5));
    assert_eq!(p.get_bounds(), (0, 0));
    let fallback = Color::rgb(9, 9, 9);
    assert_eq!(p.get_color(PROPERTY_MAIN_COLOR, fallback), fallback);
    assert!(!p.get_bool(PROPERTY_MAIN_COLOR));
}

#[test]
fn set_bounds_and_color_invalidate_set_origin_does_not() {
    let mut p = WidgetProperties::default();
    p.set_bounds(10, 20);
    assert!(p.key_set(PROPERTY_INVALIDATED));
    assert_eq!(p.get_bounds(), (10, 20));

    let mut q = WidgetProperties::default();
    q.set_color(PROPERTY_MAIN_COLOR, Color::rgba(1, 2, 3, 4));
    assert!(q.key_set(PROPERTY_INVALIDATED));
    assert_eq!(q.get_color(PROPERTY_MAIN_COLOR, Color::rgb(0, 0, 0)), Color::rgba(1, 2, 3, 4));

    let mut r = WidgetProperties::default();
    r.set_origin(30, 40);
    assert!(!r.key_set(PROPERTY_INVALIDATED));
    assert_eq!(r.get_origin(), (30, 40));
}

#[test]
fn set_bool_reads_back_true() {
    let mut p = WidgetProperties::default();
    p.set_bool(PROPERTY_HIDDEN);
    assert!(p.get_bool(PROPERTY_HIDDEN));
}

#[test]
fn color_channels() {
    let c = Color::rgb(10, 20, 30);
    assert_eq!((c.r, c.g, c.b, c.a), (10, 20, 30, 255));
    let d = Color::rgba(1, 2, 3, 4);
    assert_eq!((d.r, d.g, d.b, d.a), (1, 2, 3, 4));
}

#[test]
fn invalidation_is_observed_exactly_once() {
    let mut w = BaseWidget::default();
    assert!(!w.is_invalidated());
    w.invalidate();
    assert!(w.is_invalidated());
    // the peek does not consume the event
    assert!(w.is_invalidated());
    // the consuming read observes it exactly once
    assert!(w.take_invalidated());
    assert!(!w.take_invalidated());
    assert!(!w.is_invalidated());
    // the next event is observed again
    w.invalidate();
    assert!(w.take_invalidated());
    assert!(!w.take_invalidated());
}

#[test]
fn widget_set_property_reads_back() {
    let mut w = BaseWidget::default();
    w.set_property(PROPERTY_TEXT, PropertyValue::Text(String::from("label")));
    assert_eq!(
        w.properties().get(PROPERTY_TEXT),
        PropertyValue::Text(String::from("label"))
    );
}

#[test]
fn property_mutation_that_invalidates_raises_the_flag_once() {
    let mut w = BaseWidget::default();
    w.properties().set_bounds(64, 64);
    assert!(w.take_invalidated());
    assert!(!w.take_invalidated());
    // repositioning is a recomposite, not a re-render: no event
    w.properties().set_origin(5, 5);
    assert!(!w.take_invalidated());
}
