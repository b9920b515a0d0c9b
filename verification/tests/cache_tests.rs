use pushrod_widgets::caches::CacheError;
use pushrod_widgets::caches::DrawOp;
use pushrod_widgets::caches::WidgetCache;
use pushrod_widgets::properties::PROPERTY_HIDDEN;
use pushrod_widgets::system_widgets::base_widget::BaseWidget;
use pushrod_widgets::widget::Widget;

fn widget_at(x: u32, y: u32, w: u32, h: u32) -> BaseWidget {
    let mut widget = BaseWidget::default();
    widget.properties().set_origin(x, y);
    widget.properties().set_bounds(w, h);
    widget
}

#[test]
fn new_store_holds_only_the_root() {
    let store: WidgetCache<BaseWidget> = WidgetCache::new(800, 600);
    assert_eq!(store.size(), 1);
    assert_eq!(store.get_by_name(String::from("root")), Ok(0));
    assert_eq!(store.get_parent_of(0), Ok(0));
    assert_eq!(store.get_children_of(0), Ok(Vec::new()));
    assert!(!store.invalidated());
}

#[test]
fn add_registers_the_new_widget_under_its_parent() {
    let mut store: WidgetCache<BaseWidget> = WidgetCache::new(800, 600);
    let a = store.add(BaseWidget::default(), String::from("a"), 0).unwrap();
    assert_eq!(a, 1);
    let b = store.add(BaseWidget::default(), String::from("b"), 0).unwrap();
    assert_eq!(b, 2);
    let c = store.add(BaseWidget::default(), String::from("c"), a).unwrap();
    assert_eq!(c, 3);

    // the parent's child list ends with the fresh id
    assert_eq!(store.get_children_of(0), Ok(vec![1, 2]));
    assert_eq!(store.get_children_of(a), Ok(vec![3]));
    assert_eq!(store.get_children_of(b), Ok(Vec::new()));
    assert_eq!(store.get_parent_of(a), Ok(0));
    assert_eq!(store.get_parent_of(b), Ok(0));
    assert_eq!(store.get_parent_of(c), Ok(a));
    assert_eq!(store.size(), 4);
}

#[test]
fn add_to_a_missing_parent_fails_without_corrupting_state() {
    let mut store: WidgetCache<BaseWidget> = WidgetCache::new(100, 100);
    let r = store.add(BaseWidget::default(), String::from("stray"), 7);
    assert_eq!(r, Err(CacheError::StructuralError));
    assert_eq!(store.size(), 1);
    assert_eq!(store.get_by_name(String::from("stray")), Err(CacheError::NotFound));
}

#[test]
fn add_forces_the_first_paint() {
    let mut store: WidgetCache<BaseWidget> = WidgetCache::new(100, 100);
    assert!(!store.invalidated());
    store.add(BaseWidget::default(), String::from("a"), 0).unwrap();
    assert!(store.invalidated());
}

#[test]
fn lookups_by_name_and_id() {
    let mut store: WidgetCache<BaseWidget> = WidgetCache::new(100, 100);
    let a = store.add(BaseWidget::default(), String::from("alpha"), 0).unwrap();
    assert_eq!(store.get_by_name(String::from("alpha")), Ok(a));
    assert_eq!(store.get_by_name(String::from("beta")), Err(CacheError::NotFound));
    assert!(store.get(a).is_ok());
    assert!(matches!(store.get(99), Err(CacheError::NotFound)));
    assert_eq!(store.get_parent_of(99), Err(CacheError::NotFound));
    assert_eq!(store.get_children_of(99), Err(CacheError::NotFound));
}

#[test]
fn hit_test_respects_bounds_and_falls_back_to_root() {
    let mut store: WidgetCache<BaseWidget> = WidgetCache::new(800, 600);
    let a = store.add(widget_at(0, 0, 10, 10), String::from("a"), 0).unwrap();
    let b = store.add(widget_at(20, 20, 10, 10), String::from("b"), 0).unwrap();
    assert_eq!(store.id_at_point(5, 5), a);
    assert_eq!(store.id_at_point(25, 25), b);
    assert_eq!(store.id_at_point(15, 15), 0);
    // edges: the origin is inside, origin plus bounds is outside
    assert_eq!(store.id_at_point(0, 0), a);
    assert_eq!(store.id_at_point(9, 9), a);
    assert_eq!(store.id_at_point(10, 10), 0);
}

#[test]
fn hit_test_prefers_the_topmost_overlapping_sibling() {
    let mut store: WidgetCache<BaseWidget> = WidgetCache::new(800, 600);
    let a = store.add(widget_at(0, 0, 10, 10), String::from("under"), 0).unwrap();
    let b = store.add(widget_at(0, 0, 10, 10), String::from("over"), 0).unwrap();
    assert_ne!(store.id_at_point(5, 5), a);
    assert_eq!(store.id_at_point(5, 5), b);
}

#[test]
fn hit_test_descends_into_children_painted_on_top() {
    let mut store: WidgetCache<BaseWidget> = WidgetCache::new(800, 600);
    let panel = store.add(widget_at(0, 0, 100, 100), String::from("panel"), 0).unwrap();
    let button = store.add(widget_at(10, 10, 20, 20), String::from("button"), panel).unwrap();
    assert_eq!(store.id_at_point(15, 15), button);
    assert_eq!(store.id_at_point(50, 50), panel);
}

#[test]
fn hidden_widgets_and_their_subtrees_are_never_hit() {
    let mut store: WidgetCache<BaseWidget> = WidgetCache::new(800, 600);
    let panel = store.add(widget_at(0, 0, 100, 100), String::from("panel"), 0).unwrap();
    let child = store.add(widget_at(10, 10, 20, 20), String::from("child"), panel).unwrap();
    assert_eq!(store.id_at_point(15, 15), child);
    store.get(panel).unwrap().properties().set_bool(PROPERTY_HIDDEN);
    // neither the hidden parent nor its child resolves, even inside the
    // child's own rectangle
    assert_eq!(store.id_at_point(15, 15), 0);
    assert_eq!(store.id_at_point(50, 50), 0);
}

#[test]
fn hiding_only_a_child_keeps_the_parent_hittable() {
    let mut store: WidgetCache<BaseWidget> = WidgetCache::new(800, 600);
    let panel = store.add(widget_at(0, 0, 100, 100), String::from("panel"), 0).unwrap();
    let child = store.add(widget_at(10, 10, 20, 20), String::from("child"), panel).unwrap();
    store.get(child).unwrap().properties().set_bool(PROPERTY_HIDDEN);
    assert_eq!(store.id_at_point(15, 15), panel);
}

#[test]
fn draw_composites_visible_widgets_in_paint_order() {
    let mut store: WidgetCache<BaseWidget> = WidgetCache::new(800, 600);
    let panel = store.add(widget_at(0, 0, 100, 100), String::from("panel"), 0).unwrap();
    let button = store.add(widget_at(10, 10, 20, 20), String::from("button"), panel).unwrap();
    let side = store.add(widget_at(200, 0, 50, 50), String::from("side"), 0).unwrap();

    let mut ops: Vec<DrawOp> = Vec::new();
    store.draw(0, &mut ops).unwrap();
    let ids: Vec<u32> = ops.iter().map(|op| op.id).collect();
    assert_eq!(ids, vec![panel, button, side]);
    assert!(ops.iter().all(|op| op.render));
    assert_eq!((ops[1].x, ops[1].y, ops[1].w, ops[1].h), (10, 10, 20, 20));
}

#[test]
fn draw_skips_hidden_subtrees() {
    let mut store: WidgetCache<BaseWidget> = WidgetCache::new(800, 600);
    let panel = store.add(widget_at(0, 0, 100, 100), String::from("panel"), 0).unwrap();
    let _child = store.add(widget_at(10, 10, 20, 20), String::from("child"), panel).unwrap();
    let side = store.add(widget_at(200, 0, 50, 50), String::from("side"), 0).unwrap();
    store.get(panel).unwrap().properties().set_bool(PROPERTY_HIDDEN);

    let mut ops: Vec<DrawOp> = Vec::new();
    store.draw(0, &mut ops).unwrap();
    let ids: Vec<u32> = ops.iter().map(|op| op.id).collect();
    assert_eq!(ids, vec![side]);
    // the hidden subtree keeps its pending events for when it is shown
    assert!(store.invalidated());
}

#[test]
fn draw_on_a_missing_widget_reports_not_found() {
    let mut store: WidgetCache<BaseWidget> = WidgetCache::new(100, 100);
    let mut ops: Vec<DrawOp> = Vec::new();
    assert_eq!(store.draw(42, &mut ops), Err(CacheError::NotFound));
    assert!(ops.is_empty());
}

#[test]
fn draw_twice_is_idempotent() {
    let mut store: WidgetCache<BaseWidget> = WidgetCache::new(800, 600);
    store.add(widget_at(0, 0, 100, 100), String::from("panel"), 0).unwrap();
    store.add(widget_at(200, 0, 50, 50), String::from("side"), 0).unwrap();

    let mut first: Vec<DrawOp> = Vec::new();
    store.draw(0, &mut first).unwrap();
    assert!(!store.invalidated());

    let mut second: Vec<DrawOp> = Vec::new();
    store.draw(0, &mut second).unwrap();
    assert!(!store.invalidated());

    // same compositing steps at the same places, nothing left to render
    assert_eq!(first.len(), second.len());
    for (f, s) in first.iter().zip(second.iter()) {
        assert_eq!((f.id, f.x, f.y, f.w, f.h), (s.id, s.x, s.y, s.w, s.h));
        assert!(f.render);
        assert!(!s.render);
    }
}

#[test]
fn end_to_end_panel_scenario() {
    let mut store: WidgetCache<BaseWidget> = WidgetCache::new(800, 600);
    let panel = store.add(widget_at(10, 10, 100, 50), String::from("panel"), 0).unwrap();
    assert_eq!(panel, 1);
    assert!(store.invalidated());

    let mut ops: Vec<DrawOp> = Vec::new();
    store.draw(0, &mut ops).unwrap();
    // exactly one render falls on the panel
    let renders: Vec<u32> = ops.iter().filter(|op| op.render).map(|op| op.id).collect();
    assert_eq!(renders, vec![panel]);

    assert!(!store.invalidated());

    let mut again: Vec<DrawOp> = Vec::new();
    store.draw(0, &mut again).unwrap();
    assert_eq!(again.iter().filter(|op| op.render).count(), 0);
}

#[test]
fn moving_a_widget_recomposites_without_re_rendering() {
    let mut store: WidgetCache<BaseWidget> = WidgetCache::new(800, 600);
    let a = store.add(widget_at(0, 0, 10, 10), String::from("a"), 0).unwrap();
    let mut ops: Vec<DrawOp> = Vec::new();
    store.draw(0, &mut ops).unwrap();
    assert_eq!(store.id_at_point(5, 5), a);

    store.get(a).unwrap().properties().set_origin(50, 50);
    assert_eq!(store.id_at_point(5, 5), 0);
    assert_eq!(store.id_at_point(55, 55), a);

    // repositioning queued no re-render, only a recomposite at the new spot
    let mut moved: Vec<DrawOp> = Vec::new();
    store.draw(0, &mut moved).unwrap();
    assert_eq!((moved[0].x, moved[0].y), (50, 50));
    assert!(!moved[0].render);
}
