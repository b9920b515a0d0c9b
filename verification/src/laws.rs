use vstd::prelude::*;

use crate::caches::contains_point;
use crate::caches::drawn;
use crate::caches::hit_children;
use crate::caches::hit_node;
use crate::caches::hit_spec;
use crate::caches::lemma_plan_children_ids;
use crate::caches::lemma_same_structure_wf;
use crate::caches::node_cleared;
use crate::caches::op_of;
use crate::caches::plan;
use crate::caches::plan_children;
use crate::caches::plan_ids;
use crate::caches::plan_node;
use crate::caches::wf_nodes;
use crate::caches::DrawOp;
use crate::caches::NodeView;
use crate::properties::hidden_of;
use crate::properties::invalidated_of;
use crate::properties::pair_of;
use crate::properties::PROPERTY_ORIGIN;
use crate::properties::PROPERTY_SIZE;

verus! {

/// Inserting a widget registers it under its parent: the parent's child
/// list ends with the fresh id, and the fresh widget points back at the
/// parent.  The hypotheses are exactly what `WidgetCache::add` ensures of
/// the store before and after a successful insertion.
pub proof fn lemma_add_registers_child(
    pre: Seq<NodeView>,
    post: Seq<NodeView>,
    parent_id: u32,
    id: u32,
)
    requires
        (parent_id as int) < post.len(),
        (id as int) < post.len(),
        post[parent_id as int].children == pre[parent_id as int].children.push(id),
        post[id as int].parent == parent_id,
    ensures
        post[parent_id as int].children.len() >= 1,
        post[parent_id as int].children.last() == id,
        post[parent_id as int].children.contains(id),
        post[post[id as int].parent as int].children.contains(id),
{
    let kids = post[parent_id as int].children;
    assert(kids[kids.len() - 1] == id);
}

/// The shape a draw pass reads off a widget: tree structure, visibility
/// and geometry.  Lowering dirty flags changes none of it.
pub open spec fn same_shape(a: NodeView, b: NodeView) -> bool {
    &&& b.parent == a.parent
    &&& b.children == a.children
    &&& hidden_of(b.props) == hidden_of(a.props)
    &&& pair_of(b.props, PROPERTY_ORIGIN, 0, 0) == pair_of(a.props, PROPERTY_ORIGIN, 0, 0)
    &&& pair_of(b.props, PROPERTY_SIZE, 0, 0) == pair_of(a.props, PROPERTY_SIZE, 0, 0)
}

/// The compositing step `op` with its render flag recomputed against the
/// property maps in `nodes`.
pub open spec fn re_rendered(op: DrawOp, nodes: Seq<NodeView>) -> DrawOp {
    DrawOp {
        id: op.id,
        x: op.x,
        y: op.y,
        w: op.w,
        h: op.h,
        render: invalidated_of(nodes[op.id as int].props),
    }
}

/// Two stores of the same shape plan the same pass below a widget, step
/// for step, up to the render flags, which each store reads off its own
/// property maps.
proof fn lemma_plan_shape_node(n1: Seq<NodeView>, n2: Seq<NodeView>, c: u32)
    requires
        wf_nodes(n1),
        wf_nodes(n2),
        n1.len() == n2.len(),
        forall|i: int| 0 <= i < n1.len() ==> same_shape(n1[i], #[trigger] n2[i]),
        (c as int) < n1.len(),
    ensures
        plan_node(n2, c).len() == plan_node(n1, c).len(),
        forall|t: int|
            0 <= t < plan_node(n1, c).len() ==> #[trigger] plan_node(n2, c)[t] == re_rendered(
                plan_node(n1, c)[t],
                n2,
            ),
    decreases n1.len() - c, 1int, 0int,
{
    assert(same_shape(n1[c as int], n2[c as int]));
    if hidden_of(n1[c as int].props) {
    } else {
        let kids = n1[c as int].children;
        assert(n2[c as int].children == kids);
        lemma_plan_shape_children(n1, n2, kids, c);
        assert(op_of(n2, c) == re_rendered(op_of(n1, c), n2));
        assert forall|t: int| 0 <= t < plan_node(n1, c).len() implies #[trigger] plan_node(
            n2,
            c,
        )[t] == re_rendered(plan_node(n1, c)[t], n2) by {
            if t == 0 {
                assert(plan_node(n1, c)[0] == op_of(n1, c));
                assert(plan_node(n2, c)[0] == op_of(n2, c));
            } else {
                assert(plan_node(n1, c)[t] == plan_children(n1, kids, c)[t - 1]);
                assert(plan_node(n2, c)[t] == plan_children(n2, kids, c)[t - 1]);
            }
        }
    }
}

/// As `lemma_plan_shape_node`, for a run of siblings.
proof fn lemma_plan_shape_children(n1: Seq<NodeView>, n2: Seq<NodeView>, kids: Seq<u32>, lb: u32)
    requires
        wf_nodes(n1),
        wf_nodes(n2),
        n1.len() == n2.len(),
        forall|i: int| 0 <= i < n1.len() ==> same_shape(n1[i], #[trigger] n2[i]),
        (lb as int) < n1.len(),
        forall|k: int|
            0 <= k < kids.len() ==> lb < (#[trigger] kids[k]) && (kids[k] as int) < n1.len(),
    ensures
        plan_children(n2, kids, lb).len() == plan_children(n1, kids, lb).len(),
        forall|t: int|
            0 <= t < plan_children(n1, kids, lb).len() ==> #[trigger] plan_children(
                n2,
                kids,
                lb,
            )[t] == re_rendered(plan_children(n1, kids, lb)[t], n2),
    decreases n1.len() - lb, 0int, kids.len(),
{
    if kids.len() == 0 {
    } else {
        lemma_plan_shape_children(n1, n2, kids.drop_last(), lb);
        lemma_plan_shape_node(n1, n2, kids.last());
        let f1 = plan_children(n1, kids.drop_last(), lb);
        let b1 = plan_node(n1, kids.last());
        let f2 = plan_children(n2, kids.drop_last(), lb);
        let b2 = plan_node(n2, kids.last());
        assert forall|t: int| 0 <= t < plan_children(n1, kids, lb).len() implies
            #[trigger] plan_children(n2, kids, lb)[t] == re_rendered(
            plan_children(n1, kids, lb)[t],
            n2,
        ) by {
            if t < f1.len() {
                assert(plan_children(n1, kids, lb)[t] == f1[t]);
                assert(plan_children(n2, kids, lb)[t] == f2[t]);
            } else {
                assert(plan_children(n1, kids, lb)[t] == b1[t - f1.len()]);
                assert(plan_children(n2, kids, lb)[t] == b2[t - f2.len()]);
            }
        }
    }
}

/// Drawing is idempotent.  A draw pass reads only shape, which it never
/// changes, so once a pass has consumed the pending invalidation events of
/// the widgets it composites, a second pass with no mutation in between
/// makes the very same compositing steps at the very same places, finds
/// nothing left to re-render, and changes the store not at all.  Provided
/// the widgets the pass does not visit were already clean, it also leaves
/// every widget's dirty flag false.
pub proof fn lemma_draw_idempotent(nodes: Seq<NodeView>, id: u32)
    requires
        wf_nodes(nodes),
        (id as int) < nodes.len(),
        forall|i: int|
            0 <= i < nodes.len() && !plan_ids(plan(nodes, id)).contains(i as u32)
                ==> !invalidated_of((#[trigger] nodes[i]).props),
    ensures
        wf_nodes(drawn(nodes, id)),
        plan(drawn(nodes, id), id).len() == plan(nodes, id).len(),
        forall|t: int|
            0 <= t < plan(nodes, id).len() ==> #[trigger] plan(drawn(nodes, id), id)[t]
                == re_rendered(plan(nodes, id)[t], drawn(nodes, id)),
        forall|t: int|
            0 <= t < plan(drawn(nodes, id), id).len() ==> !(#[trigger] plan(
                drawn(nodes, id),
                id,
            )[t]).render,
        drawn(drawn(nodes, id), id) == drawn(nodes, id),
        forall|i: int|
            0 <= i < nodes.len() ==> !invalidated_of((#[trigger] drawn(nodes, id)[i]).props),
{
    let d = drawn(nodes, id);
    assert forall|i: int| 0 <= i < nodes.len() implies same_shape(nodes[i], #[trigger] d[i]) by {
        if plan_ids(plan(nodes, id)).contains(i as u32) {
            assert(d[i] == node_cleared(nodes[i]));
        } else {
            assert(d[i] == nodes[i]);
        }
    }
    assert forall|i: int| 0 <= i < nodes.len() implies (#[trigger] d[i]).parent == nodes[i].parent
        && d[i].children == nodes[i].children by {}
    lemma_same_structure_wf(nodes, d);
    assert(d[id as int].children == nodes[id as int].children);
    lemma_plan_shape_children(nodes, d, nodes[id as int].children, id);
    lemma_plan_children_ids(nodes, nodes[id as int].children, id);
    assert(plan(d, id).len() == plan(nodes, id).len());
    // every step of the second pass names a widget the first pass cleared
    assert forall|t: int| 0 <= t < plan(nodes, id).len() implies !(#[trigger] plan(d, id)[t]).render
        && !invalidated_of(d[plan(nodes, id)[t].id as int].props) by {
        let op = plan(nodes, id)[t];
        assert(plan_ids(plan(nodes, id))[t] == op.id);
        assert(plan_ids(plan(nodes, id)).contains(op.id));
        assert((op.id as int) < nodes.len());
        assert(d[op.id as int] == node_cleared(nodes[op.id as int]));
        assert(plan(d, id)[t] == re_rendered(op, d));
    }
    // the two passes touch the same ids
    assert forall|u: u32| plan_ids(plan(d, id)).contains(u) == plan_ids(plan(nodes, id)).contains(
        u,
    ) by {
        if plan_ids(plan(d, id)).contains(u) {
            let t = choose|t: int|
                0 <= t < plan_ids(plan(d, id)).len() && plan_ids(plan(d, id))[t] == u;
            assert(plan(d, id)[t] == re_rendered(plan(nodes, id)[t], d));
            assert(plan_ids(plan(nodes, id))[t] == u);
        }
        if plan_ids(plan(nodes, id)).contains(u) {
            let t = choose|t: int|
                0 <= t < plan_ids(plan(nodes, id)).len() && plan_ids(plan(nodes, id))[t] == u;
            assert(plan(d, id)[t] == re_rendered(plan(nodes, id)[t], d));
            assert(plan_ids(plan(d, id))[t] == u);
        }
    }
    // a second pass changes nothing: lowering a lowered flag is a no-op
    assert forall|i: int| 0 <= i < d.len() implies #[trigger] drawn(d, id)[i] == d[i] by {
        if plan_ids(plan(d, id)).contains(i as u32) {
            assert(plan_ids(plan(nodes, id)).contains(i as u32));
            assert(d[i] == node_cleared(nodes[i]));
            assert(node_cleared(d[i]).props =~= d[i].props);
            assert(drawn(d, id)[i] == node_cleared(d[i]));
        } else {
            assert(!plan_ids(plan(nodes, id)).contains(i as u32));
        }
    }
    assert(drawn(d, id) =~= d);
    // and after the first pass every widget is clean
    assert forall|i: int| 0 <= i < nodes.len() implies !invalidated_of(
        (#[trigger] drawn(nodes, id)[i]).props,
    ) by {
        if plan_ids(plan(nodes, id)).contains(i as u32) {
            assert(d[i] == node_cleared(nodes[i]));
        } else {
            assert(d[i] == nodes[i]);
        }
    }
}

/// Later siblings are painted on top.  When the last child of the root is
/// visible, childless and contains the point, the hit-test resolves to it,
/// whatever overlapping siblings were painted below it earlier.
pub proof fn lemma_occlusion_topmost(nodes: Seq<NodeView>, x: u32, y: u32)
    requires
        wf_nodes(nodes),
        nodes[0].children.len() >= 1,
        ({
            let b = nodes[0].children.last();
            &&& !hidden_of(nodes[b as int].props)
            &&& contains_point(nodes[b as int], x, y)
            &&& nodes[b as int].children.len() == 0
        }),
    ensures
        hit_spec(nodes, x, y) == nodes[0].children.last(),
{
    let kids = nodes[0].children;
    let b = kids.last();
    assert(kids[kids.len() - 1] == b);
    assert(0 < b && (b as int) < nodes.len());
    let m = hit_children(nodes, kids.drop_last(), x, y, 0, 0);
    assert(hit_spec(nodes, x, y) == hit_node(nodes, b, x, y, m));
    assert(hit_node(nodes, b, x, y, m) == hit_children(
        nodes,
        nodes[b as int].children,
        x,
        y,
        b,
        b,
    ));
}

/// Whether neither `w` nor any of its ancestors is hidden, so that a draw
/// pass from the root composites it and the hit-test may resolve to it.
/// The root itself backs the surface and is always reachable.
pub open spec fn visibly_reachable(nodes: Seq<NodeView>, w: u32) -> bool
    decreases w,
        when wf_nodes(nodes) && (w as int) < nodes.len()
{
    if w == 0 {
        true
    } else {
        &&& !hidden_of(nodes[w as int].props)
        &&& visibly_reachable(nodes, nodes[w as int].parent)
    }
}

/// Whether `a` is a strict ancestor of `d` in the cached tree.
pub open spec fn is_ancestor_of(nodes: Seq<NodeView>, a: u32, d: u32) -> bool
    decreases d,
        when wf_nodes(nodes) && (d as int) < nodes.len()
{
    if d == 0 {
        false
    } else {
        let p = nodes[d as int].parent;
        p == a || is_ancestor_of(nodes, a, p)
    }
}

/// Nothing at or below a hidden widget is visibly reachable.
proof fn lemma_hidden_not_reachable(nodes: Seq<NodeView>, h: u32, w: u32)
    requires
        wf_nodes(nodes),
        0 < h,
        (h as int) < nodes.len(),
        hidden_of(nodes[h as int].props),
        (w as int) < nodes.len(),
        w == h || is_ancestor_of(nodes, h, w),
    ensures
        !visibly_reachable(nodes, w),
    decreases w,
{
    if w == h {
    } else {
        assert(w != 0);
        let p = nodes[w as int].parent;
        assert(p == h || is_ancestor_of(nodes, h, p));
        lemma_hidden_not_reachable(nodes, h, p);
    }
}

/// Visiting one widget leaves the hit either at the accumulator or at a
/// visibly reachable widget.
proof fn lemma_hit_node_reachable(nodes: Seq<NodeView>, c: u32, x: u32, y: u32, acc: u32)
    requires
        wf_nodes(nodes),
        0 < c,
        (c as int) < nodes.len(),
        visibly_reachable(nodes, nodes[c as int].parent),
    ensures
        hit_node(nodes, c, x, y, acc) == acc || ({
            let r = hit_node(nodes, c, x, y, acc);
            &&& 0 < r
            &&& (r as int) < nodes.len()
            &&& visibly_reachable(nodes, r)
            &&& contains_point(nodes[r as int], x, y)
        }),
    decreases nodes.len() - c, 1int, 0int,
{
    if hidden_of(nodes[c as int].props) {
    } else {
        assert(visibly_reachable(nodes, c));
        let acc2 = if contains_point(nodes[c as int], x, y) {
            c
        } else {
            acc
        };
        assert forall|k: int| 0 <= k < nodes[c as int].children.len() implies c < (
        #[trigger] nodes[c as int].children[k]) && (nodes[c as int].children[k] as int)
            < nodes.len() && nodes[nodes[c as int].children[k] as int].parent == c by {}
        lemma_hit_children_reachable(nodes, nodes[c as int].children, x, y, acc2, c);
    }
}

/// As `lemma_hit_node_reachable`, for a run of siblings.
proof fn lemma_hit_children_reachable(
    nodes: Seq<NodeView>,
    kids: Seq<u32>,
    x: u32,
    y: u32,
    acc: u32,
    lb: u32,
)
    requires
        wf_nodes(nodes),
        (lb as int) < nodes.len(),
        visibly_reachable(nodes, lb),
        forall|k: int|
            0 <= k < kids.len() ==> lb < (#[trigger] kids[k]) && (kids[k] as int) < nodes.len()
                && nodes[kids[k] as int].parent == lb,
    ensures
        hit_children(nodes, kids, x, y, acc, lb) == acc || ({
            let r = hit_children(nodes, kids, x, y, acc, lb);
            &&& 0 < r
            &&& (r as int) < nodes.len()
            &&& visibly_reachable(nodes, r)
            &&& contains_point(nodes[r as int], x, y)
        }),
    decreases nodes.len() - lb, 0int, kids.len(),
{
    if kids.len() == 0 {
    } else {
        lemma_hit_children_reachable(nodes, kids.drop_last(), x, y, acc, lb);
        let m = hit_children(nodes, kids.drop_last(), x, y, acc, lb);
        assert(kids[kids.len() - 1] == kids.last());
        lemma_hit_node_reachable(nodes, kids.last(), x, y, m);
    }
}

/// A nonzero hit is meaningful: it names a widget of the store that is
/// visible, has no hidden ancestor, and whose rectangle contains the
/// point.  When no such widget exists the hit-test falls back to the
/// root, which backs the whole surface.
pub proof fn lemma_hit_is_sound(nodes: Seq<NodeView>, x: u32, y: u32)
    requires
        wf_nodes(nodes),
    ensures
        hit_spec(nodes, x, y) == 0 || ({
            let r = hit_spec(nodes, x, y);
            &&& (r as int) < nodes.len()
            &&& visibly_reachable(nodes, r)
            &&& contains_point(nodes[r as int], x, y)
        }),
{
    assert(visibly_reachable(nodes, 0));
    assert forall|k: int| 0 <= k < nodes[0].children.len() implies 0 < (
    #[trigger] nodes[0].children[k]) && (nodes[0].children[k] as int) < nodes.len()
        && nodes[nodes[0].children[k] as int].parent == 0 by {}
    lemma_hit_children_reachable(nodes, nodes[0].children, x, y, 0, 0);
}

/// Hiding a widget excludes its whole subtree from hit-testing: for every
/// point, the resolved id is neither the hidden widget itself nor any of
/// its descendants, even where a descendant's rectangle contains the
/// point.
pub proof fn lemma_hidden_never_hit(nodes: Seq<NodeView>, h: u32, x: u32, y: u32)
    requires
        wf_nodes(nodes),
        0 < h,
        (h as int) < nodes.len(),
        hidden_of(nodes[h as int].props),
    ensures
        hit_spec(nodes, x, y) != h,
        !is_ancestor_of(nodes, h, hit_spec(nodes, x, y)),
{
    let r = hit_spec(nodes, x, y);
    assert(visibly_reachable(nodes, 0));
    assert forall|k: int| 0 <= k < nodes[0].children.len() implies 0 < (
    #[trigger] nodes[0].children[k]) && (nodes[0].children[k] as int) < nodes.len()
        && nodes[nodes[0].children[k] as int].parent == 0 by {}
    lemma_hit_children_reachable(nodes, nodes[0].children, x, y, 0, 0);
    if r == 0 {
        assert(!is_ancestor_of(nodes, h, 0));
    } else {
        if r == h || is_ancestor_of(nodes, h, r) {
            lemma_hidden_not_reachable(nodes, h, r);
            assert(false);
        }
    }
}


/// The last widget among `ids`, scanned from the back, whose rectangle
/// contains the point; `acc` when none does.
pub open spec fn last_containing(
    nodes: Seq<NodeView>,
    ids: Seq<u32>,
    x: u32,
    y: u32,
    acc: u32,
) -> u32
    decreases ids.len(),
{
    if ids.len() == 0 {
        acc
    } else if (ids.last() as int) < nodes.len() && contains_point(nodes[ids.last() as int], x, y) {
        ids.last()
    } else {
        last_containing(nodes, ids.drop_last(), x, y, acc)
    }
}

/// Scanning a concatenation from the back first scans the front half into
/// the accumulator.
proof fn lemma_last_containing_append(
    nodes: Seq<NodeView>,
    a: Seq<u32>,
    b: Seq<u32>,
    x: u32,
    y: u32,
    acc: u32,
)
    ensures
        last_containing(nodes, a + b, x, y, acc) == last_containing(
            nodes,
            b,
            x,
            y,
            last_containing(nodes, a, x, y, acc),
        ),
    decreases b.len(),
{
    if b.len() == 0 {
        assert(a + b =~= a);
    } else {
        assert((a + b).last() == b.last());
        assert((a + b).drop_last() =~= a + b.drop_last());
        lemma_last_containing_append(nodes, a, b.drop_last(), x, y, acc);
    }
}

/// Visiting one widget hits exactly the last step of its plan that
/// contains the point, or leaves the accumulator.
proof fn lemma_hit_matches_plan_node(nodes: Seq<NodeView>, c: u32, x: u32, y: u32, acc: u32)
    requires
        wf_nodes(nodes),
        (c as int) < nodes.len(),
    ensures
        hit_node(nodes, c, x, y, acc) == last_containing(
            nodes,
            plan_ids(plan_node(nodes, c)),
            x,
            y,
            acc,
        ),
    decreases nodes.len() - c, 1int, 0int,
{
    if hidden_of(nodes[c as int].props) {
        assert(plan_ids(plan_node(nodes, c)) =~= Seq::<u32>::empty());
    } else {
        let kids = nodes[c as int].children;
        let acc2 = if contains_point(nodes[c as int], x, y) {
            c
        } else {
            acc
        };
        lemma_hit_matches_plan_children(nodes, kids, x, y, acc2, c);
        let rest = plan_ids(plan_children(nodes, kids, c));
        assert forall|t: int| 0 <= t < rest.len() implies (seq![c] + rest)[t + 1] == rest[t] by {}
        assert(plan_ids(plan_node(nodes, c)) =~= seq![c] + rest);
        lemma_last_containing_append(nodes, seq![c], rest, x, y, acc);
        assert(seq![c].last() == c);
        assert(seq![c].drop_last() =~= Seq::<u32>::empty());
        assert(last_containing(nodes, Seq::<u32>::empty(), x, y, acc) == acc);
        assert(last_containing(nodes, seq![c], x, y, acc) == acc2);
    }
}

/// As `lemma_hit_matches_plan_node`, for a run of siblings.
proof fn lemma_hit_matches_plan_children(
    nodes: Seq<NodeView>,
    kids: Seq<u32>,
    x: u32,
    y: u32,
    acc: u32,
    lb: u32,
)
    requires
        wf_nodes(nodes),
        (lb as int) < nodes.len(),
        forall|k: int|
            0 <= k < kids.len() ==> lb < (#[trigger] kids[k]) && (kids[k] as int) < nodes.len(),
    ensures
        hit_children(nodes, kids, x, y, acc, lb) == last_containing(
            nodes,
            plan_ids(plan_children(nodes, kids, lb)),
            x,
            y,
            acc,
        ),
    decreases nodes.len() - lb, 0int, kids.len(),
{
    if kids.len() == 0 {
    } else {
        lemma_hit_matches_plan_children(nodes, kids.drop_last(), x, y, acc, lb);
        let m = hit_children(nodes, kids.drop_last(), x, y, acc, lb);
        lemma_hit_matches_plan_node(nodes, kids.last(), x, y, m);
        let front = plan_ids(plan_children(nodes, kids.drop_last(), lb));
        let back = plan_ids(plan_node(nodes, kids.last()));
        assert(plan_ids(plan_children(nodes, kids, lb)) =~= front + back);
        lemma_last_containing_append(nodes, front, back, x, y, acc);
    }
}

/// Occlusion, in full: the hit-test resolves to the last widget of the
/// draw plan whose rectangle contains the point, or to the root when none
/// does.  The draw plan composites back-to-front, so this is precisely the
/// topmost widget painted over the point, with hidden subtrees taking part
/// in neither.
pub proof fn lemma_hit_is_topmost(nodes: Seq<NodeView>, x: u32, y: u32)
    requires
        wf_nodes(nodes),
    ensures
        hit_spec(nodes, x, y) == last_containing(nodes, plan_ids(plan(nodes, 0)), x, y, 0),
{
    lemma_hit_matches_plan_children(nodes, nodes[0].children, x, y, 0, 0);
}

} // verus!
