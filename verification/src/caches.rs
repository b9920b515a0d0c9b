use vstd::prelude::*;

use crate::properties::hidden_of;
use crate::properties::invalidated_of;
use crate::properties::pair_of;
use crate::properties::PropertyValue;
use crate::properties::PROPERTY_HIDDEN;
use crate::properties::PROPERTY_INVALIDATED;
use crate::properties::PROPERTY_ORIGIN;
use crate::properties::PROPERTY_SIZE;
use crate::widget::Widget;

verus! {

/// Errors reported by the widget cache.  Every fallible operation reports
/// one of these instead of corrupting state or panicking.
#[derive(Clone, Copy, Debug, PartialEq, Eq, Structural)]
pub enum CacheError {
    /// An insertion referenced a parent id that does not exist.
    StructuralError,
    /// An id or a name that names no widget in the cache.
    NotFound,
}

/// The specification-level image of one cached widget: its property map,
/// its display name, its parent id and its children in paint order.
pub struct NodeView {
    pub props: Map<u32, PropertyValue>,
    pub name: Seq<char>,
    pub parent: u32,
    pub children: Seq<u32>,
}

/// Well-formedness of the cached tree.  Ids are dense indices; node 0 is
/// the self-parented root; every widget's parent was inserted before it;
/// child lists hold exactly the ids whose parent field points back at the
/// list's owner, in increasing insertion order.
pub open spec fn wf_nodes(nodes: Seq<NodeView>) -> bool {
    &&& 1 <= nodes.len() <= 0xffff_ffff
    &&& nodes[0].parent == 0
    &&& forall|j: int| 1 <= j < nodes.len() ==> (#[trigger] nodes[j].parent) < j
    &&& forall|i: int, k: int|
        0 <= i < nodes.len() && 0 <= k < nodes[i].children.len() ==> i < (
        #[trigger] nodes[i].children[k]) < nodes.len()
    &&& forall|i: int, k: int|
        0 <= i < nodes.len() && 0 <= k < nodes[i].children.len() ==> nodes[(
        #[trigger] nodes[i].children[k]) as int].parent == i
    &&& forall|i: int, k1: int, k2: int|
        0 <= i < nodes.len() && 0 <= k1 < k2 < nodes[i].children.len() ==> (
        #[trigger] nodes[i].children[k1]) < (#[trigger] nodes[i].children[k2])
    &&& forall|j: int|
        1 <= j < nodes.len() ==> nodes[nodes[j].parent as int].children.contains(j as u32)
}

/// One entry of the widget cache: a widget, its display name, its parent
/// id, and the ids of its children in insertion (= paint) order.
pub struct WidgetCacheContainer<W> {
    widget: W,
    name: String,
    parent: u32,
    children: Vec<u32>,
}

/// The image of one cache entry as specification-level data.
pub closed spec fn container_view<W: Widget>(c: WidgetCacheContainer<W>) -> NodeView {
    NodeView { props: c.widget.props(), name: c.name@, parent: c.parent, children: c.children@ }
}

/// The images of a whole run of cache entries.
pub closed spec fn views_of<W: Widget>(s: Seq<WidgetCacheContainer<W>>) -> Seq<NodeView> {
    Seq::new(s.len(), |i: int| container_view(s[i]))
}

impl<W: Widget> WidgetCacheContainer<W> {
    /// A fresh entry for a widget with no children yet.
    pub fn new(widget: W, name: String, parent: u32) -> (r: WidgetCacheContainer<W>)
        ensures
            container_view(r) == (NodeView {
                props: widget.props(),
                name: name@,
                parent,
                children: Seq::<u32>::empty(),
            }),
    {
        WidgetCacheContainer { widget, name, parent, children: Vec::new() }
    }
}

/// The widget cache: all widgets in one flat, id-indexed store, together
/// with the tree structure used for drawing and hit-testing.  Ids are
/// assigned densely at insertion time and never reused; the store only
/// grows.  Entry 0 is the implicit root container, created at construction
/// and sized to the full surface.
pub struct WidgetCache<W: Widget> {
    cache: Vec<WidgetCacheContainer<W>>,
}

impl<W: Widget> View for WidgetCache<W> {
    type V = Seq<NodeView>;

    closed spec fn view(&self) -> Seq<NodeView> {
        views_of(self.cache@)
    }
}

impl<W: Widget> WidgetCache<W> {
    /// Well-formedness of the cache; established by `new` and preserved by
    /// every operation.
    pub open spec fn wf(&self) -> bool {
        wf_nodes(self@)
    }

    /// Creates a new cache whose only entry is the root widget, named
    /// `root`, sized to the surface and owning id 0.  The root starts
    /// clean: the first invalidation event comes from the first insertion
    /// or property mutation.
    pub fn new(w: u32, h: u32) -> (r: WidgetCache<W>)
        ensures
            r.wf(),
            r@.len() == 1,
            r@[0].props == Map::<u32, PropertyValue>::empty().insert(
                PROPERTY_SIZE,
                PropertyValue::Pair(w, h),
            ),
            r@[0].name == "root"@,
            r@[0].parent == 0,
            r@[0].children == Seq::<u32>::empty(),
    {
        let mut base_widget = W::fresh();
        let p = base_widget.properties();
        p.set(PROPERTY_SIZE, PropertyValue::Pair(w, h));
        let mut cache: Vec<WidgetCacheContainer<W>> = Vec::new();
        cache.push(WidgetCacheContainer::new(base_widget, root_name(), 0));
        let r = WidgetCache { cache };
        proof {
            assert(r@ =~= Seq::<NodeView>::empty().push(r@[0]));
        }
        r
    }

    /// Retrieves the total number of widgets in the cache.
    pub fn size(&self) -> (r: u32)
        requires
            self.wf(),
        ensures
            r as int == self@.len(),
    {
        self.cache.len() as u32
    }

    /// Adds a new widget to the cache under the given name, registering it
    /// as the last child of `parent_id` and handing back its fresh id.  The
    /// widget is invalidated on the way in, so its first paint always
    /// renders.  Fails without touching the cache when `parent_id` does not
    /// exist.
    pub fn add(&mut self, widget: W, widget_name: String, parent_id: u32) -> (r: Result<
        u32,
        CacheError,
    >)
        requires
            old(self).wf(),
            old(self)@.len() < 0xffff_ffff,
        ensures
            final(self).wf(),
            (parent_id as int) < old(self)@.len() ==> ({
                let pre = old(self)@;
                let post = final(self)@;
                let pidx = parent_id as int;
                &&& r matches Ok(id)
                &&& (r matches Ok(id) ==> {
                    &&& id as int == pre.len()
                    &&& post.len() == pre.len() + 1
                    &&& post[id as int] == (NodeView {
                        props: widget.props().insert(
                            crate::properties::PROPERTY_INVALIDATED,
                            PropertyValue::Flag(true),
                        ),
                        name: widget_name@,
                        parent: parent_id,
                        children: Seq::<u32>::empty(),
                    })
                    &&& post[pidx].children == pre[pidx].children.push(id)
                    &&& post[pidx].props == pre[pidx].props
                    &&& post[pidx].name == pre[pidx].name
                    &&& post[pidx].parent == pre[pidx].parent
                    &&& forall|i: int|
                        0 <= i < pre.len() && i != pidx ==> post[i] == pre[i]
                })
            }),
            (parent_id as int) >= old(self)@.len() ==> r == Err::<u32, CacheError>(
                CacheError::StructuralError,
            ) && final(self)@ == old(self)@,
    {
        let parent_usize = parent_id as usize;
        if parent_usize >= self.cache.len() {
            return Err(CacheError::StructuralError);
        }
        let mut widget = widget;
        // Invalidate the widget on the way in, so its first paint renders.
        widget.invalidate();
        let widget_id = self.cache.len() as u32;
        self.cache.push(WidgetCacheContainer::new(widget, widget_name, parent_id));
        self.cache[parent_usize].children.push(widget_id);
        proof {
            lemma_add_wf(old(self)@, self@, parent_id as int, widget_id);
        }
        Ok(widget_id)
    }

    /// Retrieves the parent id of the widget id specified.  The root is its
    /// own parent.
    pub fn get_parent_of(&self, widget_id: u32) -> (r: Result<u32, CacheError>)
        ensures
            (widget_id as int) < self@.len() ==> r == Ok::<u32, CacheError>(
                self@[widget_id as int].parent,
            ),
            (widget_id as int) >= self@.len() ==> r == Err::<u32, CacheError>(CacheError::NotFound),
    {
        if (widget_id as usize) < self.cache.len() {
            Ok(self.cache[widget_id as usize].parent)
        } else {
            Err(CacheError::NotFound)
        }
    }

    /// Retrieves the ids of the children of the specified widget, in paint
    /// order.  A widget without children yields an empty list.
    pub fn get_children_of(&self, widget_id: u32) -> (r: Result<Vec<u32>, CacheError>)
        ensures
            (widget_id as int) < self@.len() ==> (r matches Ok(v) && v@ == self@[widget_id as int].children),
            (widget_id as int) >= self@.len() ==> (r matches Err(e) && e == CacheError::NotFound),
    {
        let idx = widget_id as usize;
        if idx >= self.cache.len() {
            return Err(CacheError::NotFound);
        }
        let n = self.cache[idx].children.len();
        let mut out: Vec<u32> = Vec::new();
        let mut k: usize = 0;
        while k < n
            invariant
                n == self.cache@[idx as int].children@.len(),
                idx < self.cache@.len(),
                0 <= k <= n,
                out@ == self.cache@[idx as int].children@.take(k as int),
            decreases n - k,
        {
            out.push(self.cache[idx].children[k]);
            proof {
                assert(out@ =~= self.cache@[idx as int].children@.take(k + 1));
            }
            k += 1;
        }
        proof {
            assert(out@ =~= self@[widget_id as int].children);
        }
        Ok(out)
    }

    /// Retrieves the id of the first widget carrying the given name, or
    /// reports that no widget carries it.
    pub fn get_by_name(&self, name: String) -> (r: Result<u32, CacheError>)
        requires
            self.wf(),
        ensures
            r matches Ok(i) ==> (i as int) < self@.len() && self@[i as int].name == name@ && (forall|
                j: int,
            |
                0 <= j < i as int ==> self@[j].name != name@),
            r matches Err(e) ==> e == CacheError::NotFound && (forall|j: int|
                0 <= j < self@.len() ==> self@[j].name != name@),
    {
        let n = self.cache.len();
        let mut i: usize = 0;
        while i < n
            invariant
                self.wf(),
                n == self@.len(),
                0 <= i <= n,
                forall|j: int| 0 <= j < i as int ==> self@[j].name != name@,
            decreases n - i,
        {
            if self.cache[i].name == name {
                return Ok(i as u32);
            }
            i += 1;
        }
        Err(CacheError::NotFound)
    }

    /// Exclusive access to the widget stored under the given id.  Only the
    /// widget itself is handed out: the tree structure around it cannot
    /// change, so well-formedness survives whatever the caller writes
    /// (see `lemma_same_structure_wf`).
    pub fn get(&mut self, widget_id: u32) -> (r: Result<&mut W, CacheError>)
        requires
            old(self).wf(),
        ensures
            final(self)@.len() == old(self)@.len(),
            (widget_id as int) < old(self)@.len() ==> ({
                let idx = widget_id as int;
                &&& r matches Ok(w)
                &&& (r matches Ok(w) ==> {
                    &&& (*w).props() == old(self)@[idx].props
                    &&& final(self)@[idx] == (NodeView {
                        props: (*final(w)).props(),
                        name: old(self)@[idx].name,
                        parent: old(self)@[idx].parent,
                        children: old(self)@[idx].children,
                    })
                    &&& forall|i: int|
                        0 <= i < old(self)@.len() && i != idx ==> final(self)@[i] == old(self)@[i]
                })
            }),
            (widget_id as int) >= old(self)@.len() ==> (r matches Err(e) && e == CacheError::NotFound
                && final(self)@ == old(self)@),
    {
        let idx = widget_id as usize;
        if idx >= self.cache.len() {
            return Err(CacheError::NotFound);
        }
        let w = &mut self.cache[idx].widget;
        Ok(w)
    }

    /// Determines whether any widget in the cache has indicated that it
    /// needs to be redrawn.  This is a peek: no invalidation flag is
    /// consumed, so the draw pass still observes every pending event.
    pub fn invalidated(&self) -> (r: bool)
        ensures
            r == (exists|i: int|
                0 <= i < self@.len() && invalidated_of(#[trigger] self@[i].props)),
    {
        let n = self.cache.len();
        let mut x: usize = 0;
        while x < n
            invariant
                n == self@.len(),
                0 <= x <= n,
                forall|i: int| 0 <= i < x as int ==> !invalidated_of(#[trigger] self@[i].props),
            decreases n - x,
        {
            if self.cache[x].widget.is_invalidated() {
                proof {
                    assert(invalidated_of(self@[x as int].props));
                }
                return true;
            }
            x += 1;
        }
        false
    }

    /// Appends to `out` the compositing steps for the subtree below
    /// `widget_id`, in paint order, skipping hidden subtrees.
    fn collect_plan(&self, widget_id: u32, out: &mut Vec<DrawOp>)
        requires
            self.wf(),
            (widget_id as int) < self@.len(),
        ensures
            final(out)@ == old(out)@ + plan(self@, widget_id),
        decreases self@.len() - widget_id,
    {
        let idx = widget_id as usize;
        let n = self.cache[idx].children.len();
        let ghost kids = self@[widget_id as int].children;
        proof {
            assert(plan_children(self@, kids.take(0), widget_id) =~= Seq::<DrawOp>::empty());
            assert(out@ =~= out@ + plan_children(self@, kids.take(0), widget_id));
        }
        let mut k: usize = 0;
        while k < n
            invariant
                self.wf(),
                (widget_id as int) < self@.len(),
                self.cache@.len() == self@.len(),
                idx == widget_id as usize,
                kids == self@[widget_id as int].children,
                kids == self.cache@[widget_id as int].children@,
                n == kids.len(),
                0 <= k <= n,
                out@ == old(out)@ + plan_children(self@, kids.take(k as int), widget_id),
            decreases n - k,
        {
            let c = self.cache[idx].children[k];
            proof {
                assert(kids[k as int] == c);
                assert(widget_id < c && (c as int) < self@.len());
            }
            let cidx = c as usize;
            let ghost before = out@;
            let p = self.cache[cidx].widget.properties_ref();
            let hidden = p.get_bool(PROPERTY_HIDDEN);
            if !hidden {
                let origin = p.get_origin();
                let bounds = p.get_bounds();
                let render = p.key_set(PROPERTY_INVALIDATED);
                out.push(
                    DrawOp {
                        id: c,
                        x: origin.0,
                        y: origin.1,
                        w: bounds.0,
                        h: bounds.1,
                        render,
                    },
                );
                proof {
                    assert(self@[c as int].props == p@);
                    assert(out@ =~= before + seq![op_of(self@, c)]);
                }
                self.collect_plan(c, out);
                proof {
                    assert(out@ =~= before + (seq![op_of(self@, c)] + plan(self@, c)));
                    assert(out@ =~= before + plan_node(self@, c));
                }
            } else {
                proof {
                    assert(self@[c as int].props == p@);
                    assert(plan_node(self@, c) =~= Seq::<DrawOp>::empty());
                    assert(out@ =~= before + plan_node(self@, c));
                }
            }
            proof {
                assert(kids.take(k + 1).drop_last() =~= kids.take(k as int));
                assert(kids.take(k + 1).last() == c);
                assert(plan_children(self@, kids.take(k + 1), widget_id) == plan_children(
                    self@,
                    kids.take(k as int),
                    widget_id,
                ) + plan_node(self@, c));
                assert(out@ =~= old(out)@ + plan_children(self@, kids.take(k + 1), widget_id));
            }
            k += 1;
        }
        proof {
            assert(kids.take(n as int) =~= kids);
        }
    }

    /// Runs a draw pass below `widget_id`: appends to `target` one
    /// compositing step for every visible widget of that subtree, in paint
    /// order, and consumes the invalidation flag of each widget the pass
    /// composites.  Widgets under a hidden widget are not visited and keep
    /// any pending flag.  Fails without touching anything when `widget_id`
    /// does not exist.
    pub fn draw(&mut self, widget_id: u32, target: &mut Vec<DrawOp>) -> (r: Result<
        (),
        CacheError,
    >)
        requires
            old(self).wf(),
        ensures
            final(self).wf(),
            final(self)@.len() == old(self)@.len(),
            (widget_id as int) < old(self)@.len() ==> ({
                let ops = plan(old(self)@, widget_id);
                &&& r == Ok::<(), CacheError>(())
                &&& final(target)@ == old(target)@ + ops
                &&& final(self)@ == drawn(old(self)@, widget_id)
            }),
            (widget_id as int) >= old(self)@.len() ==> (r == Err::<(), CacheError>(
                CacheError::NotFound,
            ) && final(self)@ == old(self)@ && final(target)@ == old(target)@),
    {
        let idx = widget_id as usize;
        if idx >= self.cache.len() {
            return Err(CacheError::NotFound);
        }
        let mut ops: Vec<DrawOp> = Vec::new();
        self.collect_plan(widget_id, &mut ops);
        let ghost pre = self@;
        proof {
            assert(ops@ =~= plan(pre, widget_id));
            lemma_plan_children_ids(pre, pre[widget_id as int].children, widget_id);
        }
        let n = ops.len();
        let mut k: usize = 0;
        while k < n
            invariant
                wf_nodes(pre),
                n == ops@.len(),
                ops@ == plan(pre, widget_id),
                forall|t: int|
                    0 <= t < ops@.len() ==> widget_id < (#[trigger] ops@[t]).id && (
                    ops@[t].id as int) < pre.len(),
                0 <= k <= n,
                self@.len() == pre.len(),
                self.cache@.len() == pre.len(),
                forall|i: int|
                    0 <= i < self@.len() ==> #[trigger] self@[i] == cleared_upto(
                        pre,
                        ops@,
                        k as int,
                        i,
                    ),
            decreases n - k,
        {
            let cidx = ops[k].id as usize;
            let ghost snap = self@;
            let p = self.cache[cidx].widget.properties();
            p.delete(PROPERTY_INVALIDATED);
            proof {
                let ci = cidx as int;
                assert(self@[ci].props == snap[ci].props.remove(PROPERTY_INVALIDATED));
                assert forall|i: int| 0 <= i < self@.len() implies #[trigger] self@[i]
                    == cleared_upto(pre, ops@, k + 1, i) by {
                    if i != ci {
                        assert(self@[i] == snap[i]);
                        assert(ops@[k as int].id == ci as u32);
                        assert(i as u32 != ci as u32);
                        assert(cleared_upto(pre, ops@, k + 1, i) == cleared_upto(
                            pre,
                            ops@,
                            k as int,
                            i,
                        )) by {
                            if exists|t: int|
                                0 <= t < k + 1 && (#[trigger] ops@[t]).id == i as u32 {
                                let t = choose|t: int|
                                    0 <= t < k + 1 && (#[trigger] ops@[t]).id == i as u32;
                                assert(t < k);
                            }
                        }
                    } else {
                        assert(snap[ci] == cleared_upto(pre, ops@, k as int, ci));
                        assert(pre[ci].props.remove(PROPERTY_INVALIDATED).remove(
                            PROPERTY_INVALIDATED,
                        ) =~= pre[ci].props.remove(PROPERTY_INVALIDATED));
                        assert(ops@[k as int].id == i as u32);
                        assert(cleared_upto(pre, ops@, k + 1, i) == node_cleared(pre[i]));
                        assert(self@[i] == node_cleared(pre[i]));
                    }
                }
            }
            k += 1;
        }
        proof {
            assert forall|i: int| 0 <= i < self@.len() implies #[trigger] self@[i] == (if plan_ids(
                ops@,
            ).contains(i as u32) {
                node_cleared(pre[i])
            } else {
                pre[i]
            }) by {
                if plan_ids(ops@).contains(i as u32) {
                    let t = choose|t: int|
                        0 <= t < plan_ids(ops@).len() && plan_ids(ops@)[t] == i as u32;
                    assert(ops@[t].id == i as u32);
                    assert(cleared_upto(pre, ops@, n as int, i) == node_cleared(pre[i]));
                } else {
                    assert forall|t: int| 0 <= t < n as int implies (#[trigger] ops@[t]).id
                        != i as u32 by {
                        assert(plan_ids(ops@)[t] == ops@[t].id);
                    }
                    assert(cleared_upto(pre, ops@, n as int, i) == pre[i]);
                }
            }
            assert(self@ =~= drawn(pre, widget_id));
            assert forall|i: int| 0 <= i < self@.len() implies (#[trigger] self@[i]).parent
                == pre[i].parent && self@[i].children == pre[i].children by {}
            lemma_same_structure_wf(pre, self@);
        }
        target.append(&mut ops);
        Ok(())
    }

    /// Retrieves the id of the widget at the given coordinates: the
    /// topmost (last-painted) visible widget whose rectangle contains the
    /// point.  Hidden widgets and their whole subtrees are skipped.  When
    /// no widget contains the point, 0 is returned: the root backs the
    /// full surface.
    pub fn id_at_point(&self, x: u32, y: u32) -> (r: u32)
        requires
            self.wf(),
        ensures
            r == hit_spec(self@, x, y),
    {
        self.hit_below(0, x, y, 0)
    }

    /// Visits the children of `widget_id` in paint order, refining the
    /// best hit found so far.
    fn hit_below(&self, widget_id: u32, x: u32, y: u32, found: u32) -> (r: u32)
        requires
            self.wf(),
            (widget_id as int) < self@.len(),
        ensures
            r == hit_children(self@, self@[widget_id as int].children, x, y, found, widget_id),
        decreases self@.len() - widget_id,
    {
        let idx = widget_id as usize;
        let n = self.cache[idx].children.len();
        let ghost kids = self@[widget_id as int].children;
        proof {
            assert(hit_children(self@, kids.take(0), x, y, found, widget_id) == found);
        }
        let mut acc = found;
        let mut k: usize = 0;
        while k < n
            invariant
                self.wf(),
                (widget_id as int) < self@.len(),
                self.cache@.len() == self@.len(),
                idx == widget_id as usize,
                kids == self@[widget_id as int].children,
                kids == self.cache@[widget_id as int].children@,
                n == kids.len(),
                0 <= k <= n,
                acc == hit_children(self@, kids.take(k as int), x, y, found, widget_id),
            decreases n - k,
        {
            let c = self.cache[idx].children[k];
            proof {
                assert(kids[k as int] == c);
                assert(widget_id < c && (c as int) < self@.len());
            }
            let cidx = c as usize;
            let p = self.cache[cidx].widget.properties_ref();
            let hidden = p.get_bool(PROPERTY_HIDDEN);
            let ghost prev = acc;
            if !hidden {
                let origin = p.get_origin();
                let bounds = p.get_bounds();
                let inside = x >= origin.0 && y >= origin.1 && x - origin.0 < bounds.0 && y
                    - origin.1 < bounds.1;
                proof {
                    assert(self@[c as int].props == p@);
                    assert(inside == contains_point(self@[c as int], x, y));
                }
                let next = if inside {
                    c
                } else {
                    acc
                };
                acc = self.hit_below(c, x, y, next);
            }
            proof {
                assert(self@[c as int].props == p@);
                assert(acc == hit_node(self@, c, x, y, prev));
                assert(kids.take(k + 1).drop_last() =~= kids.take(k as int));
                assert(kids.take(k + 1).last() == c);
                assert(acc == hit_children(self@, kids.take(k + 1), x, y, found, widget_id));
            }
            k += 1;
        }
        proof {
            assert(kids.take(n as int) =~= kids);
        }
        acc
    }
}

/// The name given to the root widget at construction.
fn root_name() -> (r: String)
    ensures
        r@ == "root"@,
{
    let s: &str = "root";
    s.to_string()
}

/// Pushing one widget under an existing parent preserves every structural
/// clause of well-formedness.
proof fn lemma_add_wf(pre: Seq<NodeView>, post: Seq<NodeView>, parent: int, id: u32)
    requires
        wf_nodes(pre),
        pre.len() < 0xffff_ffff,
        0 <= parent < pre.len(),
        id as int == pre.len(),
        post.len() == pre.len() + 1,
        post[id as int] == (NodeView {
            props: post[id as int].props,
            name: post[id as int].name,
            parent: parent as u32,
            children: Seq::<u32>::empty(),
        }),
        post[parent].children == pre[parent].children.push(id),
        post[parent].parent == pre[parent].parent,
        forall|i: int| 0 <= i < pre.len() && i != parent ==> post[i] == pre[i],
    ensures
        wf_nodes(post),
{
    assert forall|i: int, k: int|
        0 <= i < post.len() && 0 <= k < post[i].children.len() implies i < (
    #[trigger] post[i].children[k]) < post.len() by {
        if i == parent {
            if k < pre[parent].children.len() {
                assert(post[i].children[k] == pre[parent].children[k]);
            } else {
                assert(post[i].children[k] == id);
            }
        } else if i < pre.len() {
            assert(post[i] == pre[i]);
        }
    }
    assert forall|i: int, k: int|
        0 <= i < post.len() && 0 <= k < post[i].children.len() implies post[(
    #[trigger] post[i].children[k]) as int].parent == i by {
        if i == parent {
            if k < pre[parent].children.len() {
                let c = pre[parent].children[k];
                assert(parent < c < pre.len());
                assert(pre[c as int].parent == i);
                assert(post[c as int] == pre[c as int]);
            } else {
                assert(post[i].children[k] == id);
            }
        } else if i < pre.len() {
            assert(post[i] == pre[i]);
            let c = pre[i].children[k];
            assert(i < c < pre.len());
            assert(pre[c as int].parent == i);
            if c as int == parent {
                assert(post[parent].parent == pre[parent].parent);
            } else {
                assert(post[c as int] == pre[c as int]);
            }
        }
    }
    assert forall|i: int, k1: int, k2: int|
        0 <= i < post.len() && 0 <= k1 < k2 < post[i].children.len() implies (
    #[trigger] post[i].children[k1]) < (#[trigger] post[i].children[k2]) by {
        if i == parent {
            if k2 < pre[parent].children.len() {
                assert(post[i].children[k1] == pre[parent].children[k1]);
                assert(post[i].children[k2] == pre[parent].children[k2]);
            } else {
                assert(post[i].children[k2] == id);
                assert(post[i].children[k1] == pre[parent].children[k1]);
                assert(pre[parent].children[k1] < pre.len());
            }
        } else if i < pre.len() {
            assert(post[i] == pre[i]);
        }
    }
    assert forall|j: int|
        1 <= j < post.len() implies post[post[j].parent as int].children.contains(j as u32) by {
        if j == id as int {
            assert(post[j].parent == parent as u32);
            assert(post[parent].children.last() == id);
            assert(post[parent].children.contains(id));
        } else {
            let jp = pre[j].parent as int;
            if j == parent {
                assert(post[j].parent == pre[j].parent);
            } else {
                assert(post[j] == pre[j]);
            }
            assert(post[j].parent as int == jp);
            assert(pre[jp].children.contains(j as u32));
            let k = choose|k: int|
                0 <= k < pre[jp].children.len() && pre[jp].children[k] == j as u32;
            if jp == parent {
                assert(post[jp].children[k] == j as u32);
            } else {
                assert(post[jp] == pre[jp]);
            }
            assert(post[jp].children.contains(j as u32));
        }
    }
}

/// An update that changes only property maps, never a parent or a child
/// list, leaves the tree structure, and with it well-formedness, intact.
pub proof fn lemma_same_structure_wf(a: Seq<NodeView>, b: Seq<NodeView>)
    requires
        wf_nodes(a),
        b.len() == a.len(),
        forall|i: int|
            0 <= i < a.len() ==> (#[trigger] b[i]).parent == a[i].parent && b[i].children
                == a[i].children,
    ensures
        wf_nodes(b),
{
    assert forall|i: int, k: int|
        0 <= i < b.len() && 0 <= k < b[i].children.len() implies i < (
    #[trigger] b[i].children[k]) < b.len() by {
        assert(b[i].children == a[i].children);
    }
    assert forall|i: int, k: int|
        0 <= i < b.len() && 0 <= k < b[i].children.len() implies b[(
    #[trigger] b[i].children[k]) as int].parent == i by {
        assert(b[i].children == a[i].children);
        let c = a[i].children[k];
        assert(a[c as int].parent == i);
        assert(b[c as int].parent == a[c as int].parent);
    }
    assert forall|i: int, k1: int, k2: int|
        0 <= i < b.len() && 0 <= k1 < k2 < b[i].children.len() implies (
    #[trigger] b[i].children[k1]) < (#[trigger] b[i].children[k2]) by {
        assert(b[i].children == a[i].children);
    }
    assert forall|j: int|
        1 <= j < b.len() implies b[b[j].parent as int].children.contains(j as u32) by {
        assert(b[j].parent == a[j].parent);
        let jp = a[j].parent as int;
        assert(a[jp].children.contains(j as u32));
        assert(b[jp].children == a[jp].children);
    }
}

/// One compositing step of a draw pass: blit the surface of widget `id`
/// to the rectangle at (`x`, `y`) sized (`w`, `h`).  `render` reports
/// whether the widget had a pending invalidation event, i.e. whether its
/// cached surface must be re-rendered before the blit.
#[derive(Clone, Copy, Debug, PartialEq, Eq, Structural)]
pub struct DrawOp {
    pub id: u32,
    pub x: u32,
    pub y: u32,
    pub w: u32,
    pub h: u32,
    pub render: bool,
}

/// The compositing step for one widget, read off its property map.
pub open spec fn op_of(nodes: Seq<NodeView>, c: u32) -> DrawOp {
    let origin = pair_of(nodes[c as int].props, PROPERTY_ORIGIN, 0, 0);
    let bounds = pair_of(nodes[c as int].props, PROPERTY_SIZE, 0, 0);
    DrawOp {
        id: c,
        x: origin.0,
        y: origin.1,
        w: bounds.0,
        h: bounds.1,
        render: invalidated_of(nodes[c as int].props),
    }
}

/// The draw plan below one visited widget: its own compositing step
/// followed by the plans of its children, in paint order.  A hidden widget
/// contributes nothing and nothing below it is visited.
pub open spec fn plan_node(nodes: Seq<NodeView>, c: u32) -> Seq<DrawOp>
    decreases nodes.len() - c, 1int, 0int
        when wf_nodes(nodes) && (c as int) < nodes.len()
{
    if hidden_of(nodes[c as int].props) {
        Seq::empty()
    } else {
        seq![op_of(nodes, c)] + plan_children(nodes, nodes[c as int].children, c)
    }
}

/// The draw plan of a run of siblings, all children of widget `lb`,
/// visited in paint order.
pub open spec fn plan_children(nodes: Seq<NodeView>, kids: Seq<u32>, lb: u32) -> Seq<DrawOp>
    decreases nodes.len() - lb, 0int, kids.len()
        when wf_nodes(nodes) && (lb as int) < nodes.len() && (forall|k: int|
            0 <= k < kids.len() ==> lb < (#[trigger] kids[k]) && (kids[k] as int) < nodes.len())
{
    if kids.len() == 0 {
        Seq::empty()
    } else {
        plan_children(nodes, kids.drop_last(), lb) + plan_node(nodes, kids.last())
    }
}

/// The full draw plan of the pass rooted at `id`: the plans of its
/// children in paint order.  The visited widget itself is a container for
/// the pass and is not composited.
pub open spec fn plan(nodes: Seq<NodeView>, id: u32) -> Seq<DrawOp> {
    plan_children(nodes, nodes[id as int].children, id)
}

/// The node with its dirty flag lowered, as a draw pass leaves every
/// widget it composites.
pub open spec fn node_cleared(n: NodeView) -> NodeView {
    NodeView {
        props: n.props.remove(PROPERTY_INVALIDATED),
        name: n.name,
        parent: n.parent,
        children: n.children,
    }
}

/// The ids a plan touches, in paint order.
pub open spec fn plan_ids(ops: Seq<DrawOp>) -> Seq<u32> {
    ops.map_values(|op: DrawOp| op.id)
}

/// The store after a draw pass below `id`: every widget the pass
/// composites has its dirty flag lowered; every other widget, the visited
/// container and hidden subtrees included, is untouched.
pub open spec fn drawn(nodes: Seq<NodeView>, id: u32) -> Seq<NodeView> {
    Seq::new(
        nodes.len(),
        |i: int|
            if plan_ids(plan(nodes, id)).contains(i as u32) {
                node_cleared(nodes[i])
            } else {
                nodes[i]
            },
    )
}

/// Whether the point (`x`, `y`) falls inside the widget's rectangle:
/// inclusive of the origin, exclusive of origin plus bounds.
pub open spec fn contains_point(n: NodeView, x: u32, y: u32) -> bool {
    let origin = pair_of(n.props, PROPERTY_ORIGIN, 0, 0);
    let bounds = pair_of(n.props, PROPERTY_SIZE, 0, 0);
    &&& origin.0 <= x < origin.0 + bounds.0
    &&& origin.1 <= y < origin.1 + bounds.1
}

/// The hit-test outcome after visiting one widget with `acc` as the best
/// match so far: a hidden widget and its whole subtree are skipped; a
/// visible widget containing the point replaces the match, and its
/// children, painted above it, are visited in turn.
pub open spec fn hit_node(nodes: Seq<NodeView>, c: u32, x: u32, y: u32, acc: u32) -> u32
    decreases nodes.len() - c, 1int, 0int
        when wf_nodes(nodes) && (c as int) < nodes.len()
{
    if hidden_of(nodes[c as int].props) {
        acc
    } else {
        hit_children(
            nodes,
            nodes[c as int].children,
            x,
            y,
            if contains_point(nodes[c as int], x, y) {
                c
            } else {
                acc
            },
            c,
        )
    }
}

/// The hit-test outcome after visiting a run of siblings in paint order:
/// later siblings are painted on top, so their matches override earlier
/// ones.
pub open spec fn hit_children(
    nodes: Seq<NodeView>,
    kids: Seq<u32>,
    x: u32,
    y: u32,
    acc: u32,
    lb: u32,
) -> u32
    decreases nodes.len() - lb, 0int, kids.len()
        when wf_nodes(nodes) && (lb as int) < nodes.len() && (forall|k: int|
            0 <= k < kids.len() ==> lb < (#[trigger] kids[k]) && (kids[k] as int) < nodes.len())
{
    if kids.len() == 0 {
        acc
    } else {
        hit_node(nodes, kids.last(), x, y, hit_children(nodes, kids.drop_last(), x, y, acc, lb))
    }
}

/// The id of the topmost visible widget containing the point, or 0 (the
/// root, which backs the whole surface) when no widget contains it.
pub open spec fn hit_spec(nodes: Seq<NodeView>, x: u32, y: u32) -> u32 {
    hit_children(nodes, nodes[0].children, x, y, 0, 0)
}

/// Which widgets a prefix of a draw pass has already cleared: node `i`
/// with its flag lowered once some step among the first `k` names it.
spec fn cleared_upto(pre: Seq<NodeView>, ops: Seq<DrawOp>, k: int, i: int) -> NodeView {
    if exists|t: int| 0 <= t < k && (#[trigger] ops[t]).id == i as u32 {
        node_cleared(pre[i])
    } else {
        pre[i]
    }
}

/// Every id in the plan below a widget names the widget itself or one of
/// its strict descendants: an id no smaller than the widget's own and
/// inside the store.
pub proof fn lemma_plan_node_ids(nodes: Seq<NodeView>, c: u32)
    requires
        wf_nodes(nodes),
        (c as int) < nodes.len(),
    ensures
        forall|t: int|
            0 <= t < plan_node(nodes, c).len() ==> c <= (#[trigger] plan_node(nodes, c)[t]).id
                && (plan_node(nodes, c)[t].id as int) < nodes.len(),
    decreases nodes.len() - c, 1int, 0int,
{
    if hidden_of(nodes[c as int].props) {
    } else {
        lemma_plan_children_ids(nodes, nodes[c as int].children, c);
        assert forall|t: int| 0 <= t < plan_node(nodes, c).len() implies c <= (
        #[trigger] plan_node(nodes, c)[t]).id && (plan_node(nodes, c)[t].id as int)
            < nodes.len() by {
            if t == 0 {
                assert(plan_node(nodes, c)[0] == op_of(nodes, c));
            } else {
                assert(plan_node(nodes, c)[t] == plan_children(
                    nodes,
                    nodes[c as int].children,
                    c,
                )[t - 1]);
            }
        }
    }
}

/// Every id in the plan of a run of siblings lies above their parent `lb`
/// and inside the store.
pub proof fn lemma_plan_children_ids(nodes: Seq<NodeView>, kids: Seq<u32>, lb: u32)
    requires
        wf_nodes(nodes),
        (lb as int) < nodes.len(),
        forall|k: int|
            0 <= k < kids.len() ==> lb < (#[trigger] kids[k]) && (kids[k] as int) < nodes.len(),
    ensures
        forall|t: int|
            0 <= t < plan_children(nodes, kids, lb).len() ==> lb < (#[trigger] plan_children(
                nodes,
                kids,
                lb,
            )[t]).id && (plan_children(nodes, kids, lb)[t].id as int) < nodes.len(),
    decreases nodes.len() - lb, 0int, kids.len(),
{
    if kids.len() == 0 {
    } else {
        let front = plan_children(nodes, kids.drop_last(), lb);
        let back = plan_node(nodes, kids.last());
        lemma_plan_children_ids(nodes, kids.drop_last(), lb);
        lemma_plan_node_ids(nodes, kids.last());
        assert forall|t: int| 0 <= t < plan_children(nodes, kids, lb).len() implies lb < (
        #[trigger] plan_children(nodes, kids, lb)[t]).id && (plan_children(
            nodes,
            kids,
            lb,
        )[t].id as int) < nodes.len() by {
            if t < front.len() {
                assert(plan_children(nodes, kids, lb)[t] == front[t]);
            } else {
                assert(plan_children(nodes, kids, lb)[t] == back[t - front.len()]);
                assert(lb < kids.last());
            }
        }
    }
}

} // verus!
