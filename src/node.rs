use vstd::prelude::*;
use crate::dom::{
    appended, inserted_before, lands_before, lemma_lands_before, option_view, position, replaced,
    set_attribute, with_attributes, with_children, with_event, without_vec, Dom, DomElement,
    DomNodeData, DomText, ElementData, ElementView, NodeData, NodeView,
};
use crate::seq_util::{
    detached, first_index, lemma_first_index_result, lemma_fresh_no_duplicates,
    lemma_without_absent, lemma_without_contains, lemma_without_detached,
    lemma_without_no_duplicates, without,
};

verus! {

/// A value that names nodes, which may still be virtual.
pub trait Thunk {
    spec fn handles_valid(&self, dom: &Dom) -> bool;

    spec fn spec_is_thunk(&self, dom: &Dom) -> bool;

    fn is_thunk(&self, dom: &Dom) -> (r: bool)
        requires
            dom.wf(),
            self.handles_valid(dom),
        ensures
            r == self.spec_is_thunk(dom),
    ;
}

/// A node of either kind, seen as a [`DomNodeData`].
pub trait DomNode: Thunk {
    spec fn spec_node(&self) -> DomNodeData;

    fn node(&self) -> (r: DomNodeData)
        ensures
            r == self.spec_node(),
    ;
}

impl Thunk for DomNodeData {
    open spec fn handles_valid(&self, dom: &Dom) -> bool {
        dom.valid(*self)
    }

    open spec fn spec_is_thunk(&self, dom: &Dom) -> bool {
        dom.is_thunk_node(*self)
    }

    fn is_thunk(&self, dom: &Dom) -> (r: bool) {
        dom.is_thunk(*self)
    }
}

impl DomNode for DomNodeData {
    open spec fn spec_node(&self) -> DomNodeData {
        *self
    }

    fn node(&self) -> (r: DomNodeData) {
        *self
    }
}

impl Thunk for DomElement {
    open spec fn handles_valid(&self, dom: &Dom) -> bool {
        dom.valid_element(*self)
    }

    open spec fn spec_is_thunk(&self, dom: &Dom) -> bool {
        dom.is_thunk_node(DomNodeData::Element(*self))
    }

    fn is_thunk(&self, dom: &Dom) -> (r: bool) {
        dom.is_thunk(DomNodeData::Element(*self))
    }
}

impl DomNode for DomElement {
    open spec fn spec_node(&self) -> DomNodeData {
        DomNodeData::Element(*self)
    }

    fn node(&self) -> (r: DomNodeData) {
        DomNodeData::Element(*self)
    }
}

impl Thunk for DomText {
    open spec fn handles_valid(&self, dom: &Dom) -> bool {
        dom.valid_text(*self)
    }

    open spec fn spec_is_thunk(&self, dom: &Dom) -> bool {
        dom.is_thunk_node(DomNodeData::Text(*self))
    }

    fn is_thunk(&self, dom: &Dom) -> (r: bool) {
        dom.is_thunk(DomNodeData::Text(*self))
    }
}

impl DomNode for DomText {
    open spec fn spec_node(&self) -> DomNodeData {
        DomNodeData::Text(*self)
    }

    fn node(&self) -> (r: DomNodeData) {
        DomNodeData::Text(*self)
    }
}

impl<T: Thunk> Thunk for Option<T> {
    open spec fn handles_valid(&self, dom: &Dom) -> bool {
        match self {
            Some(x) => x.handles_valid(dom),
            None => true,
        }
    }

    /// An absent node counts as virtual.
    open spec fn spec_is_thunk(&self, dom: &Dom) -> bool {
        match self {
            Some(x) => x.spec_is_thunk(dom),
            None => true,
        }
    }

    fn is_thunk(&self, dom: &Dom) -> (r: bool) {
        match self {
            Some(x) => x.is_thunk(dom),
            None => true,
        }
    }
}

/// The handle that an optional node gives, if any.
pub open spec fn node_of<N: DomNode>(o: Option<N>) -> Option<DomNodeData> {
    match o {
        Some(n) => Some(n.spec_node()),
        None => None,
    }
}

/// The handle that an optional borrowed node gives, if any.
pub open spec fn node_of_ref<N: DomNode>(o: Option<&N>) -> Option<DomNodeData> {
    match o {
        Some(n) => Some(n.spec_node()),
        None => None,
    }
}

/// The handles of an optional node: none or one.
pub open spec fn option_seq(o: Option<DomNodeData>) -> Seq<DomNodeData> {
    match o {
        Some(n) => seq![n],
        None => Seq::empty(),
    }
}

/// Each entry of `kids` is `extra` or already a child of `id`: such a list
/// can be stored as the children of `id`.
proof fn lemma_child_list_ok(dom: &Dom, id: int, kids: Seq<DomNodeData>, extra: DomNodeData)
    requires
        dom.wf(),
        0 <= id < dom.len(),
        dom.valid(extra),
        dom.live(id) ==> dom.live(extra.spec_id()),
        forall|k: int|
            0 <= k < kids.len() ==> #[trigger] kids[k] == extra || dom.children(id).contains(
                kids[k],
            ),
    ensures
        forall|k: int| 0 <= k < kids.len() ==> dom.valid(#[trigger] kids[k]),
        dom.live(id) ==> forall|k: int|
            0 <= k < kids.len() ==> dom.live((#[trigger] kids[k]).spec_id()),
{
    assert forall|k: int| 0 <= k < kids.len() implies dom.valid(#[trigger] kids[k]) && (dom.live(
        id,
    ) ==> dom.live(kids[k].spec_id())) by {
        if kids[k] != extra {
            let j = choose|j: int| 0 <= j < dom.children(id).len() && dom.children(id)[j] == kids[k];
            assert(dom.valid(dom.children(id)[j]));
            if dom.live(id) {
                assert(dom.live(dom.children(id)[j].spec_id()));
            }
        }
    }
}

proof fn lemma_dispatched_then_same(a: &Dom, b: &Dom, c: &Dom, args: Seq<DomNodeData>)
    requires
        a.dispatched(b, args),
        a.len() == b.len(),
        b.len() == c.len(),
        forall|i: int| 0 <= i < b.len() ==> c.live(i) == b.live(i),
        c.pending() == b.pending(),
        forall|k: int| 0 <= k < args.len() ==> 0 <= (#[trigger] args[k]).spec_id() < a.len(),
    ensures
        a.dispatched(c, args),
{
    if forall|k: int| 0 <= k < args.len() ==> a.is_thunk_node(#[trigger] args[k]) {
        assert(a.surface_untouched(b));
        assert(a.surface_untouched(c));
    } else {
        assert forall|k: int| 0 <= k < args.len() implies c.live((#[trigger] args[k]).spec_id()) by {
            assert(b.live(args[k].spec_id()));
        }
    }
}


/// The children of `id` without `x` hold no repeats and no `x`, so `x` can
/// be added to them anywhere.
proof fn lemma_children_without(dom: &Dom, id: int, x: DomNodeData)
    requires
        dom.wf(),
        0 <= id < dom.len(),
    ensures
        ({
            let d = without(dom.children(id), x);
            &&& d.no_duplicates()
            &&& !d.contains(x)
            &&& d.push(x).no_duplicates()
            &&& forall|k: int| 0 <= k <= d.len() ==> (#[trigger] d.insert(k, x)).no_duplicates()
            &&& forall|k: int| 0 <= k < d.len() ==> (#[trigger] d.update(k, x)).no_duplicates()
        }),
{
    assert(dom.children(id).no_duplicates());
    lemma_without_no_duplicates(dom.children(id), x);
    lemma_without_contains(dom.children(id), x, x);
    lemma_fresh_no_duplicates(without(dom.children(id), x), x);
}

/// In a list without repeats, replacing `old` by another node leaves no
/// `old`, and where `new` was absent it is an update in place.
proof fn lemma_replaced_facts(c: Seq<DomNodeData>, new: DomNodeData, old: DomNodeData)
    requires
        c.no_duplicates(),
    ensures
        new != old ==> !replaced(c, new, old).contains(old),
        c.contains(old) && !c.contains(new) ==> replaced(c, new, old) == c.update(
            first_index(c, old),
            new,
        ),
{
    if new != old {
        let d = without(c, new);
        lemma_without_no_duplicates(c, new);
        lemma_first_index_result(d, old);
        let k = first_index(d, old);
        let r = replaced(c, new, old);
        if r.contains(old) {
            let j = choose|j: int| 0 <= j < r.len() && r[j] == old;
            if k >= 0 {
                assert(j != k);
                assert(d[j] == d[k]);
            } else {
                assert(d[j] == old);
                assert(d.contains(old));
            }
        }
        if c.contains(old) && !c.contains(new) {
            lemma_without_absent(c, new);
        }
    }
}

impl DomElement {
    pub open spec fn spec_data(self) -> DomNodeData {
        DomNodeData::Element(self)
    }

    /// A new virtual element with no namespace.
    pub fn new(dom: &mut Dom, tag: &str) -> (r: DomElement)
        requires
            old(dom).wf(),
            old(dom).len() < usize::MAX,
        ensures
            final(dom).wf(),
            r.id == old(dom).len(),
            final(dom).len() == old(dom).len() + 1,
            final(dom).node(r.id as int) == NodeView::Element(
                ElementView {
                    namespace: None,
                    tag: tag@,
                    attributes: Seq::empty(),
                    children: Seq::empty(),
                    events: Seq::empty(),
                },
            ),
            forall|i: int| 0 <= i < old(dom).len() ==> final(dom).node(i) == old(dom).node(i),
            old(dom).surface_untouched(final(dom)),
    {
        let d = ElementData {
            namespace: None,
            tag: tag.to_owned(),
            attributes: Vec::new(),
            children: Vec::new(),
            events: Vec::new(),
        };
        assert(d@.attributes =~= Seq::empty());
        assert(d@.events =~= Seq::empty());
        let id = dom.add_node(NodeData::Element(d));
        DomElement { id }
    }

    /// A new virtual element in `namespace`.
    pub fn new_in_namespace(dom: &mut Dom, namespace: &str, tag: &str) -> (r: DomElement)
        requires
            old(dom).wf(),
            old(dom).len() < usize::MAX,
        ensures
            final(dom).wf(),
            r.id == old(dom).len(),
            final(dom).len() == old(dom).len() + 1,
            final(dom).node(r.id as int) == NodeView::Element(
                ElementView {
                    namespace: Some(namespace@),
                    tag: tag@,
                    attributes: Seq::empty(),
                    children: Seq::empty(),
                    events: Seq::empty(),
                },
            ),
            forall|i: int| 0 <= i < old(dom).len() ==> final(dom).node(i) == old(dom).node(i),
            old(dom).surface_untouched(final(dom)),
    {
        let d = ElementData {
            namespace: Some(namespace.to_owned()),
            tag: tag.to_owned(),
            attributes: Vec::new(),
            children: Vec::new(),
            events: Vec::new(),
        };
        assert(d@.attributes =~= Seq::empty());
        assert(d@.events =~= Seq::empty());
        let id = dom.add_node(NodeData::Element(d));
        DomElement { id }
    }

    /// Attach `child` as the last child, at once.
    pub fn append_child_now<N: DomNode>(&self, dom: &mut Dom, child: &N)
        requires
            old(dom).wf(),
            old(dom).valid_element(*self),
            old(dom).valid(child.spec_node()),
        ensures
            final(dom).wf(),
            old(dom).updated(
                final(dom),
                self.id as int,
                with_children(
                    old(dom).node(self.id as int),
                    appended(old(dom).children(self.id as int), child.spec_node()),
                ),
            ),
            old(dom).dispatched(final(dom), seq![self.spec_data(), child.spec_node()]),
    {
        let c = child.node();
        let args = vec![DomNodeData::Element(*self), c];
        assert(args@ =~= seq![self.spec_data(), child.spec_node()]);
        dom.dispatch(args.as_slice());
        let mut kids = without_vec(dom.child_list(self.id), c);
        kids.push(c);
        proof {
            let d = without(dom.children(self.id as int), c);
            assert forall|k: int| 0 <= k < kids@.len() implies #[trigger] kids@[k] == c
                || dom.children(self.id as int).contains(kids@[k]) by {
                if k < d.len() {
                    assert(d.contains(d[k]));
                    lemma_without_contains(dom.children(self.id as int), c, d[k]);
                }
            }
            lemma_child_list_ok(dom, self.id as int, kids@, c);
            lemma_children_without(dom, self.id as int, c);
        }
        dom.set_child_list(self.id, kids);
    }

    fn insert_before_node(&self, dom: &mut Dom, c: DomNodeData, next: Option<DomNodeData>)
        requires
            old(dom).wf(),
            old(dom).valid_element(*self),
            old(dom).valid(c),
            forall|n: DomNodeData| next == Some(n) ==> old(dom).valid(n),
        ensures
            final(dom).wf(),
            old(dom).updated(
                final(dom),
                self.id as int,
                with_children(
                    old(dom).node(self.id as int),
                    inserted_before(old(dom).children(self.id as int), c, next),
                ),
            ),
            old(dom).dispatched(final(dom), seq![self.spec_data(), c] + option_seq(next)),
    {
        let mut args = vec![DomNodeData::Element(*self), c];
        if let Some(n) = next {
            args.push(n);
        }
        assert(args@ =~= seq![self.spec_data(), c] + option_seq(next));
        let ghost before = *dom;
        assert forall|k: int| 0 <= k < args@.len() implies before.valid(#[trigger] args@[k]) by {
            if k == 2 {
                assert(args@[k] == next.unwrap());
            }
        }
        dom.dispatch(args.as_slice());
        assert(args@[0] == self.spec_data() && args@[1] == c);
        assert(before.dispatched(dom, args@));
        let mut kids = without_vec(dom.child_list(self.id), c);
        let ghost d = kids@;
        let at = match next {
            Some(n) => position(&kids, n),
            None => None,
        };
        match at {
            Some(k) => {
                proof {
                    lemma_first_index_result(d, next.unwrap());
                }
                kids.insert(k, c);
            },
            None => {
                kids.push(c);
            },
        }
        assert(kids@ == inserted_before(dom.children(self.id as int), c, next));
        proof {
            assert forall|k: int| 0 <= k < kids@.len() implies #[trigger] kids@[k] == c
                || dom.children(self.id as int).contains(kids@[k]) by {
                if kids@[k] != c {
                    assert(d.contains(kids@[k]));
                    lemma_without_contains(dom.children(self.id as int), c, kids@[k]);
                }
            }
            lemma_child_list_ok(dom, self.id as int, kids@, c);
            lemma_children_without(dom, self.id as int, c);
        }
        let ghost mid = *dom;
        dom.set_child_list(self.id, kids);
        proof {
            lemma_dispatched_then_same(&before, &mid, dom, args@);
        }
    }

    /// Attach `child` just before `next_child`, or last where that is absent
    /// or not a child.
    pub fn insert_child_before<N: DomNode, M: DomNode>(
        &self,
        dom: &mut Dom,
        child: N,
        next_child: Option<M>,
    )
        requires
            old(dom).wf(),
            old(dom).valid_element(*self),
            old(dom).valid(child.spec_node()),
            forall|n: DomNodeData| node_of(next_child) == Some(n) ==> old(dom).valid(n),
        ensures
            final(dom).wf(),
            old(dom).updated(
                final(dom),
                self.id as int,
                with_children(
                    old(dom).node(self.id as int),
                    inserted_before(
                        old(dom).children(self.id as int),
                        child.spec_node(),
                        node_of(next_child),
                    ),
                ),
            ),
            old(dom).dispatched(
                final(dom),
                seq![self.spec_data(), child.spec_node()] + option_seq(node_of(next_child)),
            ),
            lands_before(
                old(dom).children(self.id as int),
                child.spec_node(),
                node_of(next_child),
            ),
    {
        let next = match next_child {
            Some(n) => Some(n.node()),
            None => None,
        };
        self.insert_before_node(dom, child.node(), next);
        proof {
            lemma_lands_before(old(dom).children(self.id as int), child.spec_node(), node_of(next_child));
        }
    }

    /// Attach `child` just before `next_child` at once, or last where that
    /// is absent or not a child.
    pub fn insert_child_before_now<N: DomNode, M: DomNode>(
        &self,
        dom: &mut Dom,
        child: &N,
        next_child: Option<&M>,
    )
        requires
            old(dom).wf(),
            old(dom).valid_element(*self),
            old(dom).valid(child.spec_node()),
            forall|n: DomNodeData| node_of_ref(next_child) == Some(n) ==> old(dom).valid(n),
        ensures
            final(dom).wf(),
            old(dom).updated(
                final(dom),
                self.id as int,
                with_children(
                    old(dom).node(self.id as int),
                    inserted_before(
                        old(dom).children(self.id as int),
                        child.spec_node(),
                        node_of_ref(next_child),
                    ),
                ),
            ),
            old(dom).dispatched(
                final(dom),
                seq![self.spec_data(), child.spec_node()] + option_seq(node_of_ref(next_child)),
            ),
            lands_before(
                old(dom).children(self.id as int),
                child.spec_node(),
                node_of_ref(next_child),
            ),
    {
        let next = match next_child {
            Some(n) => Some(n.node()),
            None => None,
        };
        self.insert_before_node(dom, child.node(), next);
        proof {
            lemma_lands_before(old(dom).children(self.id as int), child.spec_node(), node_of_ref(next_child));
        }
    }

    fn remove_node(&self, dom: &mut Dom, c: DomNodeData)
        requires
            old(dom).wf(),
            old(dom).valid_element(*self),
            old(dom).valid(c),
        ensures
            final(dom).wf(),
            old(dom).updated(
                final(dom),
                self.id as int,
                with_children(
                    old(dom).node(self.id as int),
                    without(old(dom).children(self.id as int), c),
                ),
            ),
            old(dom).dispatched(final(dom), seq![self.spec_data(), c]),
    {
        let args = vec![DomNodeData::Element(*self), c];
        let ghost before = *dom;
        dom.dispatch(args.as_slice());
        assert(args@[0] == self.spec_data() && args@[1] == c);
        let kids = without_vec(dom.child_list(self.id), c);
        proof {
            assert forall|k: int| 0 <= k < kids@.len() implies #[trigger] kids@[k] == c
                || dom.children(self.id as int).contains(kids@[k]) by {
                assert(kids@.contains(kids@[k]));
                lemma_without_contains(dom.children(self.id as int), c, kids@[k]);
            }
            lemma_child_list_ok(dom, self.id as int, kids@, c);
            lemma_children_without(dom, self.id as int, c);
        }
        let ghost mid = *dom;
        dom.set_child_list(self.id, kids);
        proof {
            assert(args@ =~= seq![self.spec_data(), c]);
            lemma_dispatched_then_same(&before, &mid, dom, args@);
        }
    }

    /// Detach `child`; nothing happens where it is not a child.
    pub fn remove_child<N: DomNode>(&self, dom: &mut Dom, child: &N)
        requires
            old(dom).wf(),
            old(dom).valid_element(*self),
            old(dom).valid(child.spec_node()),
        ensures
            final(dom).wf(),
            old(dom).updated(
                final(dom),
                self.id as int,
                with_children(
                    old(dom).node(self.id as int),
                    without(old(dom).children(self.id as int), child.spec_node()),
                ),
            ),
            old(dom).dispatched(final(dom), seq![self.spec_data(), child.spec_node()]),
            detached(
                old(dom).children(self.id as int),
                final(dom).children(self.id as int),
                child.spec_node(),
            ),
    {
        self.remove_node(dom, child.node());
        proof {
            lemma_without_detached(old(dom).children(self.id as int), child.spec_node());
        }
    }

    /// Detach `child` at once; nothing happens where it is not a child.
    pub fn remove_child_now<N: DomNode>(&self, dom: &mut Dom, child: &N)
        requires
            old(dom).wf(),
            old(dom).valid_element(*self),
            old(dom).valid(child.spec_node()),
        ensures
            final(dom).wf(),
            old(dom).updated(
                final(dom),
                self.id as int,
                with_children(
                    old(dom).node(self.id as int),
                    without(old(dom).children(self.id as int), child.spec_node()),
                ),
            ),
            old(dom).dispatched(final(dom), seq![self.spec_data(), child.spec_node()]),
            detached(
                old(dom).children(self.id as int),
                final(dom).children(self.id as int),
                child.spec_node(),
            ),
    {
        self.remove_node(dom, child.node());
        proof {
            lemma_without_detached(old(dom).children(self.id as int), child.spec_node());
        }
    }

    /// Put `new_child` where `old_child` is, in one step.
    pub fn replace_child<N: DomNode, M: DomNode>(&self, dom: &mut Dom, new_child: N, old_child: M)
        requires
            old(dom).wf(),
            old(dom).valid_element(*self),
            old(dom).valid(new_child.spec_node()),
            old(dom).valid(old_child.spec_node()),
        ensures
            final(dom).wf(),
            old(dom).updated(
                final(dom),
                self.id as int,
                with_children(
                    old(dom).node(self.id as int),
                    replaced(
                        old(dom).children(self.id as int),
                        new_child.spec_node(),
                        old_child.spec_node(),
                    ),
                ),
            ),
            old(dom).dispatched(
                final(dom),
                seq![self.spec_data(), new_child.spec_node(), old_child.spec_node()],
            ),
            new_child.spec_node() != old_child.spec_node() ==> !final(dom).children(
                self.id as int,
            ).contains(old_child.spec_node()),
            ({
                let c = old(dom).children(self.id as int);
                c.contains(old_child.spec_node()) && !c.contains(new_child.spec_node())
                    ==> final(dom).children(self.id as int) == c.update(
                    first_index(c, old_child.spec_node()),
                    new_child.spec_node(),
                )
            }),
    {
        let n = new_child.node();
        let o = old_child.node();
        let args = vec![DomNodeData::Element(*self), n, o];
        let ghost before = *dom;
        dom.dispatch(args.as_slice());
        assert(args@[0] == self.spec_data() && args@[1] == n && args@[2] == o);
        assert(args@ =~= seq![self.spec_data(), n, o]);
        proof {
            assert(before.children(self.id as int).no_duplicates());
            lemma_replaced_facts(before.children(self.id as int), n, o);
        }
        if n == o {
            assert(dom.node(self.id as int) == with_children(
                dom.node(self.id as int),
                dom.children(self.id as int),
            ));
            return;
        }
        let mut kids = without_vec(dom.child_list(self.id), n);
        let ghost d = kids@;
        match position(&kids, o) {
            Some(k) => {
                proof {
                    lemma_first_index_result(d, o);
                }
                kids.set(k, n);
            },
            None => {},
        }
        proof {
            assert forall|k: int| 0 <= k < kids@.len() implies #[trigger] kids@[k] == n
                || dom.children(self.id as int).contains(kids@[k]) by {
                if kids@[k] != n {
                    assert(d.contains(kids@[k]));
                    lemma_without_contains(dom.children(self.id as int), n, kids@[k]);
                }
            }
            lemma_child_list_ok(dom, self.id as int, kids@, n);
            lemma_children_without(dom, self.id as int, n);
        }
        let ghost mid = *dom;
        dom.set_child_list(self.id, kids);
        proof {
            lemma_dispatched_then_same(&before, &mid, dom, args@);
        }
    }

    /// Detach every child.
    pub fn clear_children(&self, dom: &mut Dom)
        requires
            old(dom).wf(),
            old(dom).valid_element(*self),
        ensures
            final(dom).wf(),
            old(dom).updated(
                final(dom),
                self.id as int,
                with_children(old(dom).node(self.id as int), Seq::empty()),
            ),
            old(dom).dispatched(final(dom), seq![self.spec_data()]),
    {
        let args = vec![DomNodeData::Element(*self)];
        let ghost before = *dom;
        dom.dispatch(args.as_slice());
        assert(args@ =~= seq![self.spec_data()]);
        let kids: Vec<DomNodeData> = Vec::new();
        let ghost mid = *dom;
        dom.set_child_list(self.id, kids);
        proof {
            lemma_dispatched_then_same(&before, &mid, dom, args@);
        }
    }

    /// Keep `child` alive with this element without attaching it. Nodes of a
    /// [`Dom`] live as long as the arena, so only the representation rule
    /// applies.
    pub fn store_child(&self, dom: &mut Dom, child: DomElement)
        requires
            old(dom).wf(),
            old(dom).valid_element(*self),
            old(dom).valid_element(child),
        ensures
            final(dom).wf(),
            old(dom).same_contents(final(dom)),
            old(dom).dispatched(final(dom), seq![self.spec_data(), child.spec_data()]),
    {
        let args = vec![DomNodeData::Element(*self), DomNodeData::Element(child)];
        assert(args@ =~= seq![self.spec_data(), child.spec_data()]);
        dom.dispatch(args.as_slice());
    }

    /// Set attribute `name` to `value`, or take it out where `value` is
    /// `None`.
    pub fn attribute(&self, dom: &mut Dom, name: &str, value: Option<String>)
        requires
            old(dom).wf(),
            old(dom).valid_element(*self),
        ensures
            final(dom).wf(),
            old(dom).updated(
                final(dom),
                self.id as int,
                with_attributes(
                    old(dom).node(self.id as int),
                    set_attribute(
                        old(dom).node(self.id as int)->Element_0.attributes,
                        name@,
                        option_view(value),
                    ),
                ),
            ),
            old(dom).dispatched(final(dom), seq![self.spec_data()]),
    {
        let args = vec![DomNodeData::Element(*self)];
        let ghost before = *dom;
        dom.dispatch(args.as_slice());
        assert(args@ =~= seq![self.spec_data()]);
        let ghost mid = *dom;
        dom.update_attribute(self.id, name.to_owned(), value);
        proof {
            lemma_dispatched_then_same(&before, &mid, dom, args@);
        }
    }

    /// Register event handler `handler` for event `name`: on the virtual
    /// description where the element is virtual, on the live element
    /// otherwise. The caller keeps the handler itself under that id.
    pub fn on(&self, dom: &mut Dom, name: &str, handler: usize)
        requires
            old(dom).wf(),
            old(dom).valid_element(*self),
        ensures
            final(dom).wf(),
            old(dom).updated(
                final(dom),
                self.id as int,
                with_event(old(dom).node(self.id as int), name@, handler),
            ),
            old(dom).dispatched(final(dom), seq![self.spec_data()]),
    {
        let args = vec![DomNodeData::Element(*self)];
        let ghost before = *dom;
        dom.dispatch(args.as_slice());
        assert(args@ =~= seq![self.spec_data()]);
        let ghost mid = *dom;
        dom.add_event(self.id, name.to_owned(), handler);
        proof {
            lemma_dispatched_then_same(&before, &mid, dom, args@);
        }
    }

    /// Release spare capacity of a live element's child list. Nothing that
    /// can be observed changes.
    pub fn shrink_to_fit(&self, dom: &mut Dom)
        requires
            old(dom).wf(),
            old(dom).valid_element(*self),
        ensures
            final(dom).wf(),
            old(dom).changed_one(final(dom), self.id as int, old(dom).node(self.id as int)),
    {
        if !dom.is_thunk(DomNodeData::Element(*self)) {
            dom.shrink_child_list(self.id);
        }
    }
}

impl DomText {
    pub open spec fn spec_data(self) -> DomNodeData {
        DomNodeData::Text(self)
    }

    /// A new virtual text node.
    pub fn new(dom: &mut Dom, text: &str) -> (r: DomText)
        requires
            old(dom).wf(),
            old(dom).len() < usize::MAX,
        ensures
            final(dom).wf(),
            r.id == old(dom).len(),
            final(dom).len() == old(dom).len() + 1,
            final(dom).node(r.id as int) == NodeView::Text(text@),
            forall|i: int| 0 <= i < old(dom).len() ==> final(dom).node(i) == old(dom).node(i),
            old(dom).surface_untouched(final(dom)),
    {
        let id = dom.add_node(NodeData::Text(text.to_owned()));
        DomText { id }
    }

    /// Change the text. A virtual node changes at once and the surface is
    /// not touched; for a live node the write is queued and shows after the
    /// next [`Dom::flush_updates`].
    pub fn set_text(&self, dom: &mut Dom, text: String)
        requires
            old(dom).wf(),
            old(dom).valid_text(*self),
        ensures
            final(dom).wf(),
            old(dom).is_thunk_node(self.spec_data()) ==> old(dom).updated(
                final(dom),
                self.id as int,
                NodeView::Text(text@),
            ) && old(dom).surface_untouched(final(dom)),
            !old(dom).is_thunk_node(self.spec_data()) ==> final(dom).cells() == old(dom).cells()
                && final(dom).pending() == old(dom).pending().push((self.id as int, text@)),
    {
        if dom.is_thunk(DomNodeData::Text(*self)) {
            dom.write_text(self.id, text);
        } else {
            dom.queue_text(self.id, text);
        }
    }
}

impl DomNodeData {
    /// Both handles name the same node.
    pub fn is_same(&self, other: &Self) -> (r: bool)
        ensures
            r == (*self == *other),
    {
        *self == *other
    }
}
} // verus!
