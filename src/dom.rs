use vstd::prelude::*;
use crate::lazy::Lazy;
use crate::seq_util::{
    first_index, lemma_first_index_absent, lemma_first_index_found, lemma_first_index_result,
    lemma_without_contains, without,
};

verus! {

/// A handle on an element node of a [`Dom`]: its index in the arena.
/// Copies share identity.
#[derive(Clone, Copy, PartialEq, Eq, Structural, Debug)]
pub struct DomElement {
    pub id: usize,
}

/// A handle on a text node of a [`Dom`]: its index in the arena.
/// Copies share identity.
#[derive(Clone, Copy, PartialEq, Eq, Structural, Debug)]
pub struct DomText {
    pub id: usize,
}

/// A handle on a node of either kind.
#[derive(Clone, Copy, PartialEq, Eq, Structural, Debug)]
pub enum DomNodeData {
    Element(DomElement),
    Text(DomText),
}

impl DomNodeData {
    pub open spec fn spec_id(self) -> int {
        match self {
            DomNodeData::Element(e) => e.id as int,
            DomNodeData::Text(t) => t.id as int,
        }
    }

    pub fn id(&self) -> (r: usize)
        ensures
            r == self.spec_id(),
    {
        match self {
            DomNodeData::Element(e) => e.id,
            DomNodeData::Text(t) => t.id,
        }
    }
}

/// What an element holds, in either representation.
pub struct ElementData {
    pub namespace: Option<String>,
    pub tag: String,
    pub attributes: Vec<(String, String)>,
    pub children: Vec<DomNodeData>,
    /// Event registrations in order: the event's name and the id under which
    /// the caller keeps its handler.
    pub events: Vec<(String, usize)>,
}

/// What a node holds, in either representation.
pub enum NodeData {
    Element(ElementData),
    Text(String),
}

/// The model of an element: namespace, tag, attributes in order, children
/// in order, event registrations in order.
pub struct ElementView {
    pub namespace: Option<Seq<char>>,
    pub tag: Seq<char>,
    pub attributes: Seq<(Seq<char>, Seq<char>)>,
    pub children: Seq<DomNodeData>,
    pub events: Seq<(Seq<char>, usize)>,
}

/// The model of a node's contents, the same in either representation.
pub enum NodeView {
    Element(ElementView),
    Text(Seq<char>),
}

pub open spec fn attributes_view(a: Seq<(String, String)>) -> Seq<(Seq<char>, Seq<char>)> {
    a.map_values(|p: (String, String)| (p.0@, p.1@))
}

impl View for ElementData {
    type V = ElementView;

    open spec fn view(&self) -> ElementView {
        ElementView {
            namespace: match self.namespace {
                Some(n) => Some(n@),
                None => None,
            },
            tag: self.tag@,
            attributes: attributes_view(self.attributes@),
            children: self.children@,
            events: self.events@.map_values(|p: (String, usize)| (p.0@, p.1)),
        }
    }
}

impl View for NodeData {
    type V = NodeView;

    open spec fn view(&self) -> NodeView {
        match self {
            NodeData::Element(e) => NodeView::Element(e@),
            NodeData::Text(t) => NodeView::Text(t@),
        }
    }
}

pub open spec fn cell_data(c: Lazy<NodeData, NodeData>) -> NodeData {
    match c {
        Lazy::Value(d) => d,
        Lazy::Thunk(t) => t->Some_0,
    }
}

/// The children of a node view (none for text).
pub open spec fn view_children(v: NodeView) -> Seq<DomNodeData> {
    match v {
        NodeView::Element(e) => e.children,
        NodeView::Text(_) => Seq::empty(),
    }
}

/// The arena that owns every node. Each node is a thunk cell: a virtual
/// description until some operation needs it on the live surface, then a
/// live node for good. A live text node's writes wait in `pending` until
/// [`Dom::flush_updates`] applies them.
pub struct Dom {
    nodes: Vec<Lazy<NodeData, NodeData>>,
    pending: Vec<(usize, String)>,
}

impl Dom {
    pub closed spec fn cells(&self) -> Seq<Lazy<NodeData, NodeData>> {
        self.nodes@
    }

    pub open spec fn len(&self) -> nat {
        self.cells().len()
    }

    /// The node has been materialised on the live surface.
    pub open spec fn live(&self, i: int) -> bool {
        self.cells()[i] is Value
    }

    pub open spec fn node(&self, i: int) -> NodeView {
        cell_data(self.cells()[i])@
    }

    pub open spec fn children(&self, i: int) -> Seq<DomNodeData> {
        view_children(self.node(i))
    }

    /// Text writes to live nodes that wait for the next flush, in order.
    pub closed spec fn pending(&self) -> Seq<(int, Seq<char>)> {
        self.pending@.map_values(|p: (usize, String)| (p.0 as int, p.1@))
    }

    /// `h` names a node of this arena, of the kind that its variant says.
    pub open spec fn valid(&self, h: DomNodeData) -> bool {
        &&& 0 <= h.spec_id() < self.len()
        &&& match h {
            DomNodeData::Element(_) => self.node(h.spec_id()) is Element,
            DomNodeData::Text(_) => self.node(h.spec_id()) is Text,
        }
    }

    pub open spec fn valid_element(&self, e: DomElement) -> bool {
        self.valid(DomNodeData::Element(e))
    }

    pub open spec fn valid_text(&self, t: DomText) -> bool {
        self.valid(DomNodeData::Text(t))
    }

    pub open spec fn is_thunk_node(&self, h: DomNodeData) -> bool {
        !self.live(h.spec_id())
    }

    pub open spec fn wf(&self) -> bool {
        &&& forall|i: int| 0 <= i < self.len() ==> (#[trigger] self.cells()[i]).wf()
        &&& forall|i: int, j: int|
            #![trigger self.children(i)[j]]
            0 <= i < self.len() && 0 <= j < self.children(i).len() ==> self.valid(
                self.children(i)[j],
            )
        &&& forall|i: int, j: int|
            #![trigger self.children(i)[j]]
            0 <= i < self.len() && 0 <= j < self.children(i).len() && self.live(i) ==> self.live(
                self.children(i)[j].spec_id(),
            )
        &&& forall|i: int| 0 <= i < self.len() ==> (#[trigger] self.children(i)).no_duplicates()
        &&& forall|k: int|
            0 <= k < self.pending().len() ==> {
                let i = #[trigger] self.pending()[k].0;
                0 <= i < self.len() && self.node(i) is Text && self.live(i)
            }
    }

    /// No node changed representation and no text write was queued: the live
    /// surface was not touched.
    pub open spec fn surface_untouched(&self, after: &Dom) -> bool {
        &&& self.len() <= after.len()
        &&& forall|i: int| 0 <= i < self.len() ==> after.live(i) == self.live(i)
        &&& forall|i: int| self.len() <= i < after.len() ==> !after.live(i)
        &&& after.pending() == self.pending()
    }

    /// Same nodes and contents; only representations may have changed.
    pub open spec fn same_contents(&self, after: &Dom) -> bool {
        &&& after.len() == self.len()
        &&& forall|i: int| 0 <= i < self.len() ==> after.node(i) == self.node(i)
        &&& after.pending() == self.pending()
    }

    /// Only node `id` changed, to `v`; representations and the queue stay.
    pub open spec fn changed_one(&self, after: &Dom, id: int, v: NodeView) -> bool {
        &&& after.len() == self.len()
        &&& after.node(id) == v
        &&& forall|i: int| 0 <= i < self.len() && i != id ==> after.node(i) == self.node(i)
        &&& forall|i: int| 0 <= i < self.len() ==> after.live(i) == self.live(i)
        &&& after.pending() == self.pending()
    }

    /// Only node `id` changed, to `v`, and no text write was queued;
    /// representations may have changed as [`Dom::dispatched`] says.
    pub open spec fn updated(&self, after: &Dom, id: int, v: NodeView) -> bool {
        &&& after.len() == self.len()
        &&& after.node(id) == v
        &&& forall|i: int| 0 <= i < self.len() && i != id ==> after.node(i) == self.node(i)
        &&& after.pending() == self.pending()
    }

    /// The representation rule for an operation on `args`: where all of them
    /// are virtual, the live surface is not touched; otherwise all of them are
    /// live afterwards. Nothing live ever goes back.
    pub open spec fn dispatched(&self, after: &Dom, args: Seq<DomNodeData>) -> bool {
        &&& (forall|k: int| 0 <= k < args.len() ==> self.is_thunk_node(#[trigger] args[k]))
            ==> self.surface_untouched(after)
        &&& !(forall|k: int| 0 <= k < args.len() ==> self.is_thunk_node(#[trigger] args[k]))
            ==> forall|k: int| 0 <= k < args.len() ==> after.live((#[trigger] args[k]).spec_id())
        &&& forall|i: int| 0 <= i < self.len() && self.live(i) ==> after.live(i)
    }

    pub fn new() -> (r: Dom)
        ensures
            r.wf(),
            r.len() == 0,
            r.pending().len() == 0,
    {
        let r = Dom { nodes: Vec::new(), pending: Vec::new() };
        assert(r.pending() =~= Seq::empty());
        r
    }

    pub fn is_thunk(&self, h: DomNodeData) -> (r: bool)
        requires
            self.wf(),
            self.valid(h),
        ensures
            r == self.is_thunk_node(h),
    {
        self.nodes[h.id()].is_thunk()
    }

    /// Add a node in the virtual representation.
    pub(crate) fn add_node(&mut self, d: NodeData) -> (r: usize)
        requires
            old(self).wf(),
            view_children(d@).len() == 0,
            old(self).len() < usize::MAX,
        ensures
            final(self).wf(),
            r == old(self).len(),
            final(self).len() == old(self).len() + 1,
            final(self).node(r as int) == d@,
            !final(self).live(r as int),
            forall|i: int| 0 <= i < old(self).len() ==> final(self).node(i) == old(self).node(i),
            old(self).surface_untouched(final(self)),
    {
        let r = self.nodes.len();
        self.nodes.push(Lazy::new_thunk(d));
        assert forall|i: int, j: int|
            0 <= i < self.len() && 0 <= j < self.children(i).len() implies self.valid(
                #[trigger] self.children(i)[j],
            ) by {
            assert(i < r);
            assert(self.children(i) == old(self).children(i));
        }
        assert forall|i: int, j: int|
            0 <= i < self.len() && 0 <= j < self.children(i).len() && self.live(i) implies self.live(
                (#[trigger] self.children(i)[j]).spec_id(),
            ) by {
            assert(i < r);
            assert(self.children(i) == old(self).children(i));
        }
        assert forall|i: int| 0 <= i < self.len() implies (#[trigger] self.children(i)).no_duplicates() by {
            if i < r {
                assert(self.children(i) == old(self).children(i));
            }
        }
        r
    }

    /// The children of an element, as stored.
    pub(crate) fn child_list(&self, id: usize) -> (r: &Vec<DomNodeData>)
        requires
            0 <= id < self.len(),
            self.cells()[id as int].wf(),
            self.node(id as int) is Element,
        ensures
            r@ == self.children(id as int),
    {
        match &self.nodes[id] {
            Lazy::Value(NodeData::Element(e)) => &e.children,
            Lazy::Thunk(Some(NodeData::Element(e))) => &e.children,
            _ => unreached(),
        }
    }

    /// The child list of element `id` becomes `kids`; nothing else changes.
    pub(crate) fn set_child_list(&mut self, id: usize, kids: Vec<DomNodeData>)
        requires
            old(self).wf(),
            0 <= id < old(self).len(),
            old(self).node(id as int) is Element,
            forall|k: int| 0 <= k < kids@.len() ==> old(self).valid(#[trigger] kids@[k]),
            kids@.no_duplicates(),
            old(self).live(id as int) ==> forall|k: int|
                0 <= k < kids@.len() ==> old(self).live((#[trigger] kids@[k]).spec_id()),
        ensures
            final(self).wf(),
            old(self).changed_one(final(self), id as int, with_children(old(self).node(id as int), kids@)),
    {
        let ghost before = *self;
        let cell = &mut self.nodes[id];
        match cell {
            Lazy::Value(NodeData::Element(e)) => {
                e.children = kids;
            },
            Lazy::Thunk(Some(NodeData::Element(e))) => {
                e.children = kids;
            },
            _ => {},
        }
        assert(self.node(id as int) == with_children(before.node(id as int), kids@));
        assert forall|i: int| 0 <= i < self.len() && i != id implies self.node(i) == before.node(i) by {}
        assert forall|i: int, j: int|
            0 <= i < self.len() && 0 <= j < self.children(i).len() implies self.valid(
                #[trigger] self.children(i)[j],
            ) by {
            if i != id {
                assert(self.children(i) == before.children(i));
                assert(before.valid(before.children(i)[j]));
            } else {
                assert(self.children(i)[j] == kids@[j]);
            }
        }
        assert forall|i: int, j: int|
            0 <= i < self.len() && 0 <= j < self.children(i).len() && self.live(i) implies self.live(
                (#[trigger] self.children(i)[j]).spec_id(),
            ) by {
            if i != id {
                assert(self.children(i) == before.children(i));
                assert(before.live(before.children(i)[j].spec_id()));
                assert(before.valid(before.children(i)[j]));
            } else {
                assert(self.children(i)[j] == kids@[j]);
                assert(before.valid(kids@[j]));
            }
        }
        assert forall|i: int| 0 <= i < self.len() implies (#[trigger] self.children(i)).no_duplicates() by {
            if i != id {
                assert(self.children(i) == before.children(i));
            }
        }
        assert forall|k: int| 0 <= k < self.pending().len() implies {
            let i = #[trigger] self.pending()[k].0;
            0 <= i < self.len() && self.node(i) is Text && self.live(i)
        } by {
            assert(before.pending()[k] == self.pending()[k]);
        }
    }

    /// Bring the operands of an operation to one representation: where all
    /// are virtual nothing changes, otherwise every one is materialised.
    /// Returns whether they were all virtual.
    pub(crate) fn dispatch(&mut self, args: &[DomNodeData]) -> (virt: bool)
        requires
            old(self).wf(),
            forall|k: int| 0 <= k < args@.len() ==> old(self).valid(#[trigger] args@[k]),
        ensures
            final(self).wf(),
            old(self).same_contents(final(self)),
            old(self).dispatched(final(self), args@),
            virt == forall|k: int| 0 <= k < args@.len() ==> old(self).is_thunk_node(#[trigger] args@[k]),
            virt ==> *final(self) == *old(self),
    {
        if all_thunks(self, args) {
            assert(self.surface_untouched(self));
            return true;
        }
        let ghost start = *self;
        let mut k: usize = 0;
        while k < args.len()
            invariant
                0 <= k <= args@.len(),
                self.wf(),
                start.same_contents(self),
                forall|j: int| 0 <= j < args@.len() ==> start.valid(#[trigger] args@[j]),
                forall|j: int| 0 <= j < k ==> self.live((#[trigger] args@[j]).spec_id()),
                forall|i: int| 0 <= i < start.len() && start.live(i) ==> self.live(i),
            decreases args@.len() - k,
        {
            let ghost before = *self;
            assert(start.valid(args@[k as int]));
            self.promote(args[k]);
            assert forall|j: int| 0 <= j <= k implies self.live((#[trigger] args@[j]).spec_id()) by {
                if j < k {
                    assert(before.live(args@[j].spec_id()));
                    assert(start.valid(args@[j]));
                }
            }
            k = k + 1;
        }
        false
    }

    /// Set or remove one attribute of element `id`; nothing else changes.
    pub(crate) fn update_attribute(&mut self, id: usize, name: String, value: Option<String>)
        requires
            old(self).wf(),
            0 <= id < old(self).len(),
            old(self).node(id as int) is Element,
        ensures
            final(self).wf(),
            old(self).changed_one(
                final(self),
                id as int,
                with_attributes(
                    old(self).node(id as int),
                    set_attribute(
                        old(self).node(id as int)->Element_0.attributes,
                        name@,
                        option_view(value),
                    ),
                ),
            ),
    {
        let ghost before = *self;
        let cell = &mut self.nodes[id];
        match cell {
            Lazy::Value(NodeData::Element(e)) => {
                set_attribute_vec(&mut e.attributes, name, value);
            },
            Lazy::Thunk(Some(NodeData::Element(e))) => {
                set_attribute_vec(&mut e.attributes, name, value);
            },
            _ => {},
        }
        proof { self.lemma_children_kept(&before, id as int); }
    }

    /// Register `handler` for event `name` on element `id`; nothing else
    /// changes.
    pub(crate) fn add_event(&mut self, id: usize, name: String, handler: usize)
        requires
            old(self).wf(),
            0 <= id < old(self).len(),
            old(self).node(id as int) is Element,
        ensures
            final(self).wf(),
            old(self).changed_one(final(self), id as int, with_event(old(self).node(id as int), name@, handler)),
    {
        let ghost before = *self;
        let ghost entry = (name@, handler);
        let cell = &mut self.nodes[id];
        match cell {
            Lazy::Value(NodeData::Element(e)) => {
                let ghost old_events = e.events@;
                e.events.push((name, handler));
                assert(e.events@.map_values(|p: (String, usize)| (p.0@, p.1)) =~= old_events.map_values(
                    |p: (String, usize)| (p.0@, p.1),
                ).push(entry));
            },
            Lazy::Thunk(Some(NodeData::Element(e))) => {
                let ghost old_events = e.events@;
                e.events.push((name, handler));
                assert(e.events@.map_values(|p: (String, usize)| (p.0@, p.1)) =~= old_events.map_values(
                    |p: (String, usize)| (p.0@, p.1),
                ).push(entry));
            },
            _ => {},
        }
        proof { self.lemma_children_kept(&before, id as int); }
    }

    /// The text of node `id` becomes `text`, at once; nothing else changes.
    pub(crate) fn write_text(&mut self, id: usize, text: String)
        requires
            old(self).wf(),
            0 <= id < old(self).len(),
            old(self).node(id as int) is Text,
        ensures
            final(self).wf(),
            old(self).changed_one(final(self), id as int, NodeView::Text(text@)),
    {
        let ghost before = *self;
        let cell = &mut self.nodes[id];
        match cell {
            Lazy::Value(NodeData::Text(t)) => {
                *t = text;
            },
            Lazy::Thunk(Some(NodeData::Text(t))) => {
                *t = text;
            },
            _ => {},
        }
        proof { self.lemma_children_kept(&before, id as int); }
    }

    /// A change to one node that keeps its kind, its children, every
    /// representation and the queue keeps the arena well formed.
    proof fn lemma_children_kept(&self, before: &Dom, id: int)
        requires
            before.wf(),
            0 <= id < before.len(),
            self.len() == before.len(),
            forall|i: int| 0 <= i < self.len() && i != id ==> self.cells()[i] == before.cells()[i],
            self.cells()[id].wf(),
            self.live(id) == before.live(id),
            self.children(id) == before.children(id),
            (self.node(id) is Element) == (before.node(id) is Element),
            self.pending() == before.pending() || self.pending().len() == 0,
        ensures
            self.wf(),
    {
        assert forall|i: int| 0 <= i < self.len() implies (#[trigger] self.cells()[i]).wf() by {
            if i != id {
                assert(before.cells()[i].wf());
            }
        }
        assert forall|h: DomNodeData| before.valid(h) implies self.valid(h) by {
            if h.spec_id() != id {
                assert(self.node(h.spec_id()) == before.node(h.spec_id()));
            }
        }
        assert forall|i: int, j: int|
            0 <= i < self.len() && 0 <= j < self.children(i).len() implies self.valid(
                #[trigger] self.children(i)[j],
            ) && (self.live(i) ==> self.live(self.children(i)[j].spec_id())) by {
            assert(self.children(i) == before.children(i));
            assert(before.valid(before.children(i)[j]));
            let c = before.children(i)[j].spec_id();
            if before.live(i) {
                assert(before.live(c));
                if c != id {
                    assert(self.cells()[c] == before.cells()[c]);
                }
            }
        }
        assert forall|i: int| 0 <= i < self.len() implies (#[trigger] self.children(i)).no_duplicates() by {
            if i != id {
                assert(self.cells()[i] == before.cells()[i]);
            }
            assert(self.children(i) == before.children(i));
        }
        assert forall|k: int| 0 <= k < self.pending().len() implies {
            let i = #[trigger] self.pending()[k].0;
            0 <= i < self.len() && self.node(i) is Text && self.live(i)
        } by {
            assert(self.pending() == before.pending());
            let i = before.pending()[k].0;
            assert(before.pending()[k] == self.pending()[k]);
            if i != id {
                assert(self.cells()[i] == before.cells()[i]);
            }
        }
    }

    /// Queue a text write to a live text node.
    pub(crate) fn queue_text(&mut self, id: usize, text: String)
        requires
            old(self).wf(),
            0 <= id < old(self).len(),
            old(self).node(id as int) is Text,
            old(self).live(id as int),
        ensures
            final(self).wf(),
            final(self).cells() == old(self).cells(),
            final(self).pending() == old(self).pending().push((id as int, text@)),
    {
        let ghost before = *self;
        let ghost t = text@;
        self.pending.push((id, text));
        assert(self.pending() =~= before.pending().push((id as int, t)));
        assert(self.cells() == before.cells());
        assert forall|i: int, j: int|
            0 <= i < self.len() && 0 <= j < self.children(i).len() implies self.valid(
                #[trigger] self.children(i)[j],
            ) && (self.live(i) ==> self.live(self.children(i)[j].spec_id())) by {
            assert(before.valid(before.children(i)[j]));
            if before.live(i) {
                assert(before.live(before.children(i)[j].spec_id()));
            }
        }
        assert forall|i: int| 0 <= i < self.len() implies (#[trigger] self.children(i)).no_duplicates() by {
            assert(self.children(i) == before.children(i));
        }
        assert forall|k: int| 0 <= k < self.pending().len() implies {
            let i = #[trigger] self.pending()[k].0;
            0 <= i < self.len() && self.node(i) is Text && self.live(i)
        } by {
            if k < before.pending().len() {
                assert(before.pending()[k] == self.pending()[k]);
            }
        }
    }

    /// Apply the queued text writes in the order they were made; for each
    /// node the last one wins.
    pub fn flush_updates(&mut self)
        requires
            old(self).wf(),
        ensures
            final(self).wf(),
            final(self).len() == old(self).len(),
            forall|i: int|
                0 <= i < old(self).len() ==> final(self).node(i) == flushed(
                    old(self).pending(),
                    i,
                    old(self).node(i),
                ),
            forall|i: int| 0 <= i < old(self).len() ==> final(self).live(i) == old(self).live(i),
            final(self).pending().len() == 0,
    {
        let ghost start = *self;
        let mut queue: Vec<(usize, String)> = Vec::new();
        std::mem::swap(&mut queue, &mut self.pending);
        assert(self.pending() =~= Seq::empty());
        assert(queue@.map_values(|p: (usize, String)| (p.0 as int, p.1@)) == start.pending());
        proof {
            if self.len() > 0 {
                self.lemma_children_kept(&start, 0int);
            }
        }
        let ghost q = start.pending();
        let n = queue.len();
        let mut k: usize = 0;
        while k < n
            invariant
                0 <= k <= n,
                n == queue@.len(),
                q.len() == n,
                forall|j: int| 0 <= j < n ==> (#[trigger] q[j]) == (queue@[j].0 as int, queue@[j].1@),
                forall|j: int| 0 <= j < n ==> {
                    let i = #[trigger] q[j].0;
                    0 <= i < start.len() && start.node(i) is Text
                },
                self.wf(),
                self.len() == start.len(),
                self.pending().len() == 0,
                forall|i: int| 0 <= i < start.len() ==> self.live(i) == start.live(i),
                forall|i: int|
                    0 <= i < start.len() ==> self.node(i) == flushed(
                        q.subrange(0, k as int),
                        i,
                        start.node(i),
                    ),
            decreases n - k,
        {
            assert(q.subrange(0, k + 1).drop_last() =~= q.subrange(0, k as int));
            let id = queue[k].0;
            let text = queue[k].1.clone();
            assert(q[k as int].0 == id as int);
            assert(start.node(id as int) is Text);
            assert(self.node(id as int) is Text) by {
                lemma_flushed_text(q.subrange(0, k as int), id as int, start.node(id as int));
            }
            self.write_text(id, text);
            k = k + 1;
        }
        assert(q.subrange(0, n as int) =~= q);
    }

    pub(crate) fn shrink_child_list(&mut self, id: usize)
        requires
            old(self).wf(),
            0 <= id < old(self).len(),
        ensures
            final(self).wf(),
            old(self).changed_one(final(self), id as int, old(self).node(id as int)),
    {
        let ghost before = *self;
        let cell = &mut self.nodes[id];
        match cell {
            Lazy::Value(NodeData::Element(e)) => {
                shrink_vec(&mut e.children);
            },
            _ => {},
        }
        proof { self.lemma_children_kept(&before, id as int); }
    }

    /// Materialise `h` and every virtual node below it on the live surface.
    /// A node that is already live is left as it is.
    pub fn materialize(&mut self, h: DomNodeData)
        requires
            old(self).wf(),
            old(self).valid(h),
        ensures
            final(self).wf(),
            old(self).same_contents(final(self)),
            final(self).live(h.spec_id()),
            forall|i: int| 0 <= i < old(self).len() && old(self).live(i) ==> final(self).live(i),
            !old(self).is_thunk_node(h) ==> forall|i: int|
                0 <= i < old(self).len() ==> final(self).live(i) == old(self).live(i),
    {
        if self.is_thunk(h) {
            self.promote(h);
        }
    }

    /// The children of element `e`, in order.
    pub fn child_nodes(&self, e: DomElement) -> (r: Vec<DomNodeData>)
        requires
            self.wf(),
            self.valid_element(e),
        ensures
            r@ == self.children(e.id as int),
    {
        let kids = self.child_list(e.id);
        let mut r: Vec<DomNodeData> = Vec::new();
        let mut i: usize = 0;
        while i < kids.len()
            invariant
                0 <= i <= kids@.len(),
                r@ == kids@.subrange(0, i as int),
            decreases kids@.len() - i,
        {
            r.push(kids[i]);
            i = i + 1;
            assert(r@ =~= kids@.subrange(0, i as int));
        }
        assert(kids@.subrange(0, kids@.len() as int) =~= kids@);
        r
    }

    pub(crate) fn data_ref(&self, id: usize) -> (r: &NodeData)
        requires
            self.wf(),
            0 <= id < self.len(),
        ensures
            r@ == self.node(id as int),
    {
        match &self.nodes[id] {
            Lazy::Value(d) => d,
            Lazy::Thunk(Some(d)) => d,
            Lazy::Thunk(None) => unreached(),
        }
    }

    /// The text that text node `t` shows.
    pub fn text(&self, t: DomText) -> (r: String)
        requires
            self.wf(),
            self.valid_text(t),
        ensures
            self.node(t.id as int) == NodeView::Text(r@),
    {
        match self.data_ref(t.id) {
            NodeData::Text(s) => s.clone(),
            NodeData::Element(_) => unreached(),
        }
    }

    /// The tag of element `e`.
    pub fn tag(&self, e: DomElement) -> (r: String)
        requires
            self.wf(),
            self.valid_element(e),
        ensures
            self.node(e.id as int)->Element_0.tag == r@,
    {
        match self.data_ref(e.id) {
            NodeData::Element(d) => d.tag.clone(),
            NodeData::Text(_) => unreached(),
        }
    }

    /// The value of attribute `name` of element `e`, if it is set.
    pub fn attribute_value(&self, e: DomElement, name: &str) -> (r: Option<String>)
        requires
            self.wf(),
            self.valid_element(e),
        ensures
            ({
                let a = self.node(e.id as int)->Element_0.attributes;
                let k = attribute_index(a, name@);
                option_view(r) == if k >= 0 {
                    Some(a[k].1)
                } else {
                    None
                }
            }),
    {
        match self.data_ref(e.id) {
            NodeData::Element(d) => {
                let key = name.to_owned();
                match attribute_position(&d.attributes, &key) {
                    Some(k) => Some(d.attributes[k].1.clone()),
                    None => None,
                }
            },
            NodeData::Text(_) => unreached(),
        }
    }

    /// The event registrations of element `e`, in order.
    pub fn events(&self, e: DomElement) -> (r: Vec<(String, usize)>)
        requires
            self.wf(),
            self.valid_element(e),
        ensures
            r@.map_values(|p: (String, usize)| (p.0@, p.1)) == self.node(e.id as int)->Element_0.events,
    {
        match self.data_ref(e.id) {
            NodeData::Element(d) => {
                let ghost src = d.events@.map_values(|p: (String, usize)| (p.0@, p.1));
                let mut r: Vec<(String, usize)> = Vec::new();
                let mut i: usize = 0;
                while i < d.events.len()
                    invariant
                        0 <= i <= d.events@.len(),
                        r@.len() == i,
                        src == d.events@.map_values(|p: (String, usize)| (p.0@, p.1)),
                        r@.map_values(|p: (String, usize)| (p.0@, p.1)) == src.subrange(0, i as int),
                    decreases d.events@.len() - i,
                {
                    let ghost prev = r@;
                    let name = d.events[i].0.clone();
                    assert(name@ == src[i as int].0);
                    r.push((name, d.events[i].1));
                    assert(r@ == prev.push(r@[i as int]));
                    assert(src.subrange(0, i + 1) =~= src.subrange(0, i as int).push(src[i as int]));
                    i = i + 1;
                    assert(r@.map_values(|p: (String, usize)| (p.0@, p.1)) =~= src.subrange(0, i as int));
                }
                assert(src.subrange(0, d.events@.len() as int) =~= src);
                r
            },
            NodeData::Text(_) => unreached(),
        }
    }

    /// How many text writes wait for the next flush.
    pub fn pending_updates(&self) -> (r: usize)
        ensures
            r == self.pending().len(),
    {
        self.pending.len()
    }

    /// The number of nodes in the arena.
    pub fn node_count(&self) -> (r: usize)
        ensures
            r == self.len(),
    {
        self.nodes.len()
    }

    /// Materialise `root` and every node below it that is still virtual.
    /// Contents are kept; live nodes stay live.
    pub(crate) fn promote(&mut self, root: DomNodeData)
        requires
            old(self).wf(),
            old(self).valid(root),
        ensures
            final(self).wf(),
            old(self).same_contents(final(self)),
            final(self).live(root.spec_id()),
            forall|i: int| 0 <= i < old(self).len() && old(self).live(i) ==> final(self).live(i),
    {
        let ghost start = *self;
        let mut stack: Vec<usize> = Vec::new();
        stack.push(root.id());
        assert(stack@[0] == root.spec_id());
        while stack.len() > 0
            invariant
                self.len() == start.len(),
                forall|i: int| 0 <= i < self.len() ==> self.node(i) == start.node(i),
                forall|i: int| 0 <= i < self.len() ==> (#[trigger] self.cells()[i]).wf(),
                self.pending() == start.pending(),
                start.wf(),
                forall|i: int| 0 <= i < self.len() && start.live(i) ==> self.live(i),
                forall|k: int| 0 <= k < stack.len() ==> stack@[k] < self.len(),
                forall|i: int, j: int|
                    #![trigger self.children(i)[j]]
                    0 <= i < self.len() && 0 <= j < self.children(i).len() && self.live(i)
                        ==> self.live(self.children(i)[j].spec_id()) || stack@.contains(
                        self.children(i)[j].spec_id() as usize,
                    ),
                0 <= root.spec_id() < self.len(),
                self.live(root.spec_id()) || stack@.contains(root.spec_id() as usize),
            decreases thunk_count(self.cells()), stack.len(),
        {
            let ghost before = *self;
            let ghost full = stack@;
            let id = stack.pop().unwrap();
            let ghost popped = stack@;
            assert(full == popped.push(id));
            // whatever the full stack held is now live or still stacked
            assert forall|c: usize| full.contains(c) && c != id implies popped.contains(c) by {
                let k = choose|k: int| 0 <= k < full.len() && full[k] == c;
                assert(k < popped.len());
                assert(popped[k] == c);
            }
            assert(before.live(root.spec_id()) || full.contains(root.spec_id() as usize));
            if self.nodes[id].is_thunk() {
                proof {
                    lemma_thunk_count_promote(
                        self.cells(),
                        id as int,
                        cell_data(self.cells()[id as int]),
                    );
                }
                let cell = &mut self.nodes[id];
                cell.value_with(|d: NodeData| -> (r: NodeData) ensures r == d { d });
                assert(self.cells() == before.cells().update(
                    id as int,
                    Lazy::Value(cell_data(before.cells()[id as int])),
                ));
                assert(self.node(id as int) == before.node(id as int));
                let is_element = match &self.nodes[id] {
                    Lazy::Value(NodeData::Element(_)) => true,
                    _ => false,
                };
                if is_element {
                    let kids = self.child_list(id);
                    let n = kids.len();
                    let mut j: usize = 0;
                    while j < n
                        invariant
                            0 <= j <= n,
                            n == self.children(id as int).len(),
                            kids@ == self.children(id as int),
                            forall|k: int| 0 <= k < stack.len() ==> stack@[k] < self.len(),
                            stack@.len() == popped.len() + j,
                            forall|k: int| 0 <= k < popped.len() ==> stack@[k] == popped[k],
                            forall|k: int|
                                0 <= k < j ==> stack@[popped.len() + k]
                                    == self.children(id as int)[k].spec_id(),
                            start.wf(),
                            self.len() == start.len(),
                            forall|i: int| 0 <= i < self.len() ==> self.node(i) == start.node(i),
                            0 <= id < self.len(),
                        decreases n - j,
                    {
                        assert(start.children(id as int) == self.children(id as int));
                        assert(start.valid(start.children(id as int)[j as int]));
                        stack.push(kids[j].id());
                        j = j + 1;
                    }
                    assert forall|k: int| 0 <= k < n implies stack@.contains(
                        (#[trigger] self.children(id as int)[k]).spec_id() as usize,
                    ) by {
                        assert(stack@[popped.len() + k] == self.children(id as int)[k].spec_id());
                    }
                } else {
                    assert(self.children(id as int).len() == 0);
                }
                assert forall|c: usize| popped.contains(c) implies stack@.contains(c) by {
                    let k = choose|k: int| 0 <= k < popped.len() && popped[k] == c;
                    assert(stack@[k] == c);
                }
                proof {
                    if root.spec_id() != id as int && !before.live(root.spec_id()) {
                        assert(popped.contains(root.spec_id() as usize));
                    }
                }
                assert forall|i: int, j: int|
                    0 <= i < self.len() && 0 <= j < self.children(i).len() && self.live(i)
                        implies self.live((#[trigger] self.children(i)[j]).spec_id())
                        || stack@.contains(self.children(i)[j].spec_id() as usize) by {
                    assert(self.children(i) == before.children(i));
                    if i != id {
                        assert(before.live(i));
                        let c = self.children(i)[j].spec_id();
                        assert(before.children(i)[j] == self.children(i)[j]);
                        assert(before.live(c) || full.contains(c as usize));
                        assert(start.children(i) == self.children(i));
                        assert(start.valid(start.children(i)[j]));
                        assert(0 <= c < self.len());
                        if before.live(c) {
                            assert(self.live(c));
                        } else if c as usize == id {
                            assert(self.live(c));
                        } else {
                            assert(popped.contains(c as usize));
                        }
                    }
                }
            } else {
                proof {
                    if root.spec_id() != id as int && !before.live(root.spec_id()) {
                        assert(popped.contains(root.spec_id() as usize));
                    }
                }
            }
        }
        assert forall|i: int, j: int|
            0 <= i < self.len() && 0 <= j < self.children(i).len() implies self.valid(
                #[trigger] self.children(i)[j],
            ) by {
            assert(self.children(i) == start.children(i));
            assert(start.valid(start.children(i)[j]));
        }
        assert forall|i: int| 0 <= i < self.len() implies (#[trigger] self.children(i)).no_duplicates() by {
            assert(self.children(i) == start.children(i));
        }
        assert forall|k: int| 0 <= k < self.pending().len() implies {
            let i = #[trigger] self.pending()[k].0;
            0 <= i < self.len() && self.node(i) is Text && self.live(i)
        } by {
            assert(start.pending()[k] == self.pending()[k]);
        }
    }
}


/// The number of cells still in the virtual representation.
pub open spec fn thunk_count(s: Seq<Lazy<NodeData, NodeData>>) -> nat
    decreases s.len(),
{
    if s.len() == 0 {
        0
    } else {
        thunk_count(s.drop_last()) + if s.last() is Thunk {
            1nat
        } else {
            0nat
        }
    }
}

proof fn lemma_thunk_count_promote(s: Seq<Lazy<NodeData, NodeData>>, i: int, v: NodeData)
    requires
        0 <= i < s.len(),
        s[i] is Thunk,
    ensures
        thunk_count(s.update(i, Lazy::Value(v))) + 1 == thunk_count(s),
    decreases s.len(),
{
    let u = s.update(i, Lazy::Value(v));
    if i == s.len() - 1 {
        assert(u.drop_last() =~= s.drop_last());
    } else {
        assert(u.drop_last() =~= s.drop_last().update(i, Lazy::Value(v)));
        lemma_thunk_count_promote(s.drop_last(), i, v);
    }
}

/// `v` with its child list replaced by `kids` (text is left as it is).
pub open spec fn with_children(v: NodeView, kids: Seq<DomNodeData>) -> NodeView {
    match v {
        NodeView::Element(e) => NodeView::Element(ElementView { children: kids, ..e }),
        NodeView::Text(_) => v,
    }
}

/// The child list after `x` is attached as the last child.
pub open spec fn appended(c: Seq<DomNodeData>, x: DomNodeData) -> Seq<DomNodeData> {
    without(c, x).push(x)
}

/// The child list after `x` is attached just before `next`, or last where
/// `next` is absent or not a child.
pub open spec fn inserted_before(
    c: Seq<DomNodeData>,
    x: DomNodeData,
    next: Option<DomNodeData>,
) -> Seq<DomNodeData> {
    let d = without(c, x);
    match next {
        Some(n) => if first_index(d, n) >= 0 {
            d.insert(first_index(d, n), x)
        } else {
            d.push(x)
        },
        None => d.push(x),
    }
}

/// Where `x` lands when inserted before `next`: immediately before `next`
/// where that is another node already in `c`, and last otherwise.
pub open spec fn lands_before(c: Seq<DomNodeData>, x: DomNodeData, next: Option<DomNodeData>) -> bool {
    let r = inserted_before(c, x, next);
    match next {
        Some(n) => if c.contains(n) && n != x {
            let k = first_index(without(c, x), n);
            0 <= k && k + 1 < r.len() && r[k] == x && r[k + 1] == n
        } else {
            r.len() > 0 && r.last() == x
        },
        None => r.len() > 0 && r.last() == x,
    }
}

pub proof fn lemma_lands_before(c: Seq<DomNodeData>, x: DomNodeData, next: Option<DomNodeData>)
    ensures
        lands_before(c, x, next),
{
    let d = without(c, x);
    match next {
        Some(n) => {
            lemma_without_contains(c, x, n);
            lemma_first_index_result(d, n);
        },
        None => {},
    }
}

/// The child list after `new` takes the place of `old`; unchanged where
/// `old` is not a child.
pub open spec fn replaced(
    c: Seq<DomNodeData>,
    new: DomNodeData,
    old: DomNodeData,
) -> Seq<DomNodeData> {
    if new == old {
        c
    } else {
        let d = without(c, new);
        if first_index(d, old) >= 0 {
            d.update(first_index(d, old), new)
        } else {
            d
        }
    }
}

/// Relies on `Vec::shrink_to_fit`: it releases spare capacity and keeps the
/// contents.
#[verifier::external_body]
pub(crate) fn shrink_vec<T>(v: &mut Vec<T>)
    ensures
        final(v)@ == old(v)@,
{
    v.shrink_to_fit()
}

/// `v` with every occurrence of `x` taken out.
pub(crate) fn without_vec(v: &Vec<DomNodeData>, x: DomNodeData) -> (r: Vec<DomNodeData>)
    ensures
        r@ == without(v@, x),
{
    let mut r: Vec<DomNodeData> = Vec::new();
    let mut i: usize = 0;
    while i < v.len()
        invariant
            0 <= i <= v.len(),
            r@ == without(v@.subrange(0, i as int), x),
        decreases v.len() - i,
    {
        assert(v@.subrange(0, i + 1).drop_last() =~= v@.subrange(0, i as int));
        if v[i] != x {
            r.push(v[i]);
        }
        i = i + 1;
    }
    assert(v@.subrange(0, v.len() as int) =~= v@);
    r
}

/// The first position of `x` in `v`.
pub(crate) fn position(v: &Vec<DomNodeData>, x: DomNodeData) -> (r: Option<usize>)
    ensures
        match r {
            Some(k) => first_index(v@, x) == k,
            None => first_index(v@, x) == -1,
        },
{
    let mut i: usize = 0;
    while i < v.len()
        invariant
            0 <= i <= v.len(),
            forall|j: int| 0 <= j < i ==> v@[j] != x,
        decreases v.len() - i,
    {
        if v[i] == x {
            proof {
                lemma_first_index_found(v@, x, i as int);
            }
            return Some(i);
        }
        i = i + 1;
    }
    proof {
        lemma_first_index_absent(v@, x);
    }
    None
}

/// Every handle in `args` is still virtual (true of no handles at all).
pub fn all_thunks(dom: &Dom, args: &[DomNodeData]) -> (r: bool)
    requires
        dom.wf(),
        forall|k: int| 0 <= k < args@.len() ==> dom.valid(#[trigger] args@[k]),
    ensures
        r == forall|k: int| 0 <= k < args@.len() ==> dom.is_thunk_node(#[trigger] args@[k]),
{
    let mut i: usize = 0;
    while i < args.len()
        invariant
            0 <= i <= args@.len(),
            dom.wf(),
            forall|k: int| 0 <= k < args@.len() ==> dom.valid(#[trigger] args@[k]),
            forall|k: int| 0 <= k < i ==> dom.is_thunk_node(#[trigger] args@[k]),
        decreases args@.len() - i,
    {
        if !dom.is_thunk(args[i]) {
            return false;
        }
        i = i + 1;
    }
    true
}

/// The first position whose attribute is named `name`, or -1.
pub open spec fn attribute_index(a: Seq<(Seq<char>, Seq<char>)>, name: Seq<char>) -> int {
    if exists|k: int| is_first_named(a, name, k) {
        choose|k: int| is_first_named(a, name, k)
    } else {
        -1
    }
}

pub open spec fn is_first_named(a: Seq<(Seq<char>, Seq<char>)>, name: Seq<char>, k: int) -> bool {
    &&& 0 <= k < a.len()
    &&& a[k].0 == name
    &&& forall|j: int| 0 <= j < k ==> a[j].0 != name
}

/// The attribute list after `name` is set to `value`, or taken out where
/// `value` is `None`. A name that is present keeps its position.
pub open spec fn set_attribute(
    a: Seq<(Seq<char>, Seq<char>)>,
    name: Seq<char>,
    value: Option<Seq<char>>,
) -> Seq<(Seq<char>, Seq<char>)> {
    let k = attribute_index(a, name);
    match value {
        Some(v) => if k >= 0 {
            a.update(k, (name, v))
        } else {
            a.push((name, v))
        },
        None => if k >= 0 {
            a.remove(k)
        } else {
            a
        },
    }
}

pub open spec fn option_view(o: Option<String>) -> Option<Seq<char>> {
    match o {
        Some(s) => Some(s@),
        None => None,
    }
}

/// `v` with the event registration `(name, handler)` added last (text is
/// left as it is).
pub open spec fn with_event(v: NodeView, name: Seq<char>, handler: usize) -> NodeView {
    match v {
        NodeView::Element(e) => NodeView::Element(
            ElementView { events: e.events.push((name, handler)), ..e },
        ),
        NodeView::Text(_) => v,
    }
}

/// `v` with its attribute list replaced by `a` (text is left as it is).
pub open spec fn with_attributes(v: NodeView, a: Seq<(Seq<char>, Seq<char>)>) -> NodeView {
    match v {
        NodeView::Element(e) => NodeView::Element(ElementView { attributes: a, ..e }),
        NodeView::Text(_) => v,
    }
}

/// The first position whose attribute is named `name`.
fn attribute_position(attrs: &Vec<(String, String)>, name: &String) -> (r: Option<usize>)
    ensures
        match r {
            Some(k) => attribute_index(attributes_view(attrs@), name@) == k,
            None => attribute_index(attributes_view(attrs@), name@) == -1,
        },
{
    let ghost a = attributes_view(attrs@);
    let mut i: usize = 0;
    while i < attrs.len()
        invariant
            0 <= i <= attrs@.len(),
            a == attributes_view(attrs@),
            forall|j: int| 0 <= j < i ==> a[j].0 != name@,
        decreases attrs@.len() - i,
    {
        if attrs[i].0 == *name {
            proof {
                assert(is_first_named(a, name@, i as int));
                let c = choose|k: int| is_first_named(a, name@, k);
                if c < i {
                    assert(a[c].0 != name@);
                } else if (i as int) < c {
                    assert(a[i as int].0 != name@);
                }
            }
            return Some(i);
        }
        i = i + 1;
    }
    None
}

fn set_attribute_vec(attrs: &mut Vec<(String, String)>, name: String, value: Option<String>)
    ensures
        attributes_view(final(attrs)@) == set_attribute(
            attributes_view(old(attrs)@),
            name@,
            option_view(value),
        ),
{
    let ghost a = attributes_view(attrs@);
    let found = attribute_position(attrs, &name);
    match found {
        Some(k) => {
            match value {
                Some(v) => {
                    attrs.set(k, (name, v));
                },
                None => {
                    attrs.remove(k);
                },
            }
        },
        None => {
            match value {
                Some(v) => {
                    attrs.push((name, v));
                },
                None => {},
            }
        },
    }
    assert(attributes_view(attrs@) =~= set_attribute(a, name@, option_view(value)));
}

/// Node `i` after the text writes of `q` have been applied in order to
/// `current`: the last write to `i` wins.
pub open spec fn flushed(q: Seq<(int, Seq<char>)>, i: int, current: NodeView) -> NodeView
    decreases q.len(),
{
    if q.len() == 0 {
        current
    } else if q.last().0 == i {
        NodeView::Text(q.last().1)
    } else {
        flushed(q.drop_last(), i, current)
    }
}

proof fn lemma_flushed_text(q: Seq<(int, Seq<char>)>, i: int, current: NodeView)
    requires
        current is Text,
    ensures
        flushed(q, i, current) is Text,
    decreases q.len(),
{
    if q.len() > 0 {
        lemma_flushed_text(q.drop_last(), i, current);
    }
}
} // verus!
