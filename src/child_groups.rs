use vstd::prelude::*;
use crate::dom::{
    inserted_before, lands_before, lemma_lands_before, shrink_vec, with_children, Dom,
    DomElement, DomNodeData,
};
use crate::node::{node_of, option_seq, DomNode};
use crate::seq_util::{detached, lemma_without_detached, without};

verus! {

/// The anchor of the first occupied slot at `from` or later, if any.
pub open spec fn next_anchor(slots: Seq<Option<DomNodeData>>, from: int) -> Option<DomNodeData>
    decreases slots.len() - from,
{
    if from < 0 || from >= slots.len() {
        None
    } else if slots[from] is Some {
        slots[from]
    } else {
        next_anchor(slots, from + 1)
    }
}

/// The parent's child list after the anchor `old` of a slot (if any) is
/// detached and `child` is inserted before `next`.
pub open spec fn upserted(
    c: Seq<DomNodeData>,
    old: Option<DomNodeData>,
    child: DomNodeData,
    next: Option<DomNodeData>,
) -> Seq<DomNodeData> {
    let kept = match old {
        Some(x) => without(c, x),
        None => c,
    };
    inserted_before(kept, child, next)
}

/// The parent's children that remain once the old anchor (if any) is
/// detached.
pub open spec fn kept(c: Seq<DomNodeData>, old: Option<DomNodeData>) -> Seq<DomNodeData> {
    match old {
        Some(x) => without(c, x),
        None => c,
    }
}

pub open spec fn thunk_opt(dom: &Dom, o: Option<DomNodeData>) -> bool {
    match o {
        Some(n) => dom.is_thunk_node(n),
        None => true,
    }
}

pub open spec fn live_opt(dom: &Dom, o: Option<DomNodeData>) -> bool {
    match o {
        Some(n) => dom.live(n.spec_id()),
        None => true,
    }
}

/// The representation rule for an upsert into a slot of `parent` whose old
/// anchor is `old`, placing `child` before `next`: where all of them are
/// virtual, the live surface is not touched; otherwise the parent, the child
/// and `next` are live afterwards. Nothing live ever goes back.
pub open spec fn upsert_dispatched(
    before: &Dom,
    after: &Dom,
    parent: DomNodeData,
    old: Option<DomNodeData>,
    child: DomNodeData,
    next: Option<DomNodeData>,
) -> bool {
    let all_virtual = before.is_thunk_node(parent) && before.is_thunk_node(child) && thunk_opt(
        before,
        old,
    ) && thunk_opt(before, next);
    &&& all_virtual ==> before.surface_untouched(after)
    &&& !all_virtual ==> after.live(parent.spec_id()) && after.live(child.spec_id()) && live_opt(
        after,
        next,
    )
    &&& forall|i: int| 0 <= i < before.len() && before.live(i) ==> #[trigger] after.live(i)
}

proof fn lemma_upsert_dispatched(
    d0: &Dom,
    d1: &Dom,
    d2: &Dom,
    p: DomNodeData,
    x: Option<DomNodeData>,
    c: DomNodeData,
    next: Option<DomNodeData>,
)
    requires
        match x {
            Some(xx) => d0.dispatched(d1, seq![p, xx]) && 0 <= xx.spec_id() < d0.len(),
            None => *d1 == *d0,
        },
        d1.dispatched(d2, seq![p, c] + option_seq(next)),
        d0.len() == d1.len(),
        d1.len() == d2.len(),
        0 <= p.spec_id() < d0.len(),
        0 <= c.spec_id() < d0.len(),
        forall|n: DomNodeData| next == Some(n) ==> 0 <= n.spec_id() < d0.len(),
    ensures
        upsert_dispatched(d0, d2, p, x, c, next),
{
    let ops = seq![p, c] + option_seq(next);
    assert(ops[0] == p && ops[1] == c);
    if next is Some {
        assert(ops[2] == next.unwrap());
        assert(ops.len() == 3);
    } else {
        assert(ops.len() == 2);
    }
    let t1 = d1.is_thunk_node(p) && d1.is_thunk_node(c) && thunk_opt(d1, next);
    assert(t1 <==> forall|k: int| 0 <= k < ops.len() ==> d1.is_thunk_node(#[trigger] ops[k]));
    if !t1 {
        assert(d2.live(p.spec_id()) && d2.live(c.spec_id()) && live_opt(d2, next));
    }
    match x {
        Some(xx) => {
            let ops0 = seq![p, xx];
            assert(ops0[0] == p && ops0[1] == xx);
            let t0 = d0.is_thunk_node(p) && d0.is_thunk_node(xx);
            assert(t0 <==> forall|k: int| 0 <= k < ops0.len() ==> d0.is_thunk_node(#[trigger] ops0[k]));
            if !t0 {
                assert(d1.live(p.spec_id()));
            }
        },
        None => {
            assert(d0.surface_untouched(d1));
        },
    }
}

/// Groups of children with the same parent.
///
/// Each slot is one logical child position, in order, and holds the node
/// that currently anchors it (`None` for a region that renders nothing but
/// keeps its place). Insertion points are found from the slots that are
/// occupied now, never from a cached position.
pub struct ChildGroups {
    parent: DomElement,
    children: Vec<Option<DomNodeData>>,
    // `true` if the last child group can change.
    last_is_dynamic: bool,
    group_count: usize,
}

impl ChildGroups {
    pub closed spec fn spec_parent(&self) -> DomElement {
        self.parent
    }

    pub closed spec fn slots(&self) -> Seq<Option<DomNodeData>> {
        self.children@
    }

    pub closed spec fn last_dynamic(&self) -> bool {
        self.last_is_dynamic
    }

    pub closed spec fn groups(&self) -> nat {
        self.group_count as nat
    }

    /// The parent and every anchor name nodes of `dom`.
    pub open spec fn wf_in(&self, dom: &Dom) -> bool {
        &&& dom.wf()
        &&& dom.valid_element(self.spec_parent())
        &&& forall|k: int|
            0 <= k < self.slots().len() && (#[trigger] self.slots()[k]) is Some ==> dom.valid(
                self.slots()[k]->Some_0,
            )
    }

    pub fn new(parent: DomElement) -> (r: Self)
        ensures
            r.spec_parent() == parent,
            r.slots().len() == 0,
            !r.last_dynamic(),
            r.groups() == 0,
    {
        ChildGroups { parent, children: Vec::new(), last_is_dynamic: false, group_count: 0 }
    }

    /// Exactly one group has been created.
    pub fn is_single_group(&self) -> (r: bool)
        ensures
            r == (self.groups() == 1),
    {
        self.group_count == 1
    }

    /// Reserve a new, empty, dynamic slot at the end and return its index.
    pub fn new_group(&mut self) -> (r: usize)
        requires
            old(self).groups() < usize::MAX,
        ensures
            r == old(self).slots().len(),
            final(self).slots() == old(self).slots().push(None),
            final(self).last_dynamic(),
            final(self).groups() == old(self).groups() + 1,
            final(self).spec_parent() == old(self).spec_parent(),
    {
        self.group_count = self.group_count + 1;
        self.last_is_dynamic = true;
        let index = self.children.len();
        self.children.push(None);
        index
    }

    /// The anchor of the first occupied slot after `index`, if any: the node
    /// that a child of slot `index` goes before.
    pub fn get_next_group_elem(&self, index: usize) -> (r: Option<DomNodeData>)
        requires
            index < self.slots().len(),
        ensures
            r == next_anchor(self.slots(), index + 1),
    {
        let n = self.children.len();
        let mut i: usize = index + 1;
        while i < n
            invariant
                index < i <= self.slots().len(),
                n == self.slots().len(),
                next_anchor(self.slots(), index + 1) == next_anchor(self.slots(), i as int),
            decreases n - i,
        {
            if let Some(n) = self.children[i] {
                return Some(n);
            }
            i = i + 1;
        }
        None
    }

    /// Insert `child` into the parent just before the anchor of the next
    /// occupied slot after `index`, or last where there is none. The slots
    /// are left as they are.
    pub fn insert_last_child(&self, dom: &mut Dom, index: usize, child: DomNodeData)
        requires
            self.wf_in(old(dom)),
            index < self.slots().len(),
            old(dom).valid(child),
        ensures
            self.wf_in(final(dom)),
            old(dom).updated(
                final(dom),
                self.spec_parent().id as int,
                with_children(
                    old(dom).node(self.spec_parent().id as int),
                    inserted_before(
                        old(dom).children(self.spec_parent().id as int),
                        child,
                        next_anchor(self.slots(), index + 1),
                    ),
                ),
            ),
            old(dom).dispatched(
                final(dom),
                seq![self.spec_parent().spec_data(), child] + option_seq(
                    next_anchor(self.slots(), index + 1),
                ),
            ),
            lands_before(
                old(dom).children(self.spec_parent().id as int),
                child,
                next_anchor(self.slots(), index + 1),
            ),
    {
        let next = self.get_next_group_elem(index);
        assert(node_of(next) == next);
        proof {
            if next is Some {
                self.lemma_next_anchor_valid(dom, index + 1);
            }
        }
        self.parent.insert_child_before(dom, child, next);
        proof {
            self.lemma_wf_kept(dom);
            lemma_lands_before(old(dom).children(self.spec_parent().id as int), child, next);
        }
    }

    /// Make `child` the anchor of slot `index`: an anchor already there is
    /// detached from the parent first, then `child` is inserted before the
    /// anchor of the next occupied slot. Returns whether there was an anchor.
    pub fn upsert_only_child(&mut self, dom: &mut Dom, index: usize, child: DomNodeData) -> (r:
        bool)
        requires
            old(self).wf_in(old(dom)),
            index < old(self).slots().len(),
            old(dom).valid(child),
        ensures
            final(self).wf_in(final(dom)),
            r == old(self).slots()[index as int] is Some,
            final(self).slots() == old(self).slots().update(index as int, Some(child)),
            final(self).spec_parent() == old(self).spec_parent(),
            final(self).groups() == old(self).groups(),
            final(self).last_dynamic() == old(self).last_dynamic(),
            old(dom).updated(
                final(dom),
                old(self).spec_parent().id as int,
                with_children(
                    old(dom).node(old(self).spec_parent().id as int),
                    upserted(
                        old(dom).children(old(self).spec_parent().id as int),
                        old(self).slots()[index as int],
                        child,
                        next_anchor(final(self).slots(), index + 1),
                    ),
                ),
            ),
            upsert_dispatched(
                old(dom),
                final(dom),
                old(self).spec_parent().spec_data(),
                old(self).slots()[index as int],
                child,
                next_anchor(final(self).slots(), index + 1),
            ),
            lands_before(
                kept(
                    old(dom).children(old(self).spec_parent().id as int),
                    old(self).slots()[index as int],
                ),
                child,
                next_anchor(final(self).slots(), index + 1),
            ),
            forall|x: DomNodeData|
                old(self).slots()[index as int] == Some(x) && x != child ==> !final(dom).children(
                    old(self).spec_parent().id as int,
                ).contains(x),
    {
        let ghost d0 = *dom;
        let existing = self.children[index];
        assert(existing == self.slots()[index as int]);
        self.children.set(index, Some(child));
        assert forall|k: int|
            0 <= k < self.slots().len() && (#[trigger] self.slots()[k]) is Some implies dom.valid(
                self.slots()[k]->Some_0,
            ) by {
            if k != index {
                assert(old(self).slots()[k] == self.slots()[k]);
            }
        }
        let existed = match existing {
            Some(x) => {
                assert(old(self).slots()[index as int] is Some);
                self.parent.remove_child(dom, &x);
                proof {
                    self.lemma_wf_kept(dom);
                }
                true
            },
            None => false,
        };
        let ghost d1 = *dom;
        self.insert_last_child(dom, index, child);
        assert(dom.node(self.parent.id as int) == with_children(
            d0.node(self.parent.id as int),
            upserted(d0.children(self.parent.id as int), existing, child, next_anchor(self.slots(), index + 1)),
        ));
        proof {
            let next = next_anchor(self.slots(), index + 1);
            if next is Some {
                self.lemma_next_anchor_valid(&d1, index + 1);
            }
            lemma_upsert_dispatched(&d0, &d1, dom, self.parent.spec_data(), existing, child, next);
            if let Some(x) = existing {
                if x != child {
                    crate::laws::lemma_upsert_detaches_previous(d0.children(self.parent.id as int), x, child, next);
                }
            }
        }
        existed
    }

    /// Make `child` the anchor of slot `index`, which must be empty, and
    /// insert it before the anchor of the next occupied slot.
    pub fn insert_only_child(&mut self, dom: &mut Dom, index: usize, child: DomNodeData)
        requires
            old(self).wf_in(old(dom)),
            index < old(self).slots().len(),
            old(self).slots()[index as int] is None,
            old(dom).valid(child),
        ensures
            final(self).wf_in(final(dom)),
            final(self).slots() == old(self).slots().update(index as int, Some(child)),
            final(self).spec_parent() == old(self).spec_parent(),
            final(self).groups() == old(self).groups(),
            final(self).last_dynamic() == old(self).last_dynamic(),
            old(dom).updated(
                final(dom),
                old(self).spec_parent().id as int,
                with_children(
                    old(dom).node(old(self).spec_parent().id as int),
                    inserted_before(
                        old(dom).children(old(self).spec_parent().id as int),
                        child,
                        next_anchor(final(self).slots(), index + 1),
                    ),
                ),
            ),
            upsert_dispatched(
                old(dom),
                final(dom),
                old(self).spec_parent().spec_data(),
                None,
                child,
                next_anchor(final(self).slots(), index + 1),
            ),
            lands_before(
                old(dom).children(old(self).spec_parent().id as int),
                child,
                next_anchor(final(self).slots(), index + 1),
            ),
    {
        let existed = self.upsert_only_child(dom, index, child);
        assert(!existed);
    }

    /// Detach the anchor of slot `index`, if any, and leave the slot empty;
    /// the slot keeps its place.
    pub fn remove_child(&mut self, dom: &mut Dom, index: usize)
        requires
            old(self).wf_in(old(dom)),
            index < old(self).slots().len(),
        ensures
            final(self).wf_in(final(dom)),
            final(self).slots() == old(self).slots().update(index as int, None),
            final(self).spec_parent() == old(self).spec_parent(),
            final(self).groups() == old(self).groups(),
            final(self).last_dynamic() == old(self).last_dynamic(),
            match old(self).slots()[index as int] {
                Some(x) => old(dom).updated(
                    final(dom),
                    old(self).spec_parent().id as int,
                    with_children(
                        old(dom).node(old(self).spec_parent().id as int),
                        without(old(dom).children(old(self).spec_parent().id as int), x),
                    ),
                ),
                None => *final(dom) == *old(dom),
            },
            forall|x: DomNodeData|
                old(self).slots()[index as int] == Some(x) ==> old(dom).dispatched(
                    final(dom),
                    seq![old(self).spec_parent().spec_data(), x],
                ) && detached(
                    old(dom).children(old(self).spec_parent().id as int),
                    final(dom).children(old(self).spec_parent().id as int),
                    x,
                ),
    {
        let existing = self.children[index];
        self.children.set(index, None);
        assert forall|k: int|
            0 <= k < self.slots().len() && (#[trigger] self.slots()[k]) is Some implies dom.valid(
                self.slots()[k]->Some_0,
            ) by {
            assert(old(self).slots()[k] == self.slots()[k]);
        }
        if let Some(x) = existing {
            assert(old(self).slots()[index as int] is Some);
            self.parent.remove_child(dom, &x);
            proof {
                self.lemma_wf_kept(dom);
            }
        }
        proof {
            if let Some(x) = existing {
                lemma_without_detached(old(dom).children(self.parent.id as int), x);
            }
        }
    }

    /// Record `child` as the anchor of slot `index` without touching the
    /// parent.
    pub fn set_first_child(&mut self, index: usize, child: DomNodeData)
        requires
            index < old(self).slots().len(),
        ensures
            final(self).slots() == old(self).slots().update(index as int, Some(child)),
            final(self).spec_parent() == old(self).spec_parent(),
            final(self).groups() == old(self).groups(),
            final(self).last_dynamic() == old(self).last_dynamic(),
    {
        self.children.set(index, Some(child));
    }

    /// Record slot `index` as empty without touching the parent.
    pub fn clear_first_child(&mut self, index: usize)
        requires
            index < old(self).slots().len(),
        ensures
            final(self).slots() == old(self).slots().update(index as int, None),
            final(self).spec_parent() == old(self).spec_parent(),
            final(self).groups() == old(self).groups(),
            final(self).last_dynamic() == old(self).last_dynamic(),
    {
        self.children.set(index, None);
    }

    /// Release spare capacity of the slot list. Nothing that can be observed
    /// changes.
    pub fn shrink_to_fit(&mut self)
        ensures
            final(self).slots() == old(self).slots(),
            final(self).spec_parent() == old(self).spec_parent(),
            final(self).groups() == old(self).groups(),
            final(self).last_dynamic() == old(self).last_dynamic(),
    {
        shrink_vec(&mut self.children);
    }

    /// Append a group that is never replaced through its slot: `child` is
    /// attached as the parent's last child at once. It takes a slot of its
    /// own only where the last group was dynamic; either way the last group
    /// is closed afterwards.
    pub fn append_new_group_sync<N: DomNode>(&mut self, dom: &mut Dom, child: &N)
        requires
            old(self).wf_in(old(dom)),
            old(dom).valid(child.spec_node()),
            old(self).groups() < usize::MAX,
        ensures
            final(self).wf_in(final(dom)),
            final(self).slots() == if old(self).last_dynamic() {
                old(self).slots().push(Some(child.spec_node()))
            } else {
                old(self).slots()
            },
            !final(self).last_dynamic(),
            final(self).groups() == old(self).groups() + 1,
            final(self).spec_parent() == old(self).spec_parent(),
            old(dom).updated(
                final(dom),
                old(self).spec_parent().id as int,
                with_children(
                    old(dom).node(old(self).spec_parent().id as int),
                    crate::dom::appended(
                        old(dom).children(old(self).spec_parent().id as int),
                        child.spec_node(),
                    ),
                ),
            ),
            old(dom).dispatched(final(dom), seq![old(self).spec_parent().spec_data(), child.spec_node()]),
    {
        if self.last_is_dynamic {
            self.children.push(Some(child.node()));
        }
        assert forall|k: int|
            0 <= k < self.slots().len() && (#[trigger] self.slots()[k]) is Some implies dom.valid(
                self.slots()[k]->Some_0,
            ) by {
            if k < old(self).slots().len() {
                assert(old(self).slots()[k] == self.slots()[k]);
            }
        }
        self.group_count = self.group_count + 1;
        self.parent.append_child_now(dom, child);
        proof {
            self.lemma_wf_kept(dom);
        }
        self.last_is_dynamic = false;
    }

    /// Anchors that were nodes of `dom` are nodes of `dom` with the same
    /// kinds, once `dom` has changed in a way that keeps every node's kind.
    proof fn lemma_wf_kept(&self, dom: &Dom)
        requires
            dom.wf(),
            dom.valid_element(self.spec_parent()),
            forall|k: int|
                0 <= k < self.slots().len() && (#[trigger] self.slots()[k]) is Some
                    ==> 0 <= self.slots()[k]->Some_0.spec_id() < dom.len() && (dom.node(
                    self.slots()[k]->Some_0.spec_id(),
                ) is Element <==> self.slots()[k]->Some_0 is Element),
        ensures
            self.wf_in(dom),
    {
    }

    proof fn lemma_next_anchor_valid(&self, dom: &Dom, from: int)
        requires
            self.wf_in(dom),
        ensures
            next_anchor(self.slots(), from) is Some ==> dom.valid(
                next_anchor(self.slots(), from)->Some_0,
            ),
        decreases self.slots().len() - from,
    {
        if 0 <= from < self.slots().len() && self.slots()[from] is None {
            self.lemma_next_anchor_valid(dom, from + 1);
        }
    }
}

} // verus!
