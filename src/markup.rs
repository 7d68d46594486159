use vstd::prelude::*;
use crate::dom::{Dom, DomElement, DomNodeData, DomText, NodeData, NodeView};

verus! {

/// ` name="value"` for each attribute, in order.
pub open spec fn attributes_markup(a: Seq<(Seq<char>, Seq<char>)>) -> Seq<char>
    decreases a.len(),
{
    if a.len() == 0 {
        Seq::empty()
    } else {
        attributes_markup(a.drop_last()) + " "@ + a.last().0 + "=\""@ + a.last().1 + "\""@
    }
}

/// The markup of node `h`, descending at most `depth` levels.
pub open spec fn markup(dom: Dom, h: DomNodeData, depth: nat) -> Seq<char>
    decreases depth, 0nat,
{
    if depth == 0 || !(0 <= h.spec_id() < dom.len()) {
        Seq::empty()
    } else {
        match dom.node(h.spec_id()) {
            NodeView::Text(t) => t,
            NodeView::Element(e) => "<"@ + e.tag + attributes_markup(e.attributes) + ">"@
                + children_markup(dom, e.children, (depth - 1) as nat) + "</"@ + e.tag + ">"@,
        }
    }
}

/// The markup of `kids` one after the other.
pub open spec fn children_markup(dom: Dom, kids: Seq<DomNodeData>, depth: nat) -> Seq<char>
    decreases depth, kids.len() + 1,
{
    if kids.len() == 0 {
        Seq::empty()
    } else {
        children_markup(dom, kids.drop_last(), depth) + markup(dom, kids.last(), depth)
    }
}

fn append_attributes(out: &mut String, attrs: &Vec<(String, String)>)
    ensures
        final(out)@ == old(out)@ + attributes_markup(crate::dom::attributes_view(attrs@)),
{
    let ghost start = out@;
    let ghost a = crate::dom::attributes_view(attrs@);
    let mut i: usize = 0;
    while i < attrs.len()
        invariant
            0 <= i <= attrs@.len(),
            a == crate::dom::attributes_view(attrs@),
            out@ == start + attributes_markup(a.subrange(0, i as int)),
        decreases attrs@.len() - i,
    {
        assert(a.subrange(0, i + 1).drop_last() =~= a.subrange(0, i as int));
        out.append(" ");
        out.append(attrs[i].0.as_str());
        out.append("=\"");
        out.append(attrs[i].1.as_str());
        out.append("\"");
        i = i + 1;
        assert(out@ =~= start + attributes_markup(a.subrange(0, i as int)));
    }
    assert(a.subrange(0, attrs@.len() as int) =~= a);
}

fn append_markup(dom: &Dom, h: DomNodeData, depth: usize, out: &mut String)
    requires
        dom.wf(),
        dom.valid(h),
    ensures
        final(out)@ == old(out)@ + markup(*dom, h, depth as nat),
    decreases depth,
{
    if depth == 0 {
        assert(old(out)@ + markup(*dom, h, depth as nat) =~= old(out)@);
        return;
    }
    let ghost start = out@;
    match dom.data_ref(h.id()) {
        NodeData::Text(t) => {
            out.append(t.as_str());
        },
        NodeData::Element(e) => {
            let ghost ev = e@;
            out.append("<");
            out.append(e.tag.as_str());
            append_attributes(out, &e.attributes);
            out.append(">");
            let ghost open = out@;
            let mut i: usize = 0;
            while i < e.children.len()
                invariant
                    0 <= i <= e.children@.len(),
                    dom.wf(),
                    dom.valid(h),
                    e.children@ == dom.children(h.spec_id()),
                    depth > 0,
                    out@ == open + children_markup(*dom, e.children@.subrange(0, i as int), (depth - 1) as nat),
                decreases e.children@.len() - i,
            {
                assert(e.children@.subrange(0, i + 1).drop_last() =~= e.children@.subrange(0, i as int));
                assert(dom.valid(dom.children(h.spec_id())[i as int]));
                append_markup(dom, e.children[i], depth - 1, out);
                i = i + 1;
                assert(out@ =~= open + children_markup(*dom, e.children@.subrange(0, i as int), (depth - 1) as nat));
            }
            assert(e.children@.subrange(0, e.children@.len() as int) =~= e.children@);
            out.append("</");
            out.append(e.tag.as_str());
            out.append(">");
            assert(out@ =~= start + markup(*dom, h, depth as nat));
        },
    }
}

impl DomNodeData {
    /// The markup of this node and everything below it.
    pub fn to_string(&self, dom: &Dom) -> (r: String)
        requires
            dom.wf(),
            dom.valid(*self),
        ensures
            r@ == markup(*dom, *self, dom.len()),
    {
        let mut out = String::new();
        append_markup(dom, *self, dom.node_count(), &mut out);
        out
    }
}

/// The outcome `r` of hydrating `h` against `existing`, from `before` to
/// `after`.
pub open spec fn hydrated(
    before: Dom,
    after: Dom,
    h: DomNodeData,
    existing: DomNodeData,
    r: bool,
) -> bool {
    &&& !before.is_thunk_node(h) ==> r && after == before
    &&& before.is_thunk_node(h) ==> r == (markup(before, existing, before.len()) == markup(
        before,
        h,
        before.len(),
    ))
    &&& r ==> before.same_contents(&after) && after.live(h.spec_id()) && forall|i: int|
        0 <= i < before.len() && before.live(i) ==> #[trigger] after.live(i)
    &&& !r ==> after == before
}

impl DomNodeData {
    /// Hydrate this node against `existing`, a live node that stands for
    /// markup produced earlier. A node that is already live is left as it is
    /// and `true` is returned, whatever `existing` holds. Otherwise the
    /// markups are compared: where they match, this node and the virtual
    /// nodes below it are materialised and `true` is returned; where they do
    /// not, nothing changes and `false` reports the mismatch. `existing`
    /// stays a node of its own; only its markup is read.
    pub fn hydrate_child(&self, dom: &mut Dom, existing: DomNodeData) -> (r: bool)
        requires
            old(dom).wf(),
            old(dom).valid(*self),
            old(dom).valid(existing),
            old(dom).live(existing.spec_id()),
        ensures
            final(dom).wf(),
            hydrated(*old(dom), *final(dom), *self, existing, r),
    {
        if !dom.is_thunk(*self) {
            return true;
        }
        let theirs = existing.to_string(dom);
        let ours = self.to_string(dom);
        if theirs == ours {
            dom.materialize(*self);
            true
        } else {
            false
        }
    }
}

impl DomElement {
    /// Hydrate this element against the live element `existing`, as
    /// [`DomNodeData::hydrate_child`] does.
    pub fn hydrate_child(&self, dom: &mut Dom, existing: DomElement) -> (r: bool)
        requires
            old(dom).wf(),
            old(dom).valid_element(*self),
            old(dom).valid_element(existing),
            old(dom).live(existing.id as int),
        ensures
            final(dom).wf(),
            hydrated(
                *old(dom),
                *final(dom),
                DomNodeData::Element(*self),
                DomNodeData::Element(existing),
                r,
            ),
    {
        DomNodeData::Element(*self).hydrate_child(dom, DomNodeData::Element(existing))
    }

    /// The markup of this element and everything below it.
    pub fn to_string(&self, dom: &Dom) -> (r: String)
        requires
            dom.wf(),
            dom.valid_element(*self),
        ensures
            r@ == markup(*dom, DomNodeData::Element(*self), dom.len()),
    {
        DomNodeData::Element(*self).to_string(dom)
    }
}

impl DomText {
    /// Hydrate this text node against the live text node `existing`, as
    /// [`DomNodeData::hydrate_child`] does.
    pub fn hydrate_child(&self, dom: &mut Dom, existing: DomText) -> (r: bool)
        requires
            old(dom).wf(),
            old(dom).valid_text(*self),
            old(dom).valid_text(existing),
            old(dom).live(existing.id as int),
        ensures
            final(dom).wf(),
            hydrated(
                *old(dom),
                *final(dom),
                DomNodeData::Text(*self),
                DomNodeData::Text(existing),
                r,
            ),
    {
        DomNodeData::Text(*self).hydrate_child(dom, DomNodeData::Text(existing))
    }

    /// The markup of this text node: its text.
    pub fn to_string(&self, dom: &Dom) -> (r: String)
        requires
            dom.wf(),
            dom.valid_text(*self),
        ensures
            r@ == markup(*dom, DomNodeData::Text(*self), dom.len()),
    {
        DomNodeData::Text(*self).to_string(dom)
    }
}

} // verus!
