use vstd::prelude::*;
use crate::calendar::date_view;
use crate::dom::{
    appended, set_attribute, with_children, Dom, DomElement, DomNodeData, ElementView, NodeView,
};
use crate::seq_util::lemma_without_absent;

verus! {

/// Builds a `ui5-calendar` element that takes its selected dates as
/// `ui5-date` children.
pub struct Ui5CalendarBuilder {
    pub builder: DomElement,
}

impl Ui5CalendarBuilder {
    /// A new calendar with no attributes and no children.
    pub fn new(dom: &mut Dom) -> (r: Self)
        requires
            old(dom).wf(),
            old(dom).len() < usize::MAX,
        ensures
            final(dom).wf(),
            r.builder.id == old(dom).len(),
            final(dom).len() == old(dom).len() + 1,
            final(dom).node(r.builder.id as int) == NodeView::Element(
                ElementView {
                    namespace: None,
                    tag: "ui5-calendar"@,
                    attributes: Seq::empty(),
                    children: Seq::empty(),
                    events: Seq::empty(),
                },
            ),
            forall|i: int| 0 <= i < old(dom).len() ==> final(dom).node(i) == old(dom).node(i),
    {
        Ui5CalendarBuilder { builder: DomElement::new(dom, "ui5-calendar") }
    }

    /// Append a `ui5-date` child holding `date`.
    pub fn selected_date(self, dom: &mut Dom, date: String) -> (r: Self)
        requires
            old(dom).wf(),
            old(dom).valid_element(self.builder),
            old(dom).len() + 1 < usize::MAX,
        ensures
            r.builder == self.builder,
            final(dom).wf(),
            final(dom).len() == old(dom).len() + 1,
            final(dom).node(self.builder.id as int) == with_children(
                old(dom).node(self.builder.id as int),
                old(dom).children(self.builder.id as int).push(
                    DomNodeData::Element(DomElement { id: old(dom).len() as usize }),
                ),
            ),
            final(dom).node(old(dom).len() as int) == date_view(date@),
            forall|i: int|
                0 <= i < old(dom).len() && i != self.builder.id ==> final(dom).node(i) == old(
                    dom,
                ).node(i),
            old(dom).is_thunk_node(DomNodeData::Element(self.builder)) ==> old(
                dom,
            ).surface_untouched(final(dom)),
            !old(dom).is_thunk_node(DomNodeData::Element(self.builder)) ==> final(dom).live(
                old(dom).len() as int,
            ),
            forall|i: int| 0 <= i < old(dom).len() && old(dom).live(i) ==> #[trigger] final(dom).live(i),
    {
        let ghost start = *dom;
        let ghost id = self.builder.id as int;
        let ghost text = date@;
        let d = DomElement::new(dom, "ui5-date");
        d.attribute(dom, "value", Some(date));
        assert(seq![("value"@, text)] =~= set_attribute(Seq::empty(), "value"@, Some(text))) by {
            assert(crate::dom::attribute_index(Seq::empty(), "value"@) == -1);
        }
        let ghost mid = *dom;
        assert(mid.children(id) == start.children(id));
        assert(!mid.children(id).contains(DomNodeData::Element(d))) by {
            if mid.children(id).contains(DomNodeData::Element(d)) {
                let k = choose|k: int|
                    0 <= k < mid.children(id).len() && mid.children(id)[k] == DomNodeData::Element(d);
                assert(start.valid(start.children(id)[k]));
            }
        }
        proof {
            lemma_without_absent(mid.children(id), DomNodeData::Element(d));
        }
        assert(mid.is_thunk_node(DomNodeData::Element(d)));
        self.builder.append_child_now(dom, &d);
        proof {
            let ops = seq![DomNodeData::Element(self.builder), DomNodeData::Element(d)];
            assert(ops[0] == DomNodeData::Element(self.builder) && ops[1] == DomNodeData::Element(d));
            if start.is_thunk_node(DomNodeData::Element(self.builder)) {
                assert(mid.is_thunk_node(DomNodeData::Element(self.builder)));
                assert(forall|k: int| 0 <= k < ops.len() ==> mid.is_thunk_node(#[trigger] ops[k]));
                crate::laws::lemma_untouched_compose(&start, &mid, dom);
            } else {
                assert(!mid.is_thunk_node(DomNodeData::Element(self.builder)));
            }
        }
        assert(appended(mid.children(id), DomNodeData::Element(d)) == start.children(id).push(
            DomNodeData::Element(d),
        ));
        self
    }
}

/// How many dates a calendar lets the user select.
#[derive(Clone, Copy, PartialEq, Eq, Structural, Debug)]
pub enum SelectionMode {
    Single,
    Range,
    Multiple,
}

impl SelectionMode {
    pub open spec fn spec_text(self) -> Seq<char> {
        match self {
            SelectionMode::Single => "Single"@,
            SelectionMode::Range => "Range"@,
            SelectionMode::Multiple => "Multiple"@,
        }
    }

    /// The attribute text: the variant's name.
    pub fn text(&self) -> (r: String)
        ensures
            r@ == self.spec_text(),
    {
        match self {
            SelectionMode::Single => "Single".to_owned(),
            SelectionMode::Range => "Range".to_owned(),
            SelectionMode::Multiple => "Multiple".to_owned(),
        }
    }
}

/// The calendar system a calendar shows first.
#[derive(Clone, Copy, PartialEq, Eq, Structural, Debug)]
pub enum PrimaryCalendarType {
    Gregorian,
    Buddhist,
    Islamic,
    Japanese,
    Persian,
}

impl PrimaryCalendarType {
    pub open spec fn spec_text(self) -> Seq<char> {
        match self {
            PrimaryCalendarType::Gregorian => "Gregorian"@,
            PrimaryCalendarType::Buddhist => "Buddhist"@,
            PrimaryCalendarType::Islamic => "Islamic"@,
            PrimaryCalendarType::Japanese => "Japanese"@,
            PrimaryCalendarType::Persian => "Persian"@,
        }
    }

    /// The attribute text: the variant's name.
    pub fn text(&self) -> (r: String)
        ensures
            r@ == self.spec_text(),
    {
        match self {
            PrimaryCalendarType::Gregorian => "Gregorian".to_owned(),
            PrimaryCalendarType::Buddhist => "Buddhist".to_owned(),
            PrimaryCalendarType::Islamic => "Islamic".to_owned(),
            PrimaryCalendarType::Japanese => "Japanese".to_owned(),
            PrimaryCalendarType::Persian => "Persian".to_owned(),
        }
    }
}

} // verus!
