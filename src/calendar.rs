use vstd::prelude::*;
use crate::dom::{
    appended, set_attribute, with_attributes, with_children, Dom, DomElement, DomNodeData,
    ElementView, NodeView,
};
use crate::seq_util::lemma_without_absent;

verus! {

/// How many dates a calendar lets the user select.
#[derive(Clone, Copy, PartialEq, Eq, Structural, Debug)]
pub enum SelectionMode {
    Single,
    Range,
    Multiple,
}

impl SelectionMode {
    pub open spec fn spec_text(self) -> Seq<char> {
        match self {
            SelectionMode::Single => "Single"@,
            SelectionMode::Range => "Range"@,
            SelectionMode::Multiple => "Multiple"@,
        }
    }

    /// The attribute text: the variant's name.
    pub fn text(&self) -> (r: String)
        ensures
            r@ == self.spec_text(),
    {
        match self {
            SelectionMode::Single => "Single".to_owned(),
            SelectionMode::Range => "Range".to_owned(),
            SelectionMode::Multiple => "Multiple".to_owned(),
        }
    }
}

/// A calendar system.
#[derive(Clone, Copy, PartialEq, Eq, Structural, Debug)]
pub enum CalendarType {
    Gregorian,
    Buddhist,
    Islamic,
    Japanese,
    Persian,
}

impl CalendarType {
    pub open spec fn spec_text(self) -> Seq<char> {
        match self {
            CalendarType::Gregorian => "Gregorian"@,
            CalendarType::Buddhist => "Buddhist"@,
            CalendarType::Islamic => "Islamic"@,
            CalendarType::Japanese => "Japanese"@,
            CalendarType::Persian => "Persian"@,
        }
    }

    /// The attribute text: the variant's name.
    pub fn text(&self) -> (r: String)
        ensures
            r@ == self.spec_text(),
    {
        match self {
            CalendarType::Gregorian => "Gregorian".to_owned(),
            CalendarType::Buddhist => "Buddhist".to_owned(),
            CalendarType::Islamic => "Islamic".to_owned(),
            CalendarType::Japanese => "Japanese".to_owned(),
            CalendarType::Persian => "Persian".to_owned(),
        }
    }
}

/// The attribute value of a flag: present and empty when set, absent when
/// not.
pub open spec fn flag_value(b: bool) -> Option<Seq<char>> {
    if b {
        Some(Seq::empty())
    } else {
        None
    }
}

/// A `ui5-date` element holding `date`.
pub open spec fn date_view(date: Seq<char>) -> NodeView {
    NodeView::Element(
        ElementView {
            namespace: None,
            tag: "ui5-date"@,
            attributes: seq![("value"@, date)],
            children: Seq::empty(),
            events: Seq::empty(),
        },
    )
}

/// The handles of `n` elements made one after the other from `first` on.
pub open spec fn fresh_elements(first: int, n: int) -> Seq<DomNodeData> {
    Seq::new(n as nat, |k: int| DomNodeData::Element(DomElement { id: (first + k) as usize }))
}

/// Builds a `ui5-calendar` element.
pub struct CalendarBuilder {
    pub element: DomElement,
}

/// A new calendar with no attributes and no children.
pub fn calendar(dom: &mut Dom) -> (r: CalendarBuilder)
    requires
        old(dom).wf(),
        old(dom).len() < usize::MAX,
    ensures
        final(dom).wf(),
        r.element.id == old(dom).len(),
        final(dom).len() == old(dom).len() + 1,
        final(dom).node(r.element.id as int) == NodeView::Element(
            ElementView {
                namespace: None,
                tag: "ui5-calendar"@,
                attributes: Seq::empty(),
                children: Seq::empty(),
                events: Seq::empty(),
            },
        ),
        forall|i: int| 0 <= i < old(dom).len() ==> final(dom).node(i) == old(dom).node(i),
        old(dom).surface_untouched(final(dom)),
{
    CalendarBuilder { element: DomElement::new(dom, "ui5-calendar") }
}

impl CalendarBuilder {
    /// `dom` after attribute `name` of this calendar is set to `value`, under
    /// the representation rule for one operand.
    pub open spec fn set(self, before: &Dom, after: &Dom, name: Seq<char>, value: Option<Seq<char>>) -> bool {
        &&& before.dispatched(after, seq![DomNodeData::Element(self.element)])
        &&& before.updated(
            after,
            self.element.id as int,
            with_attributes(
                before.node(self.element.id as int),
                set_attribute(before.node(self.element.id as int)->Element_0.attributes, name, value),
            ),
        )
    }

    fn set_attribute(self, dom: &mut Dom, name: &str, value: Option<String>) -> (r: Self)
        requires
            old(dom).wf(),
            old(dom).valid_element(self.element),
        ensures
            r == self,
            final(dom).wf(),
            final(dom).valid_element(self.element),
            self.set(old(dom), final(dom), name@, crate::dom::option_view(value)),
    {
        self.element.attribute(dom, name, value);
        self
    }

    /// Set or clear the `hide-week-numbers` flag.
    pub fn hide_week_numbers(self, dom: &mut Dom, value: bool) -> (r: Self)
        requires
            old(dom).wf(),
            old(dom).valid_element(self.element),
        ensures
            r == self,
            final(dom).wf(),
            self.set(old(dom), final(dom), "hide-week-numbers"@, flag_value(value)),
    {
        let v = if value {
            Some(String::new())
        } else {
            None
        };
        self.set_attribute(dom, "hide-week-numbers", v)
    }

    /// Set the `selection-mode` attribute.
    pub fn selection_mode(self, dom: &mut Dom, value: SelectionMode) -> (r: Self)
        requires
            old(dom).wf(),
            old(dom).valid_element(self.element),
        ensures
            r == self,
            final(dom).wf(),
            self.set(old(dom), final(dom), "selection-mode"@, Some(value.spec_text())),
    {
        self.set_attribute(dom, "selection-mode", Some(value.text()))
    }

    /// Set the `format-pattern` attribute.
    pub fn format_pattern(self, dom: &mut Dom, value: &str) -> (r: Self)
        requires
            old(dom).wf(),
            old(dom).valid_element(self.element),
        ensures
            r == self,
            final(dom).wf(),
            self.set(old(dom), final(dom), "format-pattern"@, Some(value@)),
    {
        self.set_attribute(dom, "format-pattern", Some(value.to_owned()))
    }

    /// Set the `max-date` attribute.
    pub fn max_date(self, dom: &mut Dom, value: &str) -> (r: Self)
        requires
            old(dom).wf(),
            old(dom).valid_element(self.element),
        ensures
            r == self,
            final(dom).wf(),
            self.set(old(dom), final(dom), "max-date"@, Some(value@)),
    {
        self.set_attribute(dom, "max-date", Some(value.to_owned()))
    }

    /// Set the `min-date` attribute.
    pub fn min_date(self, dom: &mut Dom, value: &str) -> (r: Self)
        requires
            old(dom).wf(),
            old(dom).valid_element(self.element),
        ensures
            r == self,
            final(dom).wf(),
            self.set(old(dom), final(dom), "min-date"@, Some(value@)),
    {
        self.set_attribute(dom, "min-date", Some(value.to_owned()))
    }

    /// Set the `primary-calendar-type` attribute.
    pub fn primary_calendar_type(self, dom: &mut Dom, value: CalendarType) -> (r: Self)
        requires
            old(dom).wf(),
            old(dom).valid_element(self.element),
        ensures
            r == self,
            final(dom).wf(),
            self.set(old(dom), final(dom), "primary-calendar-type"@, Some(value.spec_text())),
    {
        self.set_attribute(dom, "primary-calendar-type", Some(value.text()))
    }

    /// Set the `secondary-calendar-type` attribute.
    pub fn secondary_calendar_type(self, dom: &mut Dom, value: CalendarType) -> (r: Self)
        requires
            old(dom).wf(),
            old(dom).valid_element(self.element),
        ensures
            r == self,
            final(dom).wf(),
            self.set(old(dom), final(dom), "secondary-calendar-type"@, Some(value.spec_text())),
    {
        self.set_attribute(dom, "secondary-calendar-type", Some(value.text()))
    }

    /// Append a `ui5-date` child holding each date, in order.
    pub fn selected_dates(self, dom: &mut Dom, dates: Vec<String>) -> (r: Self)
        requires
            old(dom).wf(),
            old(dom).valid_element(self.element),
            old(dom).len() + dates@.len() < usize::MAX,
        ensures
            r == self,
            final(dom).wf(),
            final(dom).len() == old(dom).len() + dates@.len(),
            final(dom).node(self.element.id as int) == with_children(
                old(dom).node(self.element.id as int),
                old(dom).children(self.element.id as int) + fresh_elements(
                    old(dom).len() as int,
                    dates@.len() as int,
                ),
            ),
            forall|k: int|
                0 <= k < dates@.len() ==> final(dom).node(old(dom).len() + k) == date_view(
                    #[trigger] dates@[k]@,
                ),
            forall|i: int|
                0 <= i < old(dom).len() && i != self.element.id ==> final(dom).node(i) == old(
                    dom,
                ).node(i),
            old(dom).is_thunk_node(self.element.spec_data()) ==> old(dom).surface_untouched(
                final(dom),
            ),
            !old(dom).is_thunk_node(self.element.spec_data()) ==> forall|k: int|
                0 <= k < dates@.len() ==> #[trigger] final(dom).live(old(dom).len() + k),
            forall|i: int| 0 <= i < old(dom).len() && old(dom).live(i) ==> #[trigger] final(dom).live(i),
    {
        let ghost start = *dom;
        let ghost id = self.element.id as int;
        let mut i: usize = 0;
        while i < dates.len()
            invariant
                0 <= i <= dates@.len(),
                dom.wf(),
                start.wf(),
                start.valid_element(self.element),
                id == self.element.id as int,
                dom.len() == start.len() + i,
                start.len() + dates@.len() < usize::MAX,
                dom.node(id) == with_children(
                    start.node(id),
                    start.children(id) + fresh_elements(start.len() as int, i as int),
                ),
                forall|k: int|
                    0 <= k < i ==> dom.node(start.len() + k) == date_view(#[trigger] dates@[k]@),
                forall|j: int| 0 <= j < start.len() && j != id ==> dom.node(j) == start.node(j),
                start.is_thunk_node(self.element.spec_data()) ==> start.surface_untouched(dom),
                !start.is_thunk_node(self.element.spec_data()) ==> dom.live(id) && forall|k: int|
                    0 <= k < i ==> #[trigger] dom.live(start.len() + k),
                forall|j: int| 0 <= j < start.len() && start.live(j) ==> #[trigger] dom.live(j),
            decreases dates@.len() - i,
        {
            let ghost before = *dom;
            let d = DomElement::new(dom, "ui5-date");
            let date = dates[i].clone();
            d.attribute(dom, "value", Some(date));
            assert(seq![("value"@, dates@[i as int]@)] =~= set_attribute(
                Seq::empty(),
                "value"@,
                Some(dates@[i as int]@),
            )) by {
                assert(crate::dom::attribute_index(Seq::empty(), "value"@) == -1);
            }
            let ghost mid = *dom;
            assert(d.id as int != id);
            assert(mid.node(id) == before.node(id));
            assert(mid.children(id) == start.children(id) + fresh_elements(start.len() as int, i as int));
            assert(!mid.children(id).contains(DomNodeData::Element(d))) by {
                if mid.children(id).contains(DomNodeData::Element(d)) {
                    let k = choose|k: int|
                        0 <= k < mid.children(id).len() && mid.children(id)[k]
                            == DomNodeData::Element(d);
                    let c = start.children(id);
                    if k < c.len() {
                        assert(mid.children(id)[k] == c[k]);
                        assert(start.valid(c[k]));
                    } else {
                        assert(mid.children(id)[k] == fresh_elements(start.len() as int, i as int)[k - c.len()]);
                    }
                }
            }
            proof {
                lemma_without_absent(mid.children(id), DomNodeData::Element(d));
            }
            assert(mid.is_thunk_node(DomNodeData::Element(d)));
            assert(before.surface_untouched(&mid));
            self.element.append_child_now(dom, &d);
            assert(appended(mid.children(id), DomNodeData::Element(d)) =~= start.children(id)
                + fresh_elements(start.len() as int, i + 1));
            proof {
                let ops = seq![self.element.spec_data(), DomNodeData::Element(d)];
                assert(ops[0] == self.element.spec_data() && ops[1] == DomNodeData::Element(d));
                if start.is_thunk_node(self.element.spec_data()) {
                    assert(mid.is_thunk_node(self.element.spec_data()));
                    assert(forall|k: int| 0 <= k < ops.len() ==> mid.is_thunk_node(#[trigger] ops[k]));
                    assert(mid.surface_untouched(dom));
                    crate::laws::lemma_untouched_compose(&start, &before, &mid);
                    crate::laws::lemma_untouched_compose(&start, &mid, dom);
                } else {
                    assert(!mid.is_thunk_node(self.element.spec_data()));
                    assert(dom.live(id) && dom.live(d.id as int));
                    assert forall|k: int| 0 <= k < i + 1 implies #[trigger] dom.live(start.len() + k) by {
                        if k < i {
                            assert(before.live(start.len() + k));
                        }
                    }
                }
            }
            i = i + 1;
        }
        self
    }

    /// The element built so far.
    pub fn into_element(self) -> (r: DomElement)
        ensures
            r == self.element,
    {
        self.element
    }
}

} // verus!
