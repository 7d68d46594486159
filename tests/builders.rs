use silkenweb::calendar::{calendar, CalendarType, SelectionMode};
use silkenweb::classes::{any_prefix_matches, select_classes};
use silkenweb::dom::Dom;
use silkenweb::ui5::{PrimaryCalendarType, Ui5CalendarBuilder};
use silkenweb::value::Sig;

#[test]
fn calendar_attributes() {
    let mut dom = Dom::new();
    let cal = calendar(&mut dom)
        .hide_week_numbers(&mut dom, true)
        .selection_mode(&mut dom, SelectionMode::Range)
        .format_pattern(&mut dom, "dd/MM/yyyy")
        .max_date(&mut dom, "2030-01-01")
        .min_date(&mut dom, "2020-01-01")
        .primary_calendar_type(&mut dom, CalendarType::Japanese)
        .secondary_calendar_type(&mut dom, CalendarType::Persian);
    let e = cal.into_element();
    assert_eq!(
        e.to_string(&dom),
        "<ui5-calendar hide-week-numbers=\"\" selection-mode=\"Range\" format-pattern=\"dd/MM/yyyy\" max-date=\"2030-01-01\" min-date=\"2020-01-01\" primary-calendar-type=\"Japanese\" secondary-calendar-type=\"Persian\"></ui5-calendar>"
    );
}

#[test]
fn unset_flag_removes_attribute() {
    let mut dom = Dom::new();
    let cal = calendar(&mut dom)
        .hide_week_numbers(&mut dom, true)
        .hide_week_numbers(&mut dom, false);
    assert_eq!(dom.attribute_value(cal.element, "hide-week-numbers"), None);
}

#[test]
fn selected_dates_become_children() {
    let mut dom = Dom::new();
    let cal = calendar(&mut dom)
        .selected_dates(&mut dom, vec!["2024-01-02".to_string(), "2024-03-04".to_string()]);
    assert_eq!(
        cal.element.to_string(&dom),
        "<ui5-calendar><ui5-date value=\"2024-01-02\"></ui5-date><ui5-date value=\"2024-03-04\"></ui5-date></ui5-calendar>"
    );
    let empty = calendar(&mut dom).selected_dates(&mut dom, Vec::new());
    assert_eq!(empty.element.to_string(&dom), "<ui5-calendar></ui5-calendar>");
}

#[test]
fn enum_texts_are_variant_names() {
    assert_eq!(SelectionMode::Single.text(), "Single");
    assert_eq!(SelectionMode::Multiple.text(), "Multiple");
    assert_eq!(CalendarType::Gregorian.text(), "Gregorian");
    assert_eq!(CalendarType::Buddhist.text(), "Buddhist");
    assert_eq!(CalendarType::Islamic.text(), "Islamic");
    assert_eq!(silkenweb::ui5::SelectionMode::Range.text(), "Range");
    assert_eq!(PrimaryCalendarType::Persian.text(), "Persian");
    assert_eq!(PrimaryCalendarType::Gregorian.text(), "Gregorian");
}

#[test]
fn ui5_selected_date() {
    let mut dom = Dom::new();
    let b = Ui5CalendarBuilder::new(&mut dom).selected_date(&mut dom, "2023-05-06".to_string());
    assert_eq!(
        b.builder.to_string(&dom),
        "<ui5-calendar><ui5-date value=\"2023-05-06\"></ui5-date></ui5-calendar>"
    );
}

#[test]
fn prefix_matching() {
    let prefixes = vec!["border-".to_string(), "bg".to_string()];
    assert!(any_prefix_matches("border-small", &prefixes));
    assert!(any_prefix_matches("bg", &prefixes));
    assert!(!any_prefix_matches("b", &prefixes));
    assert!(!any_prefix_matches("margin", &prefixes));
    assert!(!any_prefix_matches("border-small", &[]));
}

#[test]
fn class_selection() {
    let classes: Vec<String> = ["border-small", "border-excluded-huge", "margin", "border-x"]
        .iter()
        .map(|s| s.to_string())
        .collect();
    let denied = vec!["border-excluded-".to_string()];
    let r = select_classes(&classes, Some("border-".to_string()), None, &denied);
    assert_eq!(
        r,
        vec![
            ("small".to_string(), "border-small".to_string()),
            ("x".to_string(), "border-x".to_string())
        ]
    );
    let r = select_classes(&classes, None, Some(vec!["border-".to_string()]), &denied);
    assert_eq!(
        r,
        vec![
            ("border-small".to_string(), "border-small".to_string()),
            ("border-x".to_string(), "border-x".to_string())
        ]
    );
    let r = select_classes(&classes, None, None, &Vec::new());
    assert_eq!(r.len(), 4);
    assert_eq!(r[2], ("margin".to_string(), "margin".to_string()));
}

#[test]
fn sig_wraps_a_value() {
    let s = Sig(3u8);
    assert_eq!(s.0, 3);
}

#[test]
fn dates_on_a_live_calendar_are_live() {
    let mut dom = Dom::new();
    let cal = calendar(&mut dom);
    dom.materialize(silkenweb::dom::DomNodeData::Element(cal.element));
    let before = dom.node_count();
    let cal = cal.selected_dates(&mut dom, vec!["2024-01-02".to_string()]);
    let date = silkenweb::dom::DomElement { id: before };
    assert!(!dom.is_thunk(silkenweb::dom::DomNodeData::Element(date)));
    assert_eq!(
        cal.element.to_string(&dom),
        "<ui5-calendar><ui5-date value=\"2024-01-02\"></ui5-date></ui5-calendar>"
    );
    let virt = calendar(&mut dom).selected_dates(&mut dom, vec!["x".to_string()]);
    assert!(dom.is_thunk(silkenweb::dom::DomNodeData::Element(virt.element)));
    assert_eq!(dom.pending_updates(), 0);
}
