use silkenweb::dom::{Dom, DomElement, DomNodeData, DomText};
use silkenweb::lazy::Lazy;

fn el(e: DomElement) -> DomNodeData {
    DomNodeData::Element(e)
}

fn tx(t: DomText) -> DomNodeData {
    DomNodeData::Text(t)
}

#[test]
fn value_with_runs_promotion_once() {
    let mut cell: Lazy<u32, u32> = Lazy::new_thunk(5);
    let mut calls = 0;
    let first = *cell.value_with(|t| {
        calls += 1;
        t * 2
    });
    assert_eq!(first, 10);
    let second = *cell.value_with(|t| {
        calls += 1;
        t * 100
    });
    assert_eq!(second, 10);
    assert_eq!(calls, 1);
    assert!(!cell.is_thunk());
}

#[test]
fn thunk_gives_description_until_promoted() {
    let mut cell: Lazy<u64, u8> = Lazy::new_thunk(7);
    assert!(cell.is_thunk());
    *cell.thunk() = 9;
    assert_eq!(*cell.value(), 9u64);
    assert!(!cell.is_thunk());
    let mut v: Lazy<u64, u8> = Lazy::new_value(3);
    assert_eq!(*v.value(), 3);
}

#[test]
fn virtual_operations_leave_surface_untouched() {
    let mut dom = Dom::new();
    let div = DomElement::new(&mut dom, "div");
    let p = DomElement::new(&mut dom, "p");
    let t = DomText::new(&mut dom, "hello");
    div.append_child_now(&mut dom, &p);
    div.insert_child_before(&mut dom, t, Some(p));
    div.attribute(&mut dom, "id", Some("main".to_string()));
    t.set_text(&mut dom, "bye".to_string());
    div.remove_child(&mut dom, &p);
    div.append_child_now(&mut dom, &p);
    div.shrink_to_fit(&mut dom);
    for h in [el(div), el(p), tx(t)] {
        assert!(dom.is_thunk(h));
    }
    assert_eq!(dom.pending_updates(), 0);
    assert_eq!(dom.text(t), "bye");
    assert_eq!(dom.child_nodes(div), vec![tx(t), el(p)]);
}

#[test]
fn live_operand_materialises_every_operand() {
    let mut dom = Dom::new();
    let parent = DomElement::new(&mut dom, "ul");
    let item = DomElement::new(&mut dom, "li");
    let label = DomText::new(&mut dom, "one");
    item.append_child_now(&mut dom, &label);
    dom.materialize(el(parent));
    assert!(!dom.is_thunk(el(parent)));
    assert!(dom.is_thunk(el(item)));
    parent.append_child_now(&mut dom, &item);
    assert!(!dom.is_thunk(el(item)));
    assert!(!dom.is_thunk(tx(label)));
}

#[test]
fn live_text_writes_wait_for_flush() {
    let mut dom = Dom::new();
    let t = DomText::new(&mut dom, "a");
    let u = DomText::new(&mut dom, "x");
    dom.materialize(tx(t));
    dom.materialize(tx(u));
    t.set_text(&mut dom, "b".to_string());
    u.set_text(&mut dom, "y".to_string());
    t.set_text(&mut dom, "c".to_string());
    assert_eq!(dom.text(t), "a");
    assert_eq!(dom.pending_updates(), 3);
    dom.flush_updates();
    assert_eq!(dom.text(t), "c");
    assert_eq!(dom.text(u), "y");
    assert_eq!(dom.pending_updates(), 0);
}

#[test]
fn append_moves_a_child_already_present() {
    let mut dom = Dom::new();
    let div = DomElement::new(&mut dom, "div");
    let a = DomText::new(&mut dom, "a");
    let b = DomText::new(&mut dom, "b");
    div.append_child_now(&mut dom, &a);
    div.append_child_now(&mut dom, &b);
    div.append_child_now(&mut dom, &a);
    assert_eq!(dom.child_nodes(div), vec![tx(b), tx(a)]);
}

#[test]
fn insert_before_absent_next_goes_last() {
    let mut dom = Dom::new();
    let div = DomElement::new(&mut dom, "div");
    let a = DomText::new(&mut dom, "a");
    let b = DomText::new(&mut dom, "b");
    let stranger = DomText::new(&mut dom, "s");
    div.append_child_now(&mut dom, &a);
    div.insert_child_before_now(&mut dom, &b, Some(&stranger));
    assert_eq!(dom.child_nodes(div), vec![tx(a), tx(b)]);
    let c = DomText::new(&mut dom, "c");
    div.insert_child_before(&mut dom, c, Some(a));
    assert_eq!(dom.child_nodes(div), vec![tx(c), tx(a), tx(b)]);
    let d = DomText::new(&mut dom, "d");
    div.insert_child_before::<DomText, DomText>(&mut dom, d, None);
    assert_eq!(dom.child_nodes(div), vec![tx(c), tx(a), tx(b), tx(d)]);
}

#[test]
fn replace_keeps_position() {
    let mut dom = Dom::new();
    let div = DomElement::new(&mut dom, "div");
    let a = DomText::new(&mut dom, "a");
    let b = DomText::new(&mut dom, "b");
    let c = DomText::new(&mut dom, "c");
    let n = DomElement::new(&mut dom, "span");
    for t in [a, b, c] {
        div.append_child_now(&mut dom, &t);
    }
    div.replace_child(&mut dom, n, b);
    assert_eq!(dom.child_nodes(div), vec![tx(a), el(n), tx(c)]);
    let stranger = DomText::new(&mut dom, "s");
    let m = DomText::new(&mut dom, "m");
    div.replace_child(&mut dom, m, stranger);
    assert_eq!(dom.child_nodes(div), vec![tx(a), el(n), tx(c)]);
}

#[test]
fn removing_an_absent_child_is_a_no_op() {
    let mut dom = Dom::new();
    let div = DomElement::new(&mut dom, "div");
    let a = DomText::new(&mut dom, "a");
    let b = DomText::new(&mut dom, "b");
    div.append_child_now(&mut dom, &a);
    div.remove_child_now(&mut dom, &b);
    assert_eq!(dom.child_nodes(div), vec![tx(a)]);
    div.clear_children(&mut dom);
    assert_eq!(dom.child_nodes(div), Vec::<DomNodeData>::new());
}

#[test]
fn attributes_set_update_and_remove() {
    let mut dom = Dom::new();
    let div = DomElement::new_in_namespace(&mut dom, "http://www.w3.org/2000/svg", "svg");
    assert_eq!(dom.tag(div), "svg");
    div.attribute(&mut dom, "width", Some("10".to_string()));
    div.attribute(&mut dom, "height", Some("20".to_string()));
    div.attribute(&mut dom, "width", Some("30".to_string()));
    assert_eq!(dom.attribute_value(div, "width"), Some("30".to_string()));
    assert_eq!(div.to_string(&dom), "<svg width=\"30\" height=\"20\"></svg>");
    div.attribute(&mut dom, "width", None);
    assert_eq!(dom.attribute_value(div, "width"), None);
    assert_eq!(div.to_string(&dom), "<svg height=\"20\"></svg>");
}

#[test]
fn markup_of_a_tree() {
    let mut dom = Dom::new();
    let div = DomElement::new(&mut dom, "div");
    let t = DomText::new(&mut dom, "hi");
    let p = DomElement::new(&mut dom, "p");
    div.attribute(&mut dom, "id", Some("x".to_string()));
    div.append_child_now(&mut dom, &t);
    div.append_child_now(&mut dom, &p);
    assert_eq!(div.to_string(&dom), "<div id=\"x\">hi<p></p></div>");
    assert_eq!(t.to_string(&dom), "hi");
    assert_eq!(el(p).to_string(&dom), "<p></p>");
}

#[test]
fn materialising_keeps_markup() {
    let mut dom = Dom::new();
    let div = DomElement::new(&mut dom, "div");
    let b = DomElement::new(&mut dom, "b");
    let t = DomText::new(&mut dom, "bold");
    b.append_child_now(&mut dom, &t);
    div.append_child_now(&mut dom, &b);
    div.attribute(&mut dom, "class", Some("c".to_string()));
    let before = div.to_string(&dom);
    dom.materialize(el(div));
    assert!(!dom.is_thunk(tx(t)));
    assert_eq!(div.to_string(&dom), before);
    assert_eq!(before, "<div class=\"c\"><b>bold</b></div>");
}

#[test]
fn copies_are_the_same_node_and_twins_are_not() {
    let mut dom = Dom::new();
    let a = DomElement::new(&mut dom, "div");
    let b = DomElement::new(&mut dom, "div");
    let a2 = a.clone();
    assert!(el(a).is_same(&el(a2)));
    assert!(!el(a).is_same(&el(b)));
    let t = DomText::new(&mut dom, "x");
    let u = DomText::new(&mut dom, "x");
    assert!(!tx(t).is_same(&tx(u)));
    assert!(tx(t).is_same(&tx(t.clone())));
}

#[test]
fn store_child_attaches_nothing() {
    let mut dom = Dom::new();
    let a = DomElement::new(&mut dom, "div");
    let b = DomElement::new(&mut dom, "div");
    a.store_child(&mut dom, b);
    assert_eq!(dom.child_nodes(a), Vec::<DomNodeData>::new());
    assert!(dom.is_thunk(el(b)));
    dom.materialize(el(a));
    a.store_child(&mut dom, b);
    assert!(!dom.is_thunk(el(b)));
}

#[test]
fn shrinking_a_live_element_keeps_its_children() {
    let mut dom = Dom::new();
    let a = DomElement::new(&mut dom, "div");
    let t = DomText::new(&mut dom, "x");
    a.append_child_now(&mut dom, &t);
    dom.materialize(el(a));
    a.shrink_to_fit(&mut dom);
    assert_eq!(dom.child_nodes(a), vec![tx(t)]);
    assert_eq!(dom.node_count(), 2);
}

#[test]
fn hydration_takes_over_matching_markup() {
    let mut dom = Dom::new();
    let build = |dom: &mut Dom| {
        let div = DomElement::new(dom, "div");
        let t = DomText::new(dom, "count: 0");
        div.attribute(dom, "id", Some("app".to_string()));
        div.append_child_now(dom, &t);
        div
    };
    let app = build(&mut dom);
    let markup = app.to_string(&dom);
    let on_page = build(&mut dom);
    dom.materialize(el(on_page));
    assert!(app.hydrate_child(&mut dom, on_page));
    assert!(!dom.is_thunk(el(app)));
    assert_eq!(app.to_string(&dom), markup);
    assert_eq!(markup, "<div id=\"app\">count: 0</div>");
}

#[test]
fn hydration_rejects_a_mismatch() {
    let mut dom = Dom::new();
    let a = DomElement::new(&mut dom, "div");
    let b = DomElement::new(&mut dom, "span");
    dom.materialize(el(b));
    assert!(!a.hydrate_child(&mut dom, b));
    assert!(dom.is_thunk(el(a)));
    let t = DomText::new(&mut dom, "x");
    let u = DomText::new(&mut dom, "x");
    dom.materialize(tx(u));
    assert!(t.hydrate_child(&mut dom, u));
    assert!(!dom.is_thunk(tx(t)));
    assert!(tx(t).hydrate_child(&mut dom, tx(u)));
}

#[test]
fn all_thunks_over_handles() {
    let mut dom = Dom::new();
    let a = DomElement::new(&mut dom, "div");
    let b = DomText::new(&mut dom, "x");
    assert!(silkenweb::dom::all_thunks(&dom, &[el(a), tx(b)]));
    assert!(silkenweb::dom::all_thunks(&dom, &[]));
    dom.materialize(tx(b));
    assert!(!silkenweb::dom::all_thunks(&dom, &[el(a), tx(b)]));
}

#[test]
fn events_register_in_either_representation() {
    let mut dom = Dom::new();
    let button = DomElement::new(&mut dom, "button");
    button.on(&mut dom, "click", 7);
    assert!(dom.is_thunk(el(button)));
    dom.materialize(el(button));
    button.on(&mut dom, "keydown", 8);
    assert_eq!(
        dom.events(button),
        vec![("click".to_string(), 7), ("keydown".to_string(), 8)]
    );
    assert_eq!(dom.pending_updates(), 0);
}

#[test]
fn hydrating_a_live_node_is_a_no_op() {
    let mut dom = Dom::new();
    let a = DomElement::new(&mut dom, "div");
    let b = DomElement::new(&mut dom, "span");
    let inner = DomText::new(&mut dom, "x");
    dom.materialize(el(a));
    dom.materialize(el(b));
    assert!(a.hydrate_child(&mut dom, b));
    assert!(dom.is_thunk(tx(inner)));
    assert_eq!(a.to_string(&dom), "<div></div>");
    assert_eq!(dom.node_count(), 3);
}

#[test]
fn replace_with_a_child_already_present_moves_it() {
    let mut dom = Dom::new();
    let div = DomElement::new(&mut dom, "div");
    let a = DomText::new(&mut dom, "a");
    let b = DomText::new(&mut dom, "b");
    let c = DomText::new(&mut dom, "c");
    for t in [a, b, c] {
        div.append_child_now(&mut dom, &t);
    }
    div.replace_child(&mut dom, c, a);
    assert_eq!(dom.child_nodes(div), vec![tx(c), tx(b)]);
    div.replace_child(&mut dom, b, b);
    assert_eq!(dom.child_nodes(div), vec![tx(c), tx(b)]);
}

#[test]
fn live_parent_insert_materialises_next_and_child() {
    let mut dom = Dom::new();
    let div = DomElement::new(&mut dom, "div");
    let a = DomText::new(&mut dom, "a");
    let b = DomText::new(&mut dom, "b");
    div.append_child_now(&mut dom, &a);
    dom.materialize(el(div));
    div.insert_child_before(&mut dom, b, Some(a));
    assert!(!dom.is_thunk(tx(b)));
    assert_eq!(dom.child_nodes(div), vec![tx(b), tx(a)]);
    assert_eq!(div.to_string(&dom), "<div>ba</div>");
}
