use silkenweb::child_groups::ChildGroups;
use silkenweb::dom::{Dom, DomElement, DomNodeData, DomText};

fn tx(t: DomText) -> DomNodeData {
    DomNodeData::Text(t)
}

fn setup(n: usize) -> (Dom, DomElement, Vec<DomText>) {
    let mut dom = Dom::new();
    let parent = DomElement::new(&mut dom, "div");
    let mut texts = Vec::new();
    for i in 0..n {
        texts.push(DomText::new(&mut dom, &format!("t{i}")));
    }
    (dom, parent, texts)
}

#[test]
fn next_group_elem_skips_empty_slots() {
    let (mut dom, parent, t) = setup(2);
    let mut groups = ChildGroups::new(parent);
    assert_eq!(groups.new_group(), 0);
    assert_eq!(groups.new_group(), 1);
    assert_eq!(groups.new_group(), 2);
    groups.insert_only_child(&mut dom, 0, tx(t[0]));
    groups.insert_only_child(&mut dom, 2, tx(t[1]));
    assert_eq!(groups.get_next_group_elem(0), Some(tx(t[1])));
    assert_eq!(groups.get_next_group_elem(1), Some(tx(t[1])));
    assert_eq!(groups.get_next_group_elem(2), None);
    assert_eq!(dom.child_nodes(parent), vec![tx(t[0]), tx(t[1])]);
}

#[test]
fn upsert_detaches_the_previous_anchor() {
    let (mut dom, parent, t) = setup(3);
    let mut groups = ChildGroups::new(parent);
    groups.new_group();
    groups.new_group();
    groups.insert_only_child(&mut dom, 1, tx(t[2]));
    groups.insert_only_child(&mut dom, 0, tx(t[0]));
    assert!(groups.upsert_only_child(&mut dom, 0, tx(t[1])));
    assert_eq!(dom.child_nodes(parent), vec![tx(t[1]), tx(t[2])]);
    assert!(!dom.child_nodes(parent).contains(&tx(t[0])));
}

#[test]
fn upsert_into_an_empty_slot_reports_none() {
    let (mut dom, parent, t) = setup(1);
    let mut groups = ChildGroups::new(parent);
    groups.new_group();
    assert!(!groups.upsert_only_child(&mut dom, 0, tx(t[0])));
    assert_eq!(dom.child_nodes(parent), vec![tx(t[0])]);
}

#[test]
fn reinsert_follows_current_occupancy() {
    let (mut dom, parent, t) = setup(4);
    let mut groups = ChildGroups::new(parent);
    for _ in 0..3 {
        groups.new_group();
    }
    groups.insert_only_child(&mut dom, 0, tx(t[0]));
    groups.insert_only_child(&mut dom, 2, tx(t[2]));
    groups.insert_only_child(&mut dom, 1, tx(t[1]));
    assert_eq!(dom.child_nodes(parent), vec![tx(t[0]), tx(t[1]), tx(t[2])]);
    groups.remove_child(&mut dom, 1);
    assert_eq!(dom.child_nodes(parent), vec![tx(t[0]), tx(t[2])]);
    groups.upsert_only_child(&mut dom, 2, tx(t[3]));
    groups.insert_only_child(&mut dom, 1, tx(t[1]));
    assert_eq!(dom.child_nodes(parent), vec![tx(t[0]), tx(t[1]), tx(t[3])]);
    groups.remove_child(&mut dom, 2);
    groups.remove_child(&mut dom, 2);
    groups.insert_only_child(&mut dom, 2, tx(t[2]));
    assert_eq!(dom.child_nodes(parent), vec![tx(t[0]), tx(t[1]), tx(t[2])]);
}

#[test]
fn sync_groups_are_independent() {
    let (mut dom, parent, t) = setup(3);
    let mut groups = ChildGroups::new(parent);
    groups.new_group();
    groups.insert_only_child(&mut dom, 0, tx(t[0]));
    groups.append_new_group_sync(&mut dom, &t[1]);
    groups.append_new_group_sync(&mut dom, &t[2]);
    assert_eq!(dom.child_nodes(parent), vec![tx(t[0]), tx(t[1]), tx(t[2])]);
    assert!(!groups.is_single_group());
    parent.remove_child(&mut dom, &t[1]);
    assert_eq!(dom.child_nodes(parent), vec![tx(t[0]), tx(t[2])]);
    parent.remove_child(&mut dom, &t[2]);
    assert_eq!(dom.child_nodes(parent), vec![tx(t[0])]);
}

#[test]
fn sync_group_after_dynamic_takes_a_slot() {
    let (mut dom, parent, t) = setup(2);
    let mut groups = ChildGroups::new(parent);
    groups.new_group();
    groups.append_new_group_sync(&mut dom, &t[1]);
    groups.insert_only_child(&mut dom, 0, tx(t[0]));
    assert_eq!(dom.child_nodes(parent), vec![tx(t[0]), tx(t[1])]);
    assert_eq!(groups.get_next_group_elem(0), Some(tx(t[1])));
}

#[test]
fn single_group_counts_groups() {
    let (_dom, parent, _t) = setup(0);
    let mut groups = ChildGroups::new(parent);
    assert!(!groups.is_single_group());
    groups.new_group();
    assert!(groups.is_single_group());
    groups.new_group();
    assert!(!groups.is_single_group());
}

#[test]
fn first_child_bookkeeping_leaves_parent_alone() {
    let (mut dom, parent, t) = setup(2);
    let mut groups = ChildGroups::new(parent);
    groups.new_group();
    groups.new_group();
    groups.set_first_child(1, tx(t[1]));
    assert_eq!(groups.get_next_group_elem(0), Some(tx(t[1])));
    assert_eq!(dom.child_nodes(parent), Vec::<DomNodeData>::new());
    groups.insert_last_child(&mut dom, 0, tx(t[0]));
    assert_eq!(dom.child_nodes(parent), vec![tx(t[0])]);
    groups.clear_first_child(1);
    groups.shrink_to_fit();
    assert_eq!(groups.get_next_group_elem(0), None);
}

#[test]
fn removing_an_empty_slot_changes_nothing() {
    let (mut dom, parent, t) = setup(1);
    let mut groups = ChildGroups::new(parent);
    groups.new_group();
    groups.new_group();
    groups.insert_only_child(&mut dom, 1, tx(t[0]));
    groups.remove_child(&mut dom, 0);
    assert_eq!(dom.child_nodes(parent), vec![tx(t[0])]);
}

#[test]
fn two_sync_groups_end_in_order() {
    let (mut dom, parent, t) = setup(3);
    let mut groups = ChildGroups::new(parent);
    groups.append_new_group_sync(&mut dom, &t[0]);
    groups.append_new_group_sync(&mut dom, &t[1]);
    assert!(!groups.is_single_group());
    assert_eq!(dom.child_nodes(parent), vec![tx(t[0]), tx(t[1])]);
    groups.new_group();
    groups.insert_only_child(&mut dom, 0, tx(t[2]));
    assert_eq!(dom.child_nodes(parent), vec![tx(t[0]), tx(t[1]), tx(t[2])]);
}

#[test]
fn upsert_on_a_live_parent_materialises_the_child() {
    let (mut dom, parent, t) = setup(2);
    dom.materialize(DomNodeData::Element(parent));
    let mut groups = ChildGroups::new(parent);
    groups.new_group();
    assert!(!groups.upsert_only_child(&mut dom, 0, tx(t[0])));
    assert!(!dom.is_thunk(tx(t[0])));
    assert!(dom.is_thunk(tx(t[1])));
    assert!(groups.upsert_only_child(&mut dom, 0, tx(t[1])));
    assert!(!dom.is_thunk(tx(t[1])));
    assert_eq!(dom.child_nodes(parent), vec![tx(t[1])]);
}
