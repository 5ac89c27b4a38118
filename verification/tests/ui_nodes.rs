use iso_ui::{Align, Display, Interaction, UINode};

fn node(id: &str) -> UINode<u32> {
    UINode::new(id.to_string())
}

fn ids(n: &UINode<u32>) -> Vec<Option<String>> {
    n.children().iter().map(|c| c.id().cloned()).collect()
}

#[test]
fn new_node_has_id_and_no_children() {
    let n = node("root");
    assert_eq!(n.id(), Some(&"root".to_string()));
    assert!(n.children().is_empty());
    assert_eq!(*n.style(), 0);
}

#[test]
fn set_id_reports_previous_id() {
    let mut n = node("a");
    assert!(n.set_id("b".to_string()));
    assert_eq!(n.id(), Some(&"b".to_string()));
}

#[test]
fn add_and_add_all_keep_order() {
    let mut n = node("root");
    n.add(node("a"));
    n.add_all(vec![node("b"), node("c")]);
    assert_eq!(ids(&n), vec![Some("a".to_string()), Some("b".to_string()), Some("c".to_string())]);
}

#[test]
fn remove_takes_out_the_first_node_with_the_id() {
    let mut n = node("root");
    n.add(node("a"));
    n.add(node("b"));
    n.add(node("a"));
    n.add(UINode::default());
    let removed = n.remove("a");
    assert_eq!(removed.unwrap().id(), Some(&"a".to_string()));
    assert_eq!(ids(&n), vec![Some("b".to_string()), Some("a".to_string()), None]);
}

#[test]
fn remove_of_a_missing_id_changes_nothing() {
    let mut n = node("root");
    n.add(node("a"));
    n.add(UINode::default());
    assert!(n.remove("z").is_none());
    assert_eq!(ids(&n), vec![Some("a".to_string()), None]);
}

#[test]
fn clone_copies_the_whole_tree() {
    let mut n = node("root");
    let mut a = node("a");
    a.add(node("a1"));
    a.set_style(7);
    n.add(a);
    let c = n.clone();
    assert_eq!(c.id(), n.id());
    assert_eq!(c.children()[0].style(), &7);
    assert_eq!(c.children()[0].children()[0].id(), Some(&"a1".to_string()));
}

#[test]
fn retain_keeps_what_the_callback_accepts() {
    let mut n = node("root");
    let mut x = node("x");
    x.set_style(5);
    n.add(node("a"));
    n.add(x);
    n.add(node("b"));
    n.retain(|c: &UINode<u32>| *c.style() == 0);
    assert_eq!(ids(&n), vec![Some("a".to_string()), Some("b".to_string())]);
}

#[test]
fn drain_empties_the_children() {
    let mut n = node("root");
    n.add(node("a"));
    n.add(node("b"));
    let drained = n.drain();
    assert_eq!(drained.len(), 2);
    assert_eq!(drained[1].id(), Some(&"b".to_string()));
    assert!(n.children().is_empty());
}

#[test]
fn style_mut_changes_the_style() {
    let mut n = node("root");
    *n.style_mut() = 42;
    assert_eq!(*n.style(), 42);
}

#[test]
fn display_default_is_a_start_aligned_column() {
    match Display::default() {
        Display::FlexColumn { vertical: Align::Start, horizontal: Align::Start } => {},
        other => panic!("unexpected {:?}", other),
    }
}

#[test]
fn interactions_are_ordered() {
    assert!(Interaction::Idle < Interaction::Hovered);
    assert!(Interaction::Hovered < Interaction::Pressed);
    assert_eq!(Interaction::default(), Interaction::Idle);
}
