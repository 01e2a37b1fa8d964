use std::rc::Rc;

use rapyd::arrays::split_array;
use rapyd::click_counter;
use rapyd::component::ToData;
use rapyd::defaults::{BoolOr, U32Or};
use rapyd::dom::DomTree;
use rapyd::fine_grained::{walk_through, FgWalk, WalkThroughError};
use rapyd::reactive::ToDomString;
use rapyd::render::{render, RenderError, RenderStep};
use rapyd::scope_state::{ScopeState, StateTag, UpdateState};
use rapyd::scope_struct::{ScopeAttr, ScopeError, ScopeFactory, ScopeOptions};
use rapyd::sum_component::{apply_a, apply_b, Props, Scope};
use rapyd::text::update_text_node;
use rapyd::walk::Walk;

/// `<div><!></div>`: the div (0) holds a comment (1).
fn div_with_comment() -> DomTree {
    DomTree {
        first_child: vec![Some(1), None],
        next_sibling: vec![None, None],
        parent: vec![None, Some(0)],
        is_comment: vec![false, true],
    }
}

/// `<button>clicks: <!></button>`: the button (0) holds a text (1) and a
/// comment (2).
fn counter_button() -> DomTree {
    DomTree {
        first_child: vec![Some(1), None, None],
        next_sibling: vec![None, Some(2), None],
        parent: vec![None, Some(0), Some(0)],
        is_comment: vec![false, false, true],
    }
}

#[test]
fn dom_tree_check() {
    assert!(div_with_comment().check());
    let mut bad = div_with_comment();
    bad.parent[1] = Some(7);
    assert!(!bad.check());
}

#[test]
fn render_replaces_the_comment() {
    let walks = [Walk::In(1), Walk::Replace, Walk::Out(1)];
    let steps = render(&div_with_comment(), Some(0), &walks, 1, 0).unwrap();
    assert_eq!(steps.len(), 1);
    assert!(matches!(steps[0], RenderStep::ReplaceComment { node: 1, text_node: 0 }));
}

#[test]
fn render_uses_text_nodes_in_order_and_the_first_handler() {
    let dom = counter_button();
    let walks = [Walk::Event("click"), Walk::In(1), Walk::Over(1), Walk::Replace, Walk::Out(1)];
    let steps = render(&dom, Some(0), &walks, 2, 1).unwrap();
    assert_eq!(steps.len(), 2);
    assert!(matches!(steps[0], RenderStep::AddListener { node: 0, event: "click", handler: 0 }));
    assert!(matches!(steps[1], RenderStep::ReplaceComment { node: 2, text_node: 0 }));
}

#[test]
fn render_without_nodes_does_nothing() {
    let steps = render(&div_with_comment(), None, &[Walk::Replace], 0, 0).unwrap();
    assert!(steps.is_empty());
}

#[test]
fn render_reports_misfits() {
    let dom = div_with_comment();
    assert_eq!(render(&dom, Some(0), &[Walk::In(2)], 1, 1).unwrap_err(), RenderError::MissingFirstChild);
    assert_eq!(render(&dom, Some(0), &[Walk::Out(1)], 1, 1).unwrap_err(), RenderError::MissingParent);
    assert_eq!(render(&dom, Some(0), &[Walk::Over(1)], 1, 1).unwrap_err(), RenderError::MissingNextSibling);
    assert_eq!(render(&dom, Some(0), &[Walk::Replace], 1, 1).unwrap_err(), RenderError::NotAComment);
    assert_eq!(render(&dom, Some(0), &[Walk::In(1), Walk::Replace], 0, 1).unwrap_err(), RenderError::NoTextNodeLeft);
    assert_eq!(render(&dom, Some(0), &[Walk::Event("click")], 1, 0).unwrap_err(), RenderError::NoEventHandler);
}

#[test]
fn walk_through_the_counter_button() {
    let walks = [FgWalk::EventTarget, FgWalk::Next(1), FgWalk::Over(1), FgWalk::Replace, FgWalk::Out(1)];
    let t = walk_through(&counter_button(), 0, &walks, 1, 1).unwrap();
    assert_eq!(t.text_nodes, vec![2]);
    assert_eq!(t.event_targets, vec![0]);
}

#[test]
fn walk_through_moves_once_per_counted_step_and_stops_after_the_last_parent() {
    let walks = [FgWalk::Next(5), FgWalk::Out(1), FgWalk::Replace];
    let t = walk_through(&counter_button(), 0, &walks, 1, 1).unwrap();
    assert!(t.text_nodes.is_empty());
}

#[test]
fn walk_through_reports_misfits() {
    let dom = counter_button();
    assert_eq!(walk_through(&dom, 0, &[FgWalk::Next(0)], 1, 1).err(), Some(WalkThroughError::ZeroCount));
    assert_eq!(walk_through(&dom, 1, &[FgWalk::Next(1)], 1, 1).err(), Some(WalkThroughError::NoChild));
    assert_eq!(walk_through(&dom, 2, &[FgWalk::Over(1)], 1, 1).err(), Some(WalkThroughError::NoNextSibling));
    assert_eq!(walk_through(&dom, 0, &[FgWalk::Out(1)], 1, 1).err(), Some(WalkThroughError::NoParent));
    assert_eq!(walk_through(&dom, 0, &[FgWalk::Replace], 1, 1).err(), Some(WalkThroughError::NoParent));
    assert_eq!(
        walk_through(&dom, 2, &[FgWalk::Replace, FgWalk::Replace], 1, 1).err(),
        Some(WalkThroughError::TooManyTextNodes)
    );
    assert_eq!(
        walk_through(&dom, 0, &[FgWalk::EventTarget], 1, 0).err(),
        Some(WalkThroughError::TooManyEventTargets)
    );
}

#[test]
fn sum_component_follows_its_props() {
    let mut s = Scope::new(Props { a: 1, b: 2 }, ["1".to_string(), "2".to_string(), "3".to_string()]);
    apply_a(&mut s, 5);
    assert_eq!(s.text_node(0), "5");
    assert_eq!(s.text_node(1), "2");
    assert_eq!(s.text_node(2), "7");
    apply_b(&mut s, -10);
    assert_eq!(s.text_node(1), "-10");
    assert_eq!(s.text_node(2), "-5");
}

#[test]
fn sum_component_leaves_unchanged_props_alone() {
    let mut s = Scope::new(Props { a: 1, b: 2 }, ["x".to_string(), "y".to_string(), "z".to_string()]);
    apply_a(&mut s, 1);
    apply_b(&mut s, 2);
    assert_eq!(s.text_node(0), "x");
    assert_eq!(s.text_node(1), "y");
    assert_eq!(s.text_node(2), "z");
}

#[test]
fn counter_counts_clicks() {
    let mut c = click_counter::Scope::new("0".to_string());
    click_counter::handle_click(&mut c);
    click_counter::handle_click(&mut c);
    assert_eq!(c.get_count(), 2);
    assert_eq!(c.text_node(), "2");
    click_counter::apply_count(&mut c, 2);
    assert_eq!(c.text_node(), "2");
    click_counter::apply_count(&mut c, 40);
    assert_eq!(c.text_node(), "40");
}

#[test]
fn text_node_update_only_when_changed() {
    assert_eq!(update_text_node("a".to_string(), &"a".to_string()), None);
    assert_eq!(update_text_node("b".to_string(), &"a".to_string()), Some("b".to_string()));
}

#[test]
fn display_values_become_text() {
    assert_eq!(12u32.to_data(), "12");
    assert_eq!("hi".to_dom_string(), "hi");
}

#[test]
fn split_array_splits_after_left() {
    let (l, r) = split_array::<2, 3, 5, i32>([1, 2, 3, 4, 5]);
    assert_eq!(l, [1, 2]);
    assert_eq!(r, [3, 4, 5]);
    let (l, r) = split_array::<0, 2, 2, &str>(["a", "b"]);
    assert_eq!(l.len(), 0);
    assert_eq!(r, ["a", "b"]);
}

#[test]
fn defaults_come_from_the_type() {
    let x: U32Or<7> = Default::default();
    assert_eq!(x.0, 7);
    let y: BoolOr<true> = Default::default();
    assert!(y.0);
}

fn attr(name: &str, is_scope: bool, parsed: Result<ScopeOptions, String>) -> ScopeAttr<String> {
    ScopeAttr { attr: name.to_string(), is_scope, parsed }
}

fn factory() -> ScopeFactory {
    ScopeFactory { scope_lifetime: "'a".to_string(), scope_name: "Scope".to_string() }
}

#[test]
fn process_scope_keeps_other_attributes_in_reverse() {
    let mut attrs = vec![
        attr("derive", false, Err(String::new())),
        attr("scope", true, Ok(ScopeOptions {})),
        attr("doc", false, Err(String::new())),
    ];
    let r = factory().process_scope(&mut attrs);
    assert!(r.is_ok());
    let names: Vec<&str> = attrs.iter().map(|a| a.attr.as_str()).collect();
    assert_eq!(names, vec!["doc", "derive"]);
}

#[test]
fn process_scope_refuses_structs_without_scope() {
    let mut attrs = vec![attr("derive", false, Err(String::new()))];
    assert!(matches!(factory().process_scope(&mut attrs), Err(ScopeError::NotAScopeError)));
    let mut broken = vec![attr("scope", true, Err("bad".to_string()))];
    assert!(matches!(factory().process_scope(&mut broken), Err(ScopeError::NotAScopeError)));
}

#[test]
fn process_scope_reports_several_scopes_and_parse_errors() {
    let mut attrs = vec![
        attr("scope", true, Ok(ScopeOptions {})),
        attr("scope", true, Err("first".to_string())),
        attr("scope", true, Ok(ScopeOptions {})),
    ];
    match factory().process_scope(&mut attrs) {
        Err(ScopeError::ParsingError(_, messages)) => {
            assert_eq!(messages, vec!["first".to_string(), "Found multiple scope attributes!".to_string()]);
        }
        _ => panic!("expected a parsing error"),
    }
    assert!(attrs.is_empty());
}

struct Shown(u32);

impl From<Shown> for u32 {
    fn from(s: Shown) -> u32 {
        s.0
    }
}

impl StateTag<u32> for Shown {}

struct Recorder(std::cell::RefCell<Vec<u32>>);

impl UpdateState<Shown, u32> for Recorder {
    fn update_state(&self, new: &u32) {
        self.0.borrow_mut().push(*new);
    }
}

#[test]
fn scope_state_tells_the_updater() {
    let rec = Rc::new(Recorder(std::cell::RefCell::new(vec![])));
    let mut s: ScopeState<u32, Shown, Recorder> = ScopeState::new(Shown(3), rec.clone());
    assert_eq!(*s.borrow(), 3);
    s.update_state();
    s.set(4);
    assert_eq!(*s.borrow(), 4);
    assert_eq!(*rec.0.borrow(), vec![3, 4]);
}

#[test]
fn sum_component_writes_decimal_text() {
    let mut s = Scope::new(Props { a: 0, b: 0 }, ["0".to_string(), "0".to_string(), "0".to_string()]);
    apply_a(&mut s, i32::MIN);
    assert_eq!(s.text_node(0), "-2147483648");
    assert_eq!(s.text_node(2), "-2147483648");
    apply_b(&mut s, i32::MAX);
    assert_eq!(s.text_node(1), "2147483647");
    assert_eq!(s.text_node(2), "-1");
    apply_a(&mut s, -70);
    apply_b(&mut s, 7);
    assert_eq!(s.text_node(0), "-70");
    assert_eq!(s.text_node(2), "-63");
}
