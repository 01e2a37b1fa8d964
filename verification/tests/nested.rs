use std::collections::VecDeque;

use rapyd::click_counter;
use rapyd::depth_first::DepthFirstIter;
use rapyd::dom::DomTree;
use rapyd::template::{
    arr_indices, html_iter_walks_of, html_walks, indices, template_iter_walks, template_walks,
    TemplateError,
};
use rapyd::walk::Walk;
use rapyd::html::{is_supported, node_count, HtmlNode};
use rapyd::nested_walk::{check_lists, walk_through, NestedWalk, NestedWalkError};
use rapyd::walk_stream::builder_weight;

/// `<button>clicks: <!></button>`: the button (0) holds a text (1) and a
/// comment (2).
fn counter_button() -> DomTree {
    DomTree {
        first_child: vec![Some(1), None, None],
        next_sibling: vec![None, Some(2), None],
        parent: vec![None, Some(0), Some(0)],
        is_comment: vec![false, false, true],
    }
}

/// `<main><button>clicks: <!></button></main>`: main (0), button (1), text
/// (2), comment (3).
fn app_main() -> DomTree {
    DomTree {
        first_child: vec![Some(1), Some(2), None, None],
        next_sibling: vec![None, None, Some(3), None],
        parent: vec![None, Some(0), Some(1), Some(1)],
        is_comment: vec![false, false, false, true],
    }
}

fn counter_walks() -> Vec<NestedWalk> {
    vec![
        NestedWalk::Next(1, true),
        NestedWalk::Over(1),
        NestedWalk::Replace,
        NestedWalk::Out(1),
        NestedWalk::EventTarget,
    ]
}

#[test]
fn single_level_collects_slots() {
    let lists = vec![counter_walks()];
    let t = walk_through(&counter_button(), 0, &lists, &vec![Some(0)], 1, 1).unwrap();
    assert_eq!(t.text_nodes, vec![2]);
    assert_eq!(t.event_targets, vec![0]);
}

#[test]
fn lowest_level_goes_first() {
    // The outer list still has `Out(1)` left when the inner list is pushed,
    // so the next round climbs out first; the inner list then starts at
    // `main` and finds no sibling of the button.
    let lists = vec![
        vec![NestedWalk::Next(1, false), NestedWalk::MoreWalks(1), NestedWalk::Out(1)],
        counter_walks(),
    ];
    assert!(check_lists(&lists, &vec![Some(0), None]));
    let r = walk_through(&app_main(), 0, &lists, &vec![Some(0), None], 1, 1);
    assert_eq!(r.err(), Some(NestedWalkError::NoNextSibling));
}

#[test]
fn nested_list_runs_after_the_outer_one() {
    let lists = vec![
        vec![NestedWalk::Next(1, false), NestedWalk::MoreWalks(1)],
        counter_walks(),
    ];
    let t = walk_through(&app_main(), 0, &lists, &vec![Some(0), None], 1, 1).unwrap();
    assert_eq!(t.text_nodes, vec![3]);
    assert_eq!(t.event_targets, vec![1]);
}

#[test]
fn nested_walk_misfits() {
    let dom = counter_button();
    let deep = vec![vec![NestedWalk::MoreWalks(0)]];
    assert_eq!(walk_through(&dom, 0, &deep, &vec![Some(0)], 0, 0).err(), Some(NestedWalkError::TooDeep));
    let zero = vec![vec![NestedWalk::Over(0)]];
    assert_eq!(walk_through(&dom, 0, &zero, &vec![Some(0)], 0, 0).err(), Some(NestedWalkError::ZeroCount));
    let no_child = vec![vec![NestedWalk::Next(1, true), NestedWalk::Next(1, true)]];
    assert_eq!(walk_through(&dom, 0, &no_child, &vec![Some(0)], 0, 0).err(), Some(NestedWalkError::NoChild));
    let no_parent = vec![vec![NestedWalk::Out(1)]];
    assert_eq!(walk_through(&dom, 0, &no_parent, &vec![Some(0)], 0, 0).err(), Some(NestedWalkError::NoParent));
    let two = vec![vec![NestedWalk::Next(1, true), NestedWalk::Replace, NestedWalk::Replace]];
    assert_eq!(walk_through(&dom, 0, &two, &vec![Some(0)], 1, 0).err(), Some(NestedWalkError::TooManyTextNodes));
    let events = vec![vec![NestedWalk::EventTarget, NestedWalk::EventTarget]];
    assert_eq!(walk_through(&dom, 0, &events, &vec![Some(0)], 0, 1).err(), Some(NestedWalkError::TooManyEventTargets));
    let none = vec![vec![NestedWalk::EventTarget]];
    assert_eq!(walk_through(&dom, 0, &none, &vec![Some(0)], 1, 1).err(), Some(NestedWalkError::MissingTextNode));
    assert_eq!(walk_through(&dom, 0, &none, &vec![Some(0)], 0, 2).err(), Some(NestedWalkError::MissingEventTarget));
}

#[test]
fn each_round_fills_slots_from_the_first() {
    // Two rounds each fill slot 0; the second overwrites the first.
    let lists = vec![
        vec![NestedWalk::EventTarget, NestedWalk::MoreWalks(1)],
        vec![NestedWalk::Next(1, true), NestedWalk::EventTarget],
    ];
    let t = walk_through(&counter_button(), 0, &lists, &vec![Some(0), None], 0, 1).unwrap();
    assert_eq!(t.event_targets, vec![1]);
}

#[test]
fn list_table_check() {
    assert!(!check_lists(&vec![vec![NestedWalk::MoreWalks(3)]], &vec![Some(0)]));
    assert!(!check_lists(&vec![vec![]], &vec![Some(1)]));
    assert!(check_lists(&vec![vec![NestedWalk::MoreWalks(0)]], &vec![None, Some(0)]));
}

#[test]
fn template_support_and_size() {
    let ok = vec![HtmlNode::Element(vec![HtmlNode::Text, HtmlNode::Block]), HtmlNode::Comment];
    assert!(is_supported(&ok));
    assert_eq!(node_count(&ok), Some(4));
    assert_eq!(builder_weight(&ok), Some(11 + 4 + 6 + 4));
    let bad = vec![HtmlNode::Element(vec![HtmlNode::Doctype])];
    assert!(!is_supported(&bad));
    assert_eq!(node_count(&vec![HtmlNode::Fragment(vec![HtmlNode::Attribute])]), Some(2));
}

fn tokens(source: &str) -> proc_macro2::TokenStream {
    source.parse().unwrap()
}

#[test]
fn template_tokens_to_walks() {
    let (nodes, walks) = html_walks(tokens("<div>{x}</div>"));
    assert_eq!(format!("{:?}", nodes), "Some([Element([Block])])");
    assert_eq!(format!("{:?}", walks.unwrap()), "[In(1), Replace, Out(1)]");
    let walks = html_walks(tokens("<span>\"a\"{x}</span><div><!-- \"c\" --></div>{y}")).1.unwrap();
    assert_eq!(
        format!("{:?}", walks),
        "[In(1), Over(1), Replace, Out(1), Over(2), Replace, Over(1)]"
    );
    let lazy: Vec<Walk> = html_iter_walks_of(tokens("<div>{x}</div>")).unwrap();
    assert_eq!(format!("{:?}", lazy), "[In(1), Replace, Out(1), Over(1)]");
    let (none, parse) = html_walks(tokens("<div>"));
    assert!(none.is_none());
    assert_eq!(parse.err(), Some(TemplateError::Parse));
    assert_eq!(html_walks(tokens("<!DOCTYPE html>")).1.err(), Some(TemplateError::Unsupported));
    assert_eq!(html_iter_walks_of(tokens("<></>")).err(), Some(TemplateError::Unsupported));
    assert_eq!(html_iter_walks_of(tokens("<div")).err(), Some(TemplateError::Parse));
}

#[test]
fn parsed_templates_to_walks() {
    let ok = vec![HtmlNode::Element(vec![HtmlNode::Block])];
    assert_eq!(format!("{:?}", template_walks(&ok).unwrap()), "[In(1), Replace, Out(1)]");
    let bad = vec![HtmlNode::Fragment(vec![])];
    assert_eq!(template_walks(&bad).err(), Some(TemplateError::Unsupported));
    assert_eq!(template_iter_walks(bad).err(), Some(TemplateError::Unsupported));
    assert_eq!(
        format!("{:?}", template_iter_walks(vec![HtmlNode::Text, HtmlNode::Block]).unwrap()),
        "[Over(1), Replace, Over(1)]"
    );
}

#[test]
fn arr_counts() {
    assert_eq!(arr_indices(tokens("|i, 3| i * 2")), Some(vec![0, 1, 2]));
    assert_eq!(arr_indices(tokens("|i, 0| i")), Some(vec![]));
    assert_eq!(arr_indices(tokens("|i, n| i")), None);
    assert_eq!(arr_indices(tokens("7")), None);
    assert_eq!(indices(4), vec![0, 1, 2, 3]);
}

#[test]
fn depth_first_level_diffs_follow_depths() {
    // <a><b>"t"</b>{x}</a><!-- c -->: depths 1, 2, 3, 2, 1
    let mut nodes = VecDeque::new();
    nodes.push_back(HtmlNode::Element(vec![HtmlNode::Element(vec![HtmlNode::Text]), HtmlNode::Block]));
    nodes.push_back(HtmlNode::Comment);
    let mut it = DepthFirstIter::new(nodes);
    let mut diffs = vec![];
    while let Some(n) = it.next() {
        diffs.push(n.level_diff);
    }
    assert_eq!(diffs, vec![0, 0, 0, -1, -1]);
    assert!(it.next().is_none());
}

#[test]
fn counter_shows_k_after_k_clicks() {
    let mut c = click_counter::Scope::new(String::new());
    for k in 1..=12u32 {
        click_counter::handle_click(&mut c);
        assert_eq!(c.get_count(), k);
        assert_eq!(c.text_node(), &k.to_string());
    }
}
