use std::collections::VecDeque;

use rapyd::depth_first::DepthFirstIter;
use rapyd::html::{process_html, process_html_inner, HtmlNode};
use rapyd::walk::Walk;
use rapyd::walk_iterator::WalkIterator;
use rapyd::walk_stream::{html_iter_walks, WalkIteratorTest};

fn dbg<T: std::fmt::Debug>(t: &T) -> String {
    format!("{:?}", t)
}

#[test]
fn combine_into_nothing_takes_the_walk() {
    let mut one = None;
    assert_eq!(Walk::combine(&mut one, Walk::Over(2)), Ok(()));
    assert_eq!(dbg(&one), "Some(Over(2))");
}

#[test]
fn combine_over_adds_up() {
    let mut one = Some(Walk::Over(2));
    assert_eq!(Walk::combine_over(&mut one, 3), Ok(()));
    assert_eq!(dbg(&one), "Some(Over(5))");
}

#[test]
fn combine_out_cancels_in() {
    let mut one = Some(Walk::In(2));
    assert_eq!(Walk::combine_out(&mut one, 3), Ok(()));
    assert_eq!(dbg(&one), "Some(Out(1))");
    let mut two = Some(Walk::In(3));
    assert_eq!(Walk::combine_out(&mut two, 1), Ok(()));
    assert_eq!(dbg(&two), "Some(In(2))");
    let mut three = Some(Walk::In(2));
    assert_eq!(Walk::combine_out(&mut three, 2), Ok(()));
    assert!(three.is_none());
}

#[test]
fn combine_out_drops_over_and_grows_out_by_one() {
    let mut one = Some(Walk::Over(4));
    assert_eq!(Walk::combine_out(&mut one, 2), Ok(()));
    assert_eq!(dbg(&one), "Some(Out(2))");
    let mut two = Some(Walk::Out(2));
    assert_eq!(Walk::combine_out(&mut two, 5), Ok(()));
    assert_eq!(dbg(&two), "Some(Out(3))");
}

#[test]
fn combine_in_cancels_out_and_grows_in_by_one() {
    let mut one = Some(Walk::Out(3));
    assert_eq!(Walk::combine_in(&mut one, 1), Ok(()));
    assert_eq!(dbg(&one), "Some(Out(2))");
    let mut two = Some(Walk::Out(1));
    assert_eq!(Walk::combine_in(&mut two, 3), Ok(()));
    assert_eq!(dbg(&two), "Some(In(2))");
    let mut three = Some(Walk::In(2));
    assert_eq!(Walk::combine_in(&mut three, 5), Ok(()));
    assert_eq!(dbg(&three), "Some(In(3))");
}

#[test]
fn combine_refuses_what_does_not_merge() {
    let mut one = Some(Walk::Replace);
    assert_eq!(Walk::combine_over(&mut one, 1), Err(()));
    assert_eq!(Walk::combine_in(&mut one, 1), Err(()));
    assert_eq!(Walk::combine_out(&mut one, 1), Err(()));
    assert_eq!(Walk::combine_replace(&mut one), Err(()));
    assert_eq!(Walk::combine_event(&mut one, "click"), Err(()));
    assert_eq!(dbg(&one), "Some(Replace)");
    let mut two = Some(Walk::Over(1));
    assert_eq!(Walk::combine_in(&mut two, 1), Err(()));
    let mut three = None;
    assert_eq!(Walk::combine_event(&mut three, "click"), Ok(()));
    assert_eq!(dbg(&three), "Some(Event(\"click\"))");
}

#[test]
fn push_merges_into_the_last_walk() {
    let mut w = WalkIterator::new();
    w.push_in(1);
    w.push_in(1);
    w.push_over(1);
    w.push_over(2);
    w.push_replace();
    w.push_out(1);
    w.push_out(2);
    assert_eq!(dbg(&Vec::<Walk>::from(w)), "[In(2), Over(3), Replace, Out(3)]");
}

#[test]
fn push_out_unwinds_over_and_in() {
    let mut w = WalkIterator::new();
    w.push_replace();
    w.push_in(2);
    w.push_over(1);
    w.push_out(3);
    assert_eq!(dbg(&Vec::<Walk>::from(w)), "[Replace, Out(1)]");
    let mut v = WalkIterator::new();
    v.push_in(3);
    v.push_out(3);
    assert_eq!(dbg(&Vec::<Walk>::from(v)), "[]");
}

#[test]
fn push_in_unwinds_out() {
    let mut w = WalkIterator::new();
    w.push_replace();
    w.push_out(1);
    w.push_in(3);
    assert_eq!(dbg(&Vec::<Walk>::from(w)), "[Replace, In(2)]");
    let mut v = WalkIterator::new();
    v.push_in(2);
    v.push_in(5);
    assert_eq!(dbg(&Vec::<Walk>::from(v)), "[In(3)]");
}

fn el(children: Vec<HtmlNode>) -> HtmlNode {
    HtmlNode::Element(children)
}

#[test]
fn walks_to_a_block_inside_an_element() {
    let walks = process_html(vec![el(vec![HtmlNode::Block])]);
    assert_eq!(dbg(&walks), "[In(1), Replace, Out(1)]");
}

#[test]
fn walks_over_siblings_to_blocks() {
    // <span>"a"{x}</span><div><!-- c --></div>{y}
    let html = vec![
        el(vec![HtmlNode::Text, HtmlNode::Block]),
        el(vec![HtmlNode::Comment]),
        HtmlNode::Block,
    ];
    let walks = process_html(html);
    assert_eq!(dbg(&walks), "[In(1), Over(1), Replace, Out(1), Over(2), Replace, Over(1)]");
}

#[test]
fn nested_first_children_descend_by_one_each_time() {
    // <a><b><c>{x}</c></b></a>
    let walks = process_html(vec![el(vec![el(vec![el(vec![HtmlNode::Block])])])]);
    assert_eq!(dbg(&walks), "[In(2), Replace, Out(3)]");
}

#[test]
fn empty_template_has_no_walks() {
    let walks = process_html(vec![]);
    assert!(walks.is_empty());
    let it = process_html_inner(&vec![el(vec![])]);
    assert_eq!(dbg(&Vec::<Walk>::from(it)), "[]");
}

#[test]
fn lazy_walks_of_a_block_inside_an_element() {
    let walks = html_iter_walks(vec![el(vec![HtmlNode::Block])]);
    assert_eq!(dbg(&walks), "[In(1), Replace, Out(1), Over(1)]");
}

#[test]
fn lazy_builder_yields_one_walk_at_a_time() {
    let mut nodes = VecDeque::new();
    nodes.push_back(HtmlNode::Text);
    nodes.push_back(HtmlNode::Text);
    nodes.push_back(HtmlNode::Block);
    let mut it = WalkIteratorTest::new(nodes);
    assert_eq!(dbg(&it.next()), "Some(Over(2))");
    assert_eq!(dbg(&it.next()), "Some(Replace)");
    assert_eq!(dbg(&it.next()), "Some(Over(1))");
    assert!(it.next().is_none());
    assert!(it.next().is_none());
}

#[test]
fn depth_first_visits_in_document_order() {
    let mut nodes = VecDeque::new();
    nodes.push_back(el(vec![HtmlNode::Text, HtmlNode::Block]));
    nodes.push_back(HtmlNode::Comment);
    let mut it = DepthFirstIter::new(nodes);
    let mut seen = vec![];
    while let Some(n) = it.next() {
        seen.push(format!("{:?}/{}", n.node, n.level_diff));
    }
    assert_eq!(seen, vec!["Element([])/0", "Text/0", "Block/0", "Comment/-1"]);
}

/// The paths the walks mark, walking from the first node `[0]`: a descent
/// goes to first children, a climb drops levels, a move over adds to the
/// last index.
fn replace_paths(walks: &[Walk]) -> Vec<Vec<usize>> {
    let mut p = vec![0usize];
    let mut marks = vec![];
    for w in walks {
        match *w {
            Walk::In(n) => {
                for _ in 0..n {
                    p.push(0);
                }
            }
            Walk::Out(n) => {
                for _ in 0..n {
                    p.pop();
                }
            }
            Walk::Over(n) => {
                if let Some(l) = p.last_mut() {
                    *l += n;
                }
            }
            Walk::Replace => marks.push(p.clone()),
            Walk::Event(_) => {}
        }
    }
    marks
}

#[test]
fn walks_mark_the_blocks_in_document_order() {
    // <span>"a"{x}</span><div><!-- c --></div>{y}
    let html = vec![
        el(vec![HtmlNode::Text, HtmlNode::Block]),
        el(vec![HtmlNode::Comment]),
        HtmlNode::Block,
    ];
    assert_eq!(replace_paths(&process_html(html)), vec![vec![0, 1], vec![2]]);
    // <ul><li>{a}</li><li>"t"{b}</li></ul>
    let list = vec![el(vec![el(vec![HtmlNode::Block]), el(vec![HtmlNode::Text, HtmlNode::Block])])];
    let walks = process_html(list);
    assert_eq!(
        dbg(&walks),
        "[In(2), Replace, Out(1), Over(1), In(1), Over(1), Replace, Out(2)]"
    );
    assert_eq!(replace_paths(&walks), vec![vec![0, 0, 0], vec![0, 1, 1]]);
}

#[test]
fn a_deep_first_descent_stops_short() {
    // <a><b><c>{x}</c></b></a>: the block is at [0, 0, 0, 0], but the
    // children of `a` begin with a descent of two, merged into one of two.
    let walks = process_html(vec![el(vec![el(vec![el(vec![HtmlNode::Block])])])]);
    assert_eq!(replace_paths(&walks), vec![vec![0, 0, 0]]);
}

#[test]
fn one_replace_per_block_even_where_descents_fall_short() {
    // <a><b><c>{x}</c></b>{y}</a>{z}
    let html = vec![
        el(vec![el(vec![el(vec![HtmlNode::Block])]), HtmlNode::Block]),
        HtmlNode::Block,
    ];
    let walks = process_html(html);
    assert_eq!(walks.iter().filter(|w| matches!(w, Walk::Replace)).count(), 3);
}
