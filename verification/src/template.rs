//! From a template's tokens to its walks: the tokens are parsed with
//! `syn-rsx` into the node tree the walk builders read, and the walks are
//! built from it.
use vstd::prelude::*;

use crate::amounts::no_events;
use crate::html::{
    block_count, descents_merge, replace_count, forest_size, forest_walks, is_supported, node_count, process_html_inner,
    supported_forest, HtmlNode,
};
use crate::nav::nav_marks;
use crate::placeholders::placeholders;
use crate::stream_nav::drain_keeps;
use crate::walk::Walk;
use crate::walk_iterator::all_well_formed;
use crate::walk_stream::{builder_weight, drains, html_iter_walks, nodes_weight, StreamModel};

verus! {

/// A node of `syn-rsx`'s parse tree.
#[verifier::external_type_specification]
#[verifier::external_body]
pub struct ExSynRsxNode(syn_rsx::Node);

/// A stream of tokens, as a procedural macro receives it.
#[verifier::external_type_specification]
#[verifier::external_body]
pub struct ExTokenStream(proc_macro2::TokenStream);

/// One `syn-rsx` node as the walk builders see it: its kind and, for
/// elements and fragments, its children, converted in turn.
#[verifier::external_body]
fn html_node_of(node: syn_rsx::Node) -> HtmlNode {
    match node {
        syn_rsx::Node::Element(e) => HtmlNode::Element(e.children.into_iter().map(html_node_of).collect()),
        syn_rsx::Node::Attribute(_) => HtmlNode::Attribute,
        syn_rsx::Node::Text(_) => HtmlNode::Text,
        syn_rsx::Node::Comment(_) => HtmlNode::Comment,
        syn_rsx::Node::Doctype(_) => HtmlNode::Doctype,
        syn_rsx::Node::Block(_) => HtmlNode::Block,
        syn_rsx::Node::Fragment(f) => HtmlNode::Fragment(f.children.into_iter().map(html_node_of).collect()),
    }
}

/// The nodes `syn-rsx` parses from `tokens` with its default
/// configuration, as the walk builders see them; `None` where the tokens do
/// not parse as a template.
pub uninterp spec fn parsed_template(tokens: proc_macro2::TokenStream) -> Option<Seq<HtmlNode>>;

/// The parameters of the closure `syn` parses from `tokens`, each read as an
/// integer literal that fits a `usize` (`None` where it is none); `None`
/// where the tokens are no closure.
pub uninterp spec fn parsed_closure_params(tokens: proc_macro2::TokenStream) -> Option<Seq<Option<usize>>>;

/// `syn_rsx::parse2_with_config` with the default configuration on
/// `tokens`: the parsed nodes, as the walk builders see them, or `None`
/// where the tokens do not parse as a template. The contract claims only
/// that the result is `parsed_template(tokens)`: the parser reads nothing
/// but its tokens.
#[verifier::external_body]
pub fn parse_template(tokens: proc_macro2::TokenStream) -> (r: Option<Vec<HtmlNode>>)
    ensures
        match parsed_template(tokens) {
            None => r is None,
            Some(ns) => r matches Some(v) && v@ == ns,
        },
{
    match syn_rsx::parse2_with_config(tokens, syn_rsx::ParserConfig::default()) {
        Ok(nodes) => Some(nodes.into_iter().map(html_node_of).collect()),
        Err(_) => None,
    }
}

/// `syn::parse2::<ExprClosure>` on `tokens`, and each of its parameters read
/// with `syn::parse2::<LitInt>` and `LitInt::base10_parse::<usize>`, in
/// order. The contract claims only that the result is
/// `parsed_closure_params(tokens)`: the parsers read nothing but their
/// tokens.
#[verifier::external_body]
pub fn closure_params(tokens: proc_macro2::TokenStream) -> (r: Option<Vec<Option<usize>>>)
    ensures
        match parsed_closure_params(tokens) {
            None => r is None,
            Some(ps) => r matches Some(v) && v@ == ps,
        },
{
    let closure: syn::ExprClosure = syn::parse2(tokens).ok()?;
    Some(closure.inputs.into_iter().map(|p| {
        syn::parse2::<syn::LitInt>(quote::ToTokens::into_token_stream(p)).ok().and_then(|n| n.base10_parse().ok())
    }).collect())
}

/// The count of `arr!(|i, N| ..)`: its last parameter read as a count.
pub open spec fn arr_count(params: Seq<Option<usize>>) -> Option<usize> {
    if params.len() == 0 {
        None
    } else {
        params.last()
    }
}

/// Why a template has no walks.
#[derive(Debug, Clone, Copy, PartialEq, Eq, Structural)]
pub enum TemplateError {
    /// The source does not parse as a template.
    Parse,
    /// The template holds a doctype, a fragment or a stray attribute.
    Unsupported,
    /// The template is too large for its walks to be counted in a `usize`.
    TooLarge,
}

/// The walks of the template `ns`, built node by node, or why it has none.
pub open spec fn template_outcome(ns: Seq<HtmlNode>) -> Result<Seq<Walk>, TemplateError> {
    if !supported_forest(ns) {
        Err(TemplateError::Unsupported)
    } else if 3 * forest_size(ns) > usize::MAX {
        Err(TemplateError::TooLarge)
    } else {
        Ok(forest_walks(ns))
    }
}

/// The walks of the parsed template `nodes`, built node by node; where they
/// exist, they mark the template's blocks in document order (wherever its
/// descents merge).
pub fn template_walks(nodes: &Vec<HtmlNode>) -> (r: Result<Vec<Walk>, TemplateError>)
    ensures
        match template_outcome(nodes@) {
            Ok(ws) => r matches Ok(w) && w@ == ws,
            Err(e) => r == Err::<Vec<Walk>, TemplateError>(e),
        },
        r matches Ok(w) ==> all_well_formed(w@) && no_events(w@) && replace_count(w@) == block_count(
            nodes@,
        ) && (descents_merge(nodes@) ==> nav_marks(w@, seq![0nat]) == placeholders(nodes@)),
{
    if !is_supported(nodes) {
        return Err(TemplateError::Unsupported);
    }
    match node_count(nodes) {
        Some(n) => {
            if n > usize::MAX / 3 {
                return Err(TemplateError::TooLarge);
            }
        },
        None => {
            return Err(TemplateError::TooLarge);
        },
    }
    let it = process_html_inner(nodes);
    proof {
        crate::walk_iterator::lemma_into_vec_keeps_walks(it);
        crate::html::lemma_walks_mark_placeholders(nodes@, it@);
        crate::html::lemma_one_replace_per_block(nodes@);
    }
    Ok(Vec::from(it))
}

/// `html!`'s work: the template in `tokens` as parsed, and its walks built
/// node by node (`Parse` where it does not parse).
pub fn html_walks(tokens: proc_macro2::TokenStream) -> (r: (
    Option<Vec<HtmlNode>>,
    Result<Vec<Walk>, TemplateError>,
))
    ensures
        match parsed_template(tokens) {
            None => r.0 is None && r.1 == Err::<Vec<Walk>, TemplateError>(TemplateError::Parse),
            Some(ns) => {
                &&& r.0 matches Some(v) && v@ == ns
                &&& match template_outcome(ns) {
                    Ok(ws) => r.1 matches Ok(w) && w@ == ws,
                    Err(e) => r.1 == Err::<Vec<Walk>, TemplateError>(e),
                }
            },
        },
{
    match parse_template(tokens) {
        None => (None, Err(TemplateError::Parse)),
        Some(nodes) => {
            let walks = template_walks(&nodes);
            (Some(nodes), walks)
        },
    }
}

/// The lazy builder's walks of the parsed template `nodes`, or why it has
/// none.
pub fn template_iter_walks(nodes: Vec<HtmlNode>) -> (r: Result<Vec<Walk>, TemplateError>)
    ensures
        !supported_forest(nodes@) ==> r == Err::<Vec<Walk>, TemplateError>(TemplateError::Unsupported),
        supported_forest(nodes@) && nodes_weight(nodes@) > usize::MAX ==> r == Err::<
            Vec<Walk>,
            TemplateError,
        >(TemplateError::TooLarge),
        supported_forest(nodes@) && nodes_weight(nodes@) <= usize::MAX ==> (r matches Ok(w) && drains(
            StreamModel { nodes: nodes@, queue: Seq::empty(), rec: None },
            w@,
        ) && (drain_keeps(StreamModel { nodes: nodes@, queue: Seq::empty(), rec: None }, w@) ==> nav_marks(
            w@,
            seq![0nat],
        ) == placeholders(nodes@))),
{
    if !is_supported(&nodes) {
        return Err(TemplateError::Unsupported);
    }
    if builder_weight(&nodes).is_none() {
        return Err(TemplateError::TooLarge);
    }
    Ok(html_iter_walks(nodes))
}

/// `html_iter!`'s work: the walks drawn from the lazy builder for the
/// template in `tokens` (`Parse` where it does not parse).
pub fn html_iter_walks_of(tokens: proc_macro2::TokenStream) -> (r: Result<Vec<Walk>, TemplateError>)
    ensures
        match parsed_template(tokens) {
            None => r == Err::<Vec<Walk>, TemplateError>(TemplateError::Parse),
            Some(ns) => {
                &&& !supported_forest(ns) ==> r == Err::<Vec<Walk>, TemplateError>(TemplateError::Unsupported)
                &&& supported_forest(ns) && nodes_weight(ns) > usize::MAX ==> r == Err::<
                    Vec<Walk>,
                    TemplateError,
                >(TemplateError::TooLarge)
                &&& supported_forest(ns) && nodes_weight(ns) <= usize::MAX ==> (r matches Ok(w) && drains(
                    StreamModel { nodes: ns, queue: Seq::empty(), rec: None },
                    w@,
                ) && (drain_keeps(StreamModel { nodes: ns, queue: Seq::empty(), rec: None }, w@) ==> nav_marks(
                    w@,
                    seq![0nat],
                ) == placeholders(ns)))
            },
        },
{
    match parse_template(tokens) {
        None => Err(TemplateError::Parse),
        Some(nodes) => template_iter_walks(nodes),
    }
}

/// The constants `0, 1, .., n - 1`, in order.
pub fn indices(n: usize) -> (v: Vec<usize>)
    ensures
        v@ == Seq::new(n as nat, |i: int| i as usize),
{
    let mut v: Vec<usize> = Vec::new();
    let mut i: usize = 0;
    while i < n
        invariant
            i <= n,
            v@ == Seq::new(i as nat, |k: int| k as usize),
        decreases n - i,
    {
        v.push(i);
        i = i + 1;
        assert(v@ =~= Seq::new(i as nat, |k: int| k as usize));
    }
    v
}

/// `arr!`'s work: the constants `0, 1, .., N - 1` that the blocks of
/// `arr!(|i, N| ..)` bind to `i`, for the closure in `tokens`; `None` where
/// the tokens are no closure or its last parameter is no count.
pub fn arr_indices(tokens: proc_macro2::TokenStream) -> (r: Option<Vec<usize>>)
    ensures
        match parsed_closure_params(tokens) {
            None => r is None,
            Some(ps) => match arr_count(ps) {
                None => r is None,
                Some(n) => r matches Some(v) && v@ == Seq::new(n as nat, |i: int| i as usize),
            },
        },
{
    let params = match closure_params(tokens) {
        Some(ps) => ps,
        None => {
            return None;
        },
    };
    let len = params.len();
    if len == 0 {
        return None;
    }
    match params[len - 1] {
        Some(n) => Some(indices(n)),
        None => None,
    }
}

} // verus!
