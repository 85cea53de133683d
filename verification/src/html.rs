use vstd::prelude::*;

verus! {

/// A parsed document as the library reads it: a text node, an element with
/// its children in document order, or anything else (a comment). Element
/// names and attributes are not kept; nothing here reads them.
pub enum HtmlNode {
    Text(String),
    Element(Vec<HtmlNode>),
    Other,
}

/// What `html_parser::Dom::parse` yields for this text, node for node in the
/// library's shape: the top-level nodes in document order, children nested in
/// their order; nothing when the text does not parse as a document.
pub uninterp spec fn parsed_doc(s: Seq<char>) -> Option<Seq<HtmlNode>>;

#[verifier::external_type_specification]
#[verifier::external_body]
pub struct ExHtmlParserNode(html_parser::Node);

/// Relies on html_parser's node shape: rebuilds one parsed node in the
/// library's tree, one match arm per variant, text and children moved over in
/// order. Nothing can be stated of the opaque input; that this conversion is
/// one-for-one is part of what `parse_document`'s contract assumes.
#[verifier::external_body]
fn convert_node(n: html_parser::Node) -> HtmlNode {
    match n {
        html_parser::Node::Text(t) => HtmlNode::Text(t),
        html_parser::Node::Element(e) => HtmlNode::Element(
            e.children.into_iter().map(convert_node).collect(),
        ),
        html_parser::Node::Comment(_) => HtmlNode::Other,
    }
}

/// Relies on `html_parser::Dom::parse`: the parse depends on the text alone,
/// and text that does not parse yields an error, never a panic. The parsed
/// top-level nodes come back through `convert_node`, so `parsed_doc` names
/// the result of the parse alone, in the library's shape.
#[verifier::external_body]
pub(crate) fn parse_document(input: &str) -> (r: Option<Vec<HtmlNode>>)
    ensures
        match r {
            Option::Some(ns) => parsed_doc(input@) == Option::Some(ns@),
            Option::None => parsed_doc(input@) is None,
        },
{
    match html_parser::Dom::parse(input) {
        Ok(dom) => Some(dom.children.into_iter().map(convert_node).collect()),
        Err(_) => None,
    }
}

/// The first text node under `n`, in depth-first document order.
pub open spec fn first_text_of_node(n: HtmlNode) -> Option<Seq<char>>
    decreases n,
{
    match n {
        HtmlNode::Text(t) => Option::Some(t@),
        HtmlNode::Element(children) => first_text_in_list(children@),
        HtmlNode::Other => Option::None,
    }
}

/// The first text node in the nodes, in depth-first document order: a node's
/// own text and descendants come before any of its later siblings.
pub open spec fn first_text_in_list(ns: Seq<HtmlNode>) -> Option<Seq<char>>
    decreases ns,
{
    if ns.len() == 0 {
        Option::None
    } else {
        match first_text_of_node(ns[0]) {
            Option::Some(t) => Option::Some(t),
            Option::None => first_text_in_list(ns.skip(1)),
        }
    }
}

fn node_first_text(n: &HtmlNode) -> (r: Option<String>)
    ensures
        match r {
            Option::Some(t) => first_text_of_node(*n) == Option::Some(t@),
            Option::None => first_text_of_node(*n) is None,
        },
    decreases *n,
{
    match n {
        HtmlNode::Text(t) => Some(t.clone()),
        HtmlNode::Element(children) => first_text_in_document(children),
        HtmlNode::Other => None,
    }
}

/// The first text node of the document, in depth-first document order.
pub fn first_text_in_document(nodes: &Vec<HtmlNode>) -> (r: Option<String>)
    ensures
        match r {
            Option::Some(t) => first_text_in_list(nodes@) == Option::Some(t@),
            Option::None => first_text_in_list(nodes@) is None,
        },
    decreases nodes@,
{
    let mut j: usize = 0;
    proof {
        assert(nodes@.skip(0) =~= nodes@);
    }
    while j < nodes.len()
        invariant
            j <= nodes@.len(),
            first_text_in_list(nodes@) == first_text_in_list(nodes@.skip(j as int)),
        decreases nodes@.len() - j,
    {
        proof {
            assert(nodes@.skip(j as int)[0] == nodes@[j as int]);
            assert(nodes@.skip(j as int).skip(1) =~= nodes@.skip(j as int + 1));
        }
        match node_first_text(&nodes[j]) {
            Option::Some(t) => {
                return Some(t);
            },
            Option::None => {},
        }
        j = j + 1;
    }
    proof {
        assert(nodes@.skip(j as int) =~= Seq::<HtmlNode>::empty());
    }
    None
}

} // verus!
