//! Documents as markup: what is read from a parsed document, and the entry
//! points that take a document as text.
//!
//! The markup is parsed by `minidom`. Of a parsed element the library reads
//! its name, its attributes, its text and its child elements, and builds
//! from them the nodes that the interpreter runs.

use crate::db::DataStore;
use crate::error::PersonnelError;
use crate::record::{put, Fields, Record};
use crate::template::{
    is_rendering_from, list_skipped, list_skipped_params, render, skipped_in_nodes, skipped_params,
    Block, BlockChild, Node, Param, QueryOutcome, Request, Skipped,
};
use vstd::prelude::*;

verus! {

/// An element of minidom. The library sees of it what the functions below
/// read from it.
#[verifier::external_type_specification]
#[verifier::external_body]
pub struct ExElement(minidom::Element);

/// The root element that the text parses to, where it is well-formed.
pub uninterp spec fn parsed(xml: Seq<char>) -> Option<minidom::Element>;

/// The local name of an element.
pub uninterp spec fn element_name(e: minidom::Element) -> Seq<char>;

/// The value of the attribute of that name, outside any namespace, where the
/// element has one.
pub uninterp spec fn element_attr(e: minidom::Element, name: Seq<char>) -> Option<Seq<char>>;

/// The text of an element: its text nodes, one after the other.
pub uninterp spec fn element_text(e: minidom::Element) -> Seq<char>;

/// The child elements of an element, in order.
pub uninterp spec fn element_children(e: minidom::Element) -> Seq<minidom::Element>;

/// The first child element of that name and namespace, where there is one.
pub uninterp spec fn element_child(
    e: minidom::Element,
    name: Seq<char>,
    namespace: Seq<char>,
) -> Option<minidom::Element>;

/// `minidom::Element`'s `FromStr`, through `str::parse`: the root element of
/// the document, or the error that the parser met.
#[verifier::external_body]
fn parse_element(xml: &str) -> (res: Result<minidom::Element, minidom::Error>)
    ensures
        match res {
            Ok(root) => parsed(xml@) == Some(root),
            Err(_) => parsed(xml@) is None,
        },
{
    xml.parse::<minidom::Element>()
}

/// `Element::name` of minidom: the local name of the element.
#[verifier::external_body]
fn name_of<'a>(e: &'a minidom::Element) -> (name: &'a str)
    ensures
        name@ == element_name(*e),
{
    e.name()
}

/// `Element::attr` of minidom, its result copied: the value of the attribute
/// of that name outside any namespace, where the element has one.
#[verifier::external_body]
fn attr_of(e: &minidom::Element, name: &str) -> (value: Option<String>)
    ensures
        match value {
            Some(v) => element_attr(*e, name@) == Some(v@),
            None => element_attr(*e, name@) is None,
        },
{
    e.attr(name).map(String::from)
}

/// `Element::text` of minidom: the text nodes of the element, one after the
/// other.
#[verifier::external_body]
fn text_of(e: &minidom::Element) -> (text: String)
    ensures
        text@ == element_text(*e),
{
    e.text()
}

/// `Element::children` of minidom, its items collected: the child elements,
/// in order.
#[verifier::external_body]
fn children_of<'a>(e: &'a minidom::Element) -> (children: Vec<&'a minidom::Element>)
    ensures
        children@.len() == element_children(*e).len(),
        forall|i: int| 0 <= i < children@.len() ==> *children@[i] == element_children(*e)[i],
{
    e.children().collect()
}

/// `Element::get_child` of minidom: the first child element of that name
/// and namespace, where there is one. What it finds is one of the child
/// elements and has that name.
#[verifier::external_body]
fn child_of<'a>(e: &'a minidom::Element, name: &str, namespace: &str) -> (child: Option<
    &'a minidom::Element,
>)
    ensures
        match child {
            Some(c) => element_child(*e, name@, namespace@) == Some(*c),
            None => element_child(*e, name@, namespace@) is None,
        },
        child matches Some(c) ==> element_children(*e).contains(*c) && element_name(*c) == name@,
{
    e.get_child(name, namespace)
}

/// Whether a held text is the text that was read, or both are absent.
pub open spec fn same_text(held: Option<String>, read: Option<Seq<char>>) -> bool {
    match (held, read) {
        (Some(h), Some(r)) => h@ == r,
        (None, None) => true,
        _ => false,
    }
}

/// Whether `request` is what the element says as a request: its attributes
/// `name` and `request`.
pub open spec fn is_request_of(request: Request, e: minidom::Element) -> bool {
    &&& same_text(request.name, element_attr(e, "name"@))
    &&& same_text(request.request, element_attr(e, "request"@))
}

/// Whether `requests` are the child elements of the element, read as
/// requests.
pub open spec fn is_group_of(requests: Seq<Request>, e: minidom::Element) -> bool {
    &&& requests.len() == element_children(e).len()
    &&& forall|i: int|
        0 <= i < requests.len() ==> is_request_of(#[trigger] requests[i], element_children(e)[i])
}

/// Whether `child` is what the element says as a child of a block: a query
/// group where it is named `sql`, its text where it is named `html`.
pub open spec fn is_block_child_of(child: BlockChild, e: minidom::Element) -> bool {
    if element_name(e) == "sql"@ {
        child matches BlockChild::Sql(requests) && is_group_of(requests@, e)
    } else if element_name(e) == "html"@ {
        child matches BlockChild::Html(text) && text@ == element_text(e)
    } else {
        child is Other
    }
}

/// Whether `block` is what the element says as a block: its child elements,
/// its attributes `set` and `value`, and whether it has the attribute
/// `loop_type`.
pub open spec fn is_block_of(block: Block, e: minidom::Element) -> bool {
    &&& block.children@.len() == element_children(e).len()
    &&& forall|i: int|
        0 <= i < block.children@.len() ==> is_block_child_of(
            #[trigger] block.children@[i],
            element_children(e)[i],
        )
    &&& same_text(block.set, element_attr(e, "set"@))
    &&& same_text(block.value, element_attr(e, "value"@))
    &&& block.looping == (element_attr(e, "loop_type"@) is Some)
}

/// Whether `node` is what the element says as a node of a document: a block
/// where it is named `block`, a declaration with its attributes `name` and
/// `value` where it is named `variable`.
pub open spec fn is_node_of(node: Node, e: minidom::Element) -> bool {
    if element_name(e) == "block"@ {
        node matches Node::Block(block) && is_block_of(block, e)
    } else if element_name(e) == "variable"@ {
        node matches Node::Variable(name, value) && same_text(name, element_attr(e, "name"@))
            && same_text(value, element_attr(e, "value"@))
    } else {
        node is Other
    }
}

/// Whether `nodes` are the child elements of the root, read as nodes.
pub open spec fn is_document_of(nodes: Seq<Node>, root: minidom::Element) -> bool {
    &&& nodes.len() == element_children(root).len()
    &&& forall|i: int|
        0 <= i < nodes.len() ==> is_node_of(#[trigger] nodes[i], element_children(root)[i])
}

/// Whether `param` is what the element says as a parameter: its attributes
/// `name` and `default`.
pub open spec fn is_param_of(param: Param, e: minidom::Element) -> bool {
    &&& same_text(param.name, element_attr(e, "name"@))
    &&& same_text(param.default, element_attr(e, "default"@))
}

/// Whether `params` are the child elements of the section, read as
/// parameters.
pub open spec fn are_params_of(params: Seq<Param>, section: minidom::Element) -> bool {
    &&& params.len() == element_children(section).len()
    &&& forall|i: int|
        0 <= i < params.len() ==> is_param_of(#[trigger] params[i], element_children(section)[i])
}

/// Whether the element has the given name.
fn is_named(e: &minidom::Element, name: &str) -> (b: bool)
    ensures
        b == (element_name(*e) == name@),
{
    name_of(e).to_owned() == name.to_owned()
}

fn read_request(e: &minidom::Element) -> (request: Request)
    ensures
        is_request_of(request, *e),
{
    Request { name: attr_of(e, "name"), request: attr_of(e, "request") }
}

fn read_group(e: &minidom::Element) -> (requests: Vec<Request>)
    ensures
        is_group_of(requests@, *e),
{
    let children = children_of(e);
    let mut requests: Vec<Request> = Vec::new();
    let mut i: usize = 0;
    while i < children.len()
        invariant
            i <= children.len(),
            requests@.len() == i,
            children@.len() == element_children(*e).len(),
            forall|k: int| 0 <= k < children@.len() ==> *children@[k] == element_children(*e)[k],
            forall|k: int|
                0 <= k < i ==> is_request_of(#[trigger] requests@[k], element_children(*e)[k]),
        decreases children.len() - i,
    {
        requests.push(read_request(children[i]));
        i += 1;
    }
    requests
}

fn read_block_child(e: &minidom::Element) -> (child: BlockChild)
    ensures
        is_block_child_of(child, *e),
{
    if is_named(e, "sql") {
        BlockChild::Sql(read_group(e))
    } else if is_named(e, "html") {
        BlockChild::Html(text_of(e))
    } else {
        BlockChild::Other
    }
}

fn read_block(e: &minidom::Element) -> (block: Block)
    ensures
        is_block_of(block, *e),
{
    let elements = children_of(e);
    let mut children: Vec<BlockChild> = Vec::new();
    let mut i: usize = 0;
    while i < elements.len()
        invariant
            i <= elements.len(),
            children@.len() == i,
            elements@.len() == element_children(*e).len(),
            forall|k: int| 0 <= k < elements@.len() ==> *elements@[k] == element_children(*e)[k],
            forall|k: int|
                0 <= k < i ==> is_block_child_of(#[trigger] children@[k], element_children(*e)[k]),
        decreases elements.len() - i,
    {
        children.push(read_block_child(elements[i]));
        i += 1;
    }
    let looping = attr_of(e, "loop_type").is_some();
    Block { children, set: attr_of(e, "set"), value: attr_of(e, "value"), looping }
}

fn read_node(e: &minidom::Element) -> (node: Node)
    ensures
        is_node_of(node, *e),
{
    if is_named(e, "block") {
        Node::Block(read_block(e))
    } else if is_named(e, "variable") {
        Node::Variable(attr_of(e, "name"), attr_of(e, "value"))
    } else {
        Node::Other
    }
}

/// Reads the nodes of a document from its root element.
pub fn read_document(root: &minidom::Element) -> (nodes: Vec<Node>)
    ensures
        is_document_of(nodes@, *root),
{
    let elements = children_of(root);
    let mut nodes: Vec<Node> = Vec::new();
    let mut i: usize = 0;
    while i < elements.len()
        invariant
            i <= elements.len(),
            nodes@.len() == i,
            elements@.len() == element_children(*root).len(),
            forall|k: int|
                0 <= k < elements@.len() ==> *elements@[k] == element_children(*root)[k],
            forall|k: int|
                0 <= k < i ==> is_node_of(#[trigger] nodes@[k], element_children(*root)[k]),
        decreases elements.len() - i,
    {
        nodes.push(read_node(elements[i]));
        i += 1;
    }
    nodes
}

/// Reads the parameter declarations from the parameter section of a document.
pub fn read_params(section: &minidom::Element) -> (params: Vec<Param>)
    ensures
        are_params_of(params@, *section),
{
    let elements = children_of(section);
    let mut params: Vec<Param> = Vec::new();
    let mut i: usize = 0;
    while i < elements.len()
        invariant
            i <= elements.len(),
            params@.len() == i,
            elements@.len() == element_children(*section).len(),
            forall|k: int|
                0 <= k < elements@.len() ==> *elements@[k] == element_children(*section)[k],
            forall|k: int|
                0 <= k < i ==> is_param_of(#[trigger] params@[k], element_children(*section)[k]),
        decreases elements.len() - i,
    {
        let param = Param { name: attr_of(elements[i], "name"), default: attr_of(elements[i], "default") };
        params.push(param);
        i += 1;
    }
    params
}

/// The default of a parameter: what its declaration gives, else the empty
/// text.
pub open spec fn default_of(param: Param) -> Seq<char> {
    match param.default {
        Some(d) => d@,
        None => Seq::empty(),
    }
}

/// The parameters that the declarations give: every declaration with a name
/// stores its default under the name, in order; one without a name is
/// skipped.
pub open spec fn declared(params: Seq<Param>) -> Fields
    decreases params.len(),
{
    if params.len() == 0 {
        Fields::empty()
    } else {
        let earlier = declared(params.drop_last());
        match params.last().name {
            Some(name) => put(earlier, name@, default_of(params.last())),
            None => earlier,
        }
    }
}

/// The parameters of a document with their defaults, from its declarations.
pub fn list_params(params: &Vec<Param>) -> (record: Record)
    ensures
        record.wf(),
        record@ == declared(params@),
{
    let mut record = Record::new();
    let mut i: usize = 0;
    assert(params@.take(0) == Seq::<Param>::empty());
    while i < params.len()
        invariant
            i <= params.len(),
            record.wf(),
            record@ == declared(params@.take(i as int)),
        decreases params.len() - i,
    {
        proof {
            assert(params@.take(i + 1).drop_last() == params@.take(i as int));
            assert(params@.take(i + 1).last() == params@[i as int]);
        }
        match &params[i].name {
            Some(name) => match &params[i].default {
                Some(default) => record.insert(name.as_str(), default.as_str()),
                None => {
                    let empty = String::new();
                    record.insert(name.as_str(), empty.as_str())
                },
            },
            None => {},
        }
        i += 1;
    }
    assert(params@.take(params.len() as int) == params@);
    record
}

/// Parses a document and reads its nodes. Fails where the text is not
/// well-formed markup, and only there.
pub fn parse_document(xml: &str) -> (res: Result<Vec<Node>, PersonnelError>)
    ensures
        match parsed(xml@) {
            Some(root) => res matches Ok(nodes) && is_document_of(nodes@, root),
            None => res matches Err(e) && e is XmlError,
        },
{
    match parse_element(xml) {
        Ok(root) => Ok(read_document(&root)),
        Err(err) => Err(PersonnelError::XmlError(err)),
    }
}

/// Parses a document and reads the declarations of its parameter section:
/// the child `params` of the root, in the namespace `pm`. Fails with
/// `XmlError` where the text is not well-formed markup, with `EmptyXml`
/// where the root has no such section.
pub fn parse_params(xml: &str) -> (res: Result<Vec<Param>, PersonnelError>)
    ensures
        match parsed(xml@) {
            Some(root) => match element_child(root, "params"@, "pm"@) {
                Some(section) => res matches Ok(params) && are_params_of(params@, section)
                    && element_children(root).contains(section) && element_name(section)
                    == "params"@,
                None => res matches Err(e) && e is EmptyXml,
            },
            None => res matches Err(e) && e is XmlError,
        },
{
    match parse_element(xml) {
        Ok(root) => match child_of(&root, "params", "pm") {
            Some(section) => Ok(read_params(section)),
            None => Err(PersonnelError::EmptyXml),
        },
        Err(err) => Err(PersonnelError::XmlError(err)),
    }
}

/// Returns the parameters declared in the parameter section of a document,
/// each with its default, or with the empty text where it declares none.
///
/// Fails with a message where the text is not well-formed markup, and
/// where the document has no parameter section.
pub fn get_params(xml_data: &str) -> (res: Result<Record, String>)
    ensures
        match parsed(xml_data@) {
            Some(root) => match element_child(root, "params"@, "pm"@) {
                Some(section) => res matches Ok(record) && record.wf()
                    && element_children(root).contains(section) && element_name(section)
                    == "params"@ && exists|params: Seq<Param>|
                    are_params_of(params, section) && record@ == #[trigger] declared(params),
                None => res matches Err(m) && m@ == "Can't find params"@,
            },
            None => res matches Err(m) && m@ == "Can't parse root"@,
        },
{
    match parse_params(xml_data) {
        Ok(params) => {
            let record = list_params(&params);
            assert(record@ == declared(params@));
            Ok(record)
        },
        Err(PersonnelError::EmptyXml) => Err("Can't find params".to_owned()),
        Err(_) => Err("Can't parse root".to_owned()),
    }
}

/// All that is passed over in a document with these parameter declarations
/// and these nodes: first among the declarations, then among the nodes.
pub open spec fn all_skipped(params: Seq<Param>, nodes: Seq<Node>) -> Seq<Skipped> {
    skipped_params(params) + skipped_in_nodes(nodes)
}

/// Lists what a document holds that is passed over for want of an
/// attribute: parameter declarations without a name, variable declarations
/// without name or value, requests without name or statement. A document
/// without a parameter section has no declarations.
///
/// Fails where the text is not well-formed markup, and only there.
pub fn diagnostics(xml: &str) -> (res: Result<Vec<Skipped>, PersonnelError>)
    ensures
        match parsed(xml@) {
            Some(root) => res matches Ok(list) && exists|params: Seq<Param>, nodes: Seq<Node>|
                is_document_of(nodes, root) && (match element_child(root, "params"@, "pm"@) {
                    Some(section) => are_params_of(params, section),
                    None => params.len() == 0,
                }) && list@ == #[trigger] all_skipped(params, nodes),
            None => res matches Err(e) && e is XmlError,
        },
{
    match parse_element(xml) {
        Ok(root) => {
            let params = match child_of(&root, "params", "pm") {
                Some(section) => read_params(section),
                None => Vec::new(),
            };
            let nodes = read_document(&root);
            let mut list = list_skipped_params(&params);
            let mut more = list_skipped(&nodes);
            list.append(&mut more);
            assert(list@ == all_skipped(params@, nodes@));
            Ok(list)
        },
        Err(err) => Err(PersonnelError::XmlError(err)),
    }
}

/// Whether `res` is what the document under `root` gives when it is run
/// from `params` against the store, for some nodes that the root reads as
/// and some outcomes that the store may have given.
pub open spec fn is_report_of<S: DataStore>(
    store: S,
    root: minidom::Element,
    params: Fields,
    res: Result<String, PersonnelError>,
) -> bool {
    exists|nodes: Seq<Node>, outcomes: Seq<Seq<Seq<Seq<QueryOutcome>>>>|
        is_document_of(nodes, root) && #[trigger] is_rendering_from(
            store,
            nodes,
            params,
            outcomes,
            res,
        )
}

/// Runs the document `template` against the data store, from the given
/// parameters. Fails with `XmlError` where the text is not well-formed
/// markup; else the result is what the document gives for what the
/// database answers.
pub fn document_report<S: DataStore>(store: &S, params: Record, template: &str) -> (res: Result<
    String,
    PersonnelError,
>)
    ensures
        match parsed(template@) {
            Some(root) => is_report_of(*store, root, params@, res) && (res matches Err(e)
                ==> e is FromUtf8Error),
            None => res matches Err(e) && e is XmlError,
        },
{
    match parse_document(template) {
        Ok(nodes) => {
            let res = render(store, &nodes, params);
            proof {
                let outcomes = choose|outcomes: Seq<Seq<Seq<Seq<QueryOutcome>>>>|
                    is_rendering_from(*store, nodes@, params@, outcomes, res);
                assert(is_document_of(nodes@, parsed(template@)->0) && is_rendering_from(
                    *store,
                    nodes@,
                    params@,
                    outcomes,
                    res,
                ));
            }
            res
        },
        Err(err) => Err(err),
    }
}

/// Runs the document `xml_data` against the data store, from the given
/// parameters, and gives the text that it puts out, or the message of what
/// went wrong.
pub fn parse_xml<S: DataStore>(xml_data: &str, store: &S, params: Record) -> (res: Result<
    String,
    String,
>)
    ensures
        match parsed(xml_data@) {
            Some(root) => exists|inner: Result<String, PersonnelError>|
                #[trigger] is_report_of(*store, root, params@, inner) && match inner {
                    Ok(text) => res == Ok::<String, String>(text),
                    Err(_) => res matches Err(m) && "parsing failed. "@.is_prefix_of(m@),
                },
            None => res matches Err(m) && m@ == "Can't parse XML file!"@,
        },
{
    let inner = document_report(store, params, xml_data);
    match inner {
        Ok(text) => {
            let res = Ok(text);
            assert(is_report_of(*store, parsed(xml_data@)->0, params@, inner));
            res
        },
        Err(PersonnelError::XmlError(_)) => Err("Can't parse XML file!".to_owned()),
        Err(err) => {
            let res = Err(err.message());
            assert(is_report_of(*store, parsed(xml_data@)->0, params@, inner));
            res
        },
    }
}

} // verus!
