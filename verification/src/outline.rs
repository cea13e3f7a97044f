//! Glyph outlines as trees.
//!
//! An outline file is read and written by the `xmltree` crate. What it reads
//! is copied into `Outline`, part by part, so that the work on the tree is
//! done on values of this library; what is to be written is copied back.

use vstd::prelude::*;
use vstd::string::StringExecFns;
use xmltree::XMLNode;
use crate::dictionary::{keys_of, strictly_ascending};
use crate::order::{compare_names, lemma_name_lt_transitive, name_lt, NameOrder};
use crate::text::{concatenate, same_text};

verus! {

/// An element of an outline with all that is below it: its name, its
/// attributes in the order of the file, and its children.
#[derive(Debug, PartialEq, Eq)]
pub struct Outline {
    pub prefix: Option<String>,
    pub namespace: Option<String>,
    /// The namespaces in scope, each prefix with its URI.
    pub namespaces: Option<Vec<(String, String)>>,
    pub name: String,
    pub attributes: Vec<(String, String)>,
    pub children: Vec<Child>,
}

/// A child of an element.
#[derive(Debug, PartialEq, Eq)]
pub enum Child {
    Outline(Outline),
    Comment(String),
    CData(String),
    Text(String),
    ProcessingInstruction(String, Option<String>),
}

/// An `Outline` as a mathematical value.
pub struct OutlineView {
    pub prefix: Option<Seq<char>>,
    pub namespace: Option<Seq<char>>,
    pub namespaces: Option<Seq<(Seq<char>, Seq<char>)>>,
    pub name: Seq<char>,
    pub attributes: Seq<(Seq<char>, Seq<char>)>,
    pub children: Seq<ChildView>,
}

/// A `Child` as a mathematical value.
pub enum ChildView {
    Outline(OutlineView),
    Comment(Seq<char>),
    CData(Seq<char>),
    Text(Seq<char>),
    ProcessingInstruction(Seq<char>, Option<Seq<char>>),
}

impl Outline {
    /// What the element holds.
    pub open spec fn model(&self) -> OutlineView
        decreases self,
    {
        OutlineView {
            prefix: self.prefix.deep_view(),
            namespace: self.namespace.deep_view(),
            namespaces: self.namespaces.deep_view(),
            name: self.name@,
            attributes: self.attributes.deep_view(),
            children: Seq::new(
                self.children.len() as nat,
                |i: int|
                    if 0 <= i < self.children.len() {
                        self.children[i].model()
                    } else {
                        ChildView::Text(Seq::empty())
                    },
            ),
        }
    }
}

impl Child {
    /// What the node holds.
    pub open spec fn model(&self) -> ChildView
        decreases self,
    {
        match self {
            Child::Outline(e) => ChildView::Outline(e.model()),
            Child::Comment(s) => ChildView::Comment(s@),
            Child::CData(s) => ChildView::CData(s@),
            Child::Text(s) => ChildView::Text(s@),
            Child::ProcessingInstruction(name, data) => ChildView::ProcessingInstruction(name@, data.deep_view()),
        }
    }
}

impl DeepView for Outline {
    type V = OutlineView;

    open spec fn deep_view(&self) -> OutlineView {
        self.model()
    }
}

impl DeepView for Child {
    type V = ChildView;

    open spec fn deep_view(&self) -> ChildView {
        self.model()
    }
}

/// No key occurs twice.
pub open spec fn distinct_keys(keys: Seq<Seq<char>>) -> bool {
    forall|i: int, j: int| 0 <= i < j < keys.len() ==> #[trigger] keys[i] != #[trigger] keys[j]
}

/// The element itself is well formed: no two of its attributes have the same
/// name, and its namespaces, where it has any, stand in the strict order of
/// their prefixes.
pub open spec fn well_formed_here(tree: OutlineView) -> bool {
    &&& distinct_keys(keys_of(tree.attributes))
    &&& tree.namespaces matches Some(namespaces) ==> strictly_ascending(keys_of(namespaces))
}

/// Every element of the tree is well formed. Such a tree is what the reader
/// gives and what the writer takes.
pub open spec fn well_formed(tree: OutlineView) -> bool
    decreases tree,
{
    &&& well_formed_here(tree)
    &&& forall|i: int| 0 <= i < tree.children.len() ==> child_well_formed(#[trigger] tree.children[i])
}

/// Every element at or below the child is well formed.
pub open spec fn child_well_formed(child: ChildView) -> bool
    decreases child,
{
    match child {
        ChildView::Outline(tree) => well_formed(tree),
        _ => true,
    }
}

/// Why an outline could not be worked on.
#[derive(Clone, Debug, PartialEq, Eq)]
pub enum OutlineError {
    /// The text is no well-formed outline; holds what the reader said of it.
    Parse(String),
    /// The tree could not be written; holds what the writer said of it.
    Write(String),
}

impl OutlineError {
    /// A sentence that says what went wrong.
    pub fn message(&self) -> (text: String)
        ensures
            text@ == match self {
                OutlineError::Parse(said) => "The outline could not be read: "@ + said@,
                OutlineError::Write(said) => "The outline could not be written: "@ + said@,
            },
    {
        match self {
            OutlineError::Parse(said) => concatenate("The outline could not be read: ", said.as_str()),
            OutlineError::Write(said) => concatenate("The outline could not be written: ", said.as_str()),
        }
    }
}

/// `xmltree::Element`, an element as the `xmltree` crate holds it. Nothing
/// is known of what is in it but through `xml_content`.
#[verifier::external_type_specification]
#[verifier::external_body]
pub struct ExElement(xmltree::Element);

/// `xmltree::XMLNode`, a child of an element as the `xmltree` crate holds
/// it. Nothing is known of what is in it but through `node_content`.
#[verifier::external_type_specification]
#[verifier::external_body]
pub struct ExNode(xmltree::XMLNode);

/// `xmltree::ParseError`, the error of `xmltree::Element::parse`. Nothing is
/// known of what is in it.
#[verifier::external_type_specification]
#[verifier::external_body]
pub struct ExParseError(xmltree::ParseError);

/// `xmltree::Error`, the error of `xmltree::Element::write_with_config`.
/// Nothing is known of what is in it.
#[verifier::external_type_specification]
#[verifier::external_body]
pub struct ExWriteError(xmltree::Error);

/// What an `xmltree::Element` holds.
pub uninterp spec fn xml_content(element: xmltree::Element) -> OutlineView;

/// What an `xmltree::XMLNode` holds.
pub uninterp spec fn node_content(node: xmltree::XMLNode) -> ChildView;

/// The tree that `xmltree::Element::parse` reads from a text, or `None`
/// where it reports an error.
pub uninterp spec fn parsed_outline(text: Seq<char>) -> Option<OutlineView>;

/// The text that `xmltree::Element::write_with_config` writes for a tree with
/// indentation switched on, or `None` where it reports an error.
pub uninterp spec fn written_outline(tree: OutlineView) -> Option<Seq<char>>;

/// `xmltree::Element::parse` on the bytes of `text`: the root element, or the
/// error. The result depends on the text alone.
#[verifier::external_body]
fn xml_parse(text: &str) -> (r: Result<xmltree::Element, xmltree::ParseError>)
    ensures
        match r {
            Ok(element) => parsed_outline(text@) == Some(xml_content(element)),
            Err(_) => parsed_outline(text@) is None,
        },
{
    xmltree::Element::parse(text.as_bytes())
}

/// `xmltree::Element::write_with_config` into a buffer, with the default
/// configuration but for indentation switched on: the text that was written,
/// the bytes of the buffer read as UTF-8, or the error. The result depends on
/// what the element holds alone.
#[verifier::external_body]
fn xml_write(element: &xmltree::Element) -> (r: Result<String, xmltree::Error>)
    ensures
        match r {
            Ok(text) => written_outline(xml_content(*element)) == Some(text@),
            Err(_) => written_outline(xml_content(*element)) is None,
        },
{
    let mut buffer: Vec<u8> = Vec::new();
    element.write_with_config(&mut buffer, xmltree::EmitterConfig::new().perform_indent(true))?;
    Ok(String::from_utf8_lossy(&buffer).into_owned())
}

/// An `xmltree::Element` taken apart: its fields, the children still as the
/// `xmltree` crate holds them.
struct ElementParts<'a> {
    prefix: &'a Option<String>,
    namespace: &'a Option<String>,
    namespaces: Option<Vec<(&'a String, &'a String)>>,
    name: &'a String,
    attributes: Vec<(&'a String, &'a String)>,
    children: &'a Vec<xmltree::XMLNode>,
}

/// An `xmltree::XMLNode` taken apart: what its variant holds.
enum NodeParts<'a> {
    Inner(&'a xmltree::Element),
    Comment(&'a String),
    CData(&'a String),
    Text(&'a String),
    ProcessingInstruction(&'a String, &'a Option<String>),
}

/// What goes into an `xmltree::XMLNode`.
enum NodeToMake {
    Inner(xmltree::Element),
    Comment(String),
    CData(String),
    Text(String),
    ProcessingInstruction(String, Option<String>),
}

/// What the children of an element hold, one by one.
spec fn nodes_content(nodes: Seq<xmltree::XMLNode>) -> Seq<ChildView> {
    nodes.map_values(|node: xmltree::XMLNode| node_content(node))
}

/// What the parts of an element hold together.
spec fn element_parts_content(parts: ElementParts) -> OutlineView {
    OutlineView {
        prefix: parts.prefix.deep_view(),
        namespace: parts.namespace.deep_view(),
        namespaces: parts.namespaces.deep_view(),
        name: parts.name@,
        attributes: parts.attributes.deep_view(),
        children: nodes_content(parts.children@),
    }
}

/// What the parts of a node hold.
spec fn node_parts_content(parts: NodeParts) -> ChildView {
    match parts {
        NodeParts::Inner(element) => ChildView::Outline(xml_content(*element)),
        NodeParts::Comment(s) => ChildView::Comment(s@),
        NodeParts::CData(s) => ChildView::CData(s@),
        NodeParts::Text(s) => ChildView::Text(s@),
        NodeParts::ProcessingInstruction(name, data) => ChildView::ProcessingInstruction(name@, data.deep_view()),
    }
}

/// What a node that is made of `parts` holds.
spec fn node_to_make_content(parts: NodeToMake) -> ChildView {
    match parts {
        NodeToMake::Inner(element) => ChildView::Outline(xml_content(element)),
        NodeToMake::Comment(s) => ChildView::Comment(s@),
        NodeToMake::CData(s) => ChildView::CData(s@),
        NodeToMake::Text(s) => ChildView::Text(s@),
        NodeToMake::ProcessingInstruction(name, data) => ChildView::ProcessingInstruction(name@, data.deep_view()),
    }
}

/// The fields of an `xmltree::Element`: `prefix`, `namespace`, the entries
/// of `namespaces`, `name`, the entries of `attributes` in their order, and
/// `children`. Together they are what the element holds. The attributes are
/// the entries of a map, so no name occurs twice among them; the namespaces
/// are the entries of a `BTreeMap` keyed by strings, so they come in the
/// strict order of their prefixes.
#[verifier::external_body]
fn element_parts<'a>(element: &'a xmltree::Element) -> (parts: ElementParts<'a>)
    ensures
        element_parts_content(parts) == xml_content(*element),
        well_formed_here(element_parts_content(parts)),
{
    ElementParts {
        prefix: &element.prefix,
        namespace: &element.namespace,
        namespaces: element.namespaces.as_ref().map(|n| n.0.iter().collect()),
        name: &element.name,
        attributes: element.attributes.iter().collect(),
        children: &element.children,
    }
}

/// The fields of the variant of an `xmltree::XMLNode`, one arm for each of
/// its five variants. They are what the node holds.
#[verifier::external_body]
fn node_parts<'a>(node: &'a xmltree::XMLNode) -> (parts: NodeParts<'a>)
    ensures
        node_parts_content(parts) == node_content(*node),
{
    match node {
        XMLNode::Element(e) => NodeParts::Inner(e),
        XMLNode::Comment(s) => NodeParts::Comment(s),
        XMLNode::CData(s) => NodeParts::CData(s),
        XMLNode::Text(s) => NodeParts::Text(s),
        XMLNode::ProcessingInstruction(n, d) => NodeParts::ProcessingInstruction(n, d),
    }
}

/// The `xmltree::Element` with these fields, the pairs of `namespaces`
/// gathered into an `xmltree::Namespace` and those of `attributes` into the
/// map of attributes. Where no name occurs twice among the attributes and
/// the namespaces stand in the strict order of their prefixes, the maps keep
/// every pair in its place, and the element holds what was put into it.
#[verifier::external_body]
fn make_element(
    prefix: Option<String>,
    namespace: Option<String>,
    namespaces: Option<Vec<(String, String)>>,
    name: String,
    attributes: Vec<(String, String)>,
    children: Vec<xmltree::XMLNode>,
) -> (element: xmltree::Element)
    requires
        distinct_keys(keys_of(attributes.deep_view())),
        namespaces.deep_view() matches Some(pairs) ==> strictly_ascending(keys_of(pairs)),
    ensures
        xml_content(element) == (OutlineView {
            prefix: prefix.deep_view(),
            namespace: namespace.deep_view(),
            namespaces: namespaces.deep_view(),
            name: name@,
            attributes: attributes.deep_view(),
            children: nodes_content(children@),
        }),
{
    xmltree::Element {
        prefix,
        namespace,
        namespaces: namespaces.map(|n| xmltree::Namespace(n.into_iter().collect())),
        name,
        attributes: attributes.into_iter().collect(),
        children,
    }
}

/// The `xmltree::XMLNode` of the variant that `parts` names, with its
/// fields. It holds what was put into it.
#[verifier::external_body]
fn make_node(parts: NodeToMake) -> (node: xmltree::XMLNode)
    ensures
        node_content(node) == node_to_make_content(parts),
{
    match parts {
        NodeToMake::Inner(e) => XMLNode::Element(e),
        NodeToMake::Comment(s) => XMLNode::Comment(s),
        NodeToMake::CData(s) => XMLNode::CData(s),
        NodeToMake::Text(s) => XMLNode::Text(s),
        NodeToMake::ProcessingInstruction(n, d) => XMLNode::ProcessingInstruction(n, d),
    }
}

/// A copy of a string that may be missing.
fn copy_option(text: &Option<String>) -> (copy: Option<String>)
    ensures
        copy.deep_view() == text.deep_view(),
{
    match text {
        Some(s) => Some(s.clone()),
        None => None,
    }
}

/// A copy of pairs of strings.
fn copy_pairs(pairs: &Vec<(String, String)>) -> (copy: Vec<(String, String)>)
    ensures
        copy.deep_view() == pairs.deep_view(),
{
    let mut copy: Vec<(String, String)> = Vec::new();
    let mut i: usize = 0;
    while i < pairs.len()
        invariant
            i <= pairs.len(),
            copy.deep_view() == pairs.deep_view().take(i as int),
        decreases pairs.len() - i,
    {
        let ghost before = copy.deep_view();
        copy.push((pairs[i].0.clone(), pairs[i].1.clone()));
        assert(copy.deep_view() =~= before.push((pairs[i as int].0@, pairs[i as int].1@)));
        assert(pairs.deep_view().take(i + 1) =~= pairs.deep_view().take(i as int).push(pairs.deep_view()[i as int]));
        i += 1;
    }
    assert(pairs.deep_view().take(pairs.len() as int) =~= pairs.deep_view());
    copy
}

/// A copy of pairs of strings that are held by reference.
fn copy_borrowed_pairs(pairs: &Vec<(&String, &String)>) -> (copy: Vec<(String, String)>)
    ensures
        copy.deep_view() == pairs.deep_view(),
{
    let mut copy: Vec<(String, String)> = Vec::new();
    let mut i: usize = 0;
    while i < pairs.len()
        invariant
            i <= pairs.len(),
            copy.deep_view() == pairs.deep_view().take(i as int),
        decreases pairs.len() - i,
    {
        let ghost before = copy.deep_view();
        copy.push((pairs[i].0.clone(), pairs[i].1.clone()));
        assert(copy.deep_view() =~= before.push((pairs[i as int].0@, pairs[i as int].1@)));
        assert(pairs.deep_view().take(i + 1) =~= pairs.deep_view().take(i as int).push(pairs.deep_view()[i as int]));
        i += 1;
    }
    assert(pairs.deep_view().take(pairs.len() as int) =~= pairs.deep_view());
    copy
}

/// Copies an `xmltree::Element` with all that is below it.
fn outline_from_xml(element: &xmltree::Element) -> (copy: Outline)
    ensures
        copy.deep_view() == xml_content(*element),
        well_formed(copy.deep_view()),
    decreases xml_content(*element),
{
    let parts = element_parts(element);
    let ghost content = xml_content(*element);
    let mut children: Vec<Child> = Vec::new();
    let mut i: usize = 0;
    while i < parts.children.len()
        invariant
            i <= parts.children.len(),
            children.len() == i,
            content == xml_content(*element),
            content.children == nodes_content(parts.children@),
            forall|j: int| 0 <= j < i ==> (#[trigger] children[j]).model() == content.children[j],
            forall|j: int| 0 <= j < i ==> child_well_formed(#[trigger] content.children[j]),
        decreases parts.children.len() - i,
    {
        assert(content.children[i as int] == node_content(parts.children[i as int]));
        assert(decreases_to!(xml_content(*element) => xml_content(*element).children[i as int]));
        let child = match node_parts(&parts.children[i]) {
            NodeParts::Inner(inner) => {
                assert(decreases_to!(xml_content(*element).children[i as int]
                    => xml_content(*element).children[i as int]->Outline_0));
                Child::Outline(outline_from_xml(inner))
            },
            NodeParts::Comment(s) => Child::Comment(s.clone()),
            NodeParts::CData(s) => Child::CData(s.clone()),
            NodeParts::Text(s) => Child::Text(s.clone()),
            NodeParts::ProcessingInstruction(name, data) => Child::ProcessingInstruction(
                name.clone(),
                copy_option(data),
            ),
        };
        children.push(child);
        i += 1;
    }
    let copy = Outline {
        prefix: copy_option(parts.prefix),
        namespace: copy_option(parts.namespace),
        namespaces: match &parts.namespaces {
            Some(pairs) => Some(copy_borrowed_pairs(pairs)),
            None => None,
        },
        name: parts.name.clone(),
        attributes: copy_borrowed_pairs(&parts.attributes),
        children,
    };
    assert(copy.deep_view().children =~= content.children);
    copy
}

/// Makes the `xmltree::Element` that holds what `outline` holds.
fn outline_to_xml(outline: &Outline) -> (copy: xmltree::Element)
    requires
        well_formed(outline.deep_view()),
    ensures
        xml_content(copy) == outline.deep_view(),
    decreases outline,
{
    let mut children: Vec<xmltree::XMLNode> = Vec::new();
    let mut i: usize = 0;
    while i < outline.children.len()
        invariant
            i <= outline.children.len(),
            children.len() == i,
            well_formed(outline.deep_view()),
            forall|j: int| 0 <= j < i ==> node_content(#[trigger] children[j]) == outline.children[j].model(),
        decreases outline.children.len() - i,
    {
        assert(child_well_formed(outline.deep_view().children[i as int]));
        let parts = match &outline.children[i] {
            Child::Outline(inner) => NodeToMake::Inner(outline_to_xml(inner)),
            Child::Comment(s) => NodeToMake::Comment(s.clone()),
            Child::CData(s) => NodeToMake::CData(s.clone()),
            Child::Text(s) => NodeToMake::Text(s.clone()),
            Child::ProcessingInstruction(name, data) => NodeToMake::ProcessingInstruction(
                name.clone(),
                copy_option(data),
            ),
        };
        children.push(make_node(parts));
        i += 1;
    }
    assert(nodes_content(children@) =~= outline.deep_view().children);
    make_element(
        copy_option(&outline.prefix),
        copy_option(&outline.namespace),
        match &outline.namespaces {
            Some(pairs) => Some(copy_pairs(pairs)),
            None => None,
        },
        outline.name.clone(),
        copy_pairs(&outline.attributes),
        children,
    )
}

/// The text of an `xmltree::ParseError`, as its `Display` gives it.
#[verifier::external_body]
fn parse_error_text(error: &xmltree::ParseError) -> (text: String) {
    error.to_string()
}

/// The text of an `xmltree::Error`, as its `Display` gives it.
#[verifier::external_body]
fn write_error_text(error: &xmltree::Error) -> (text: String) {
    error.to_string()
}

/// Whether no name occurs twice among `pairs`.
fn has_distinct_names(pairs: &Vec<(String, String)>) -> (distinct: bool)
    ensures
        distinct == distinct_keys(keys_of(pairs.deep_view())),
{
    let ghost keys = keys_of(pairs.deep_view());
    let n = pairs.len();
    let mut j: usize = 0;
    while j < n
        invariant
            j <= n,
            n == pairs.len(),
            keys == keys_of(pairs.deep_view()),
            forall|a: int, b: int| 0 <= a < b < j ==> #[trigger] keys[a] != #[trigger] keys[b],
        decreases n - j,
    {
        let mut i: usize = 0;
        while i < j
            invariant
                i <= j < n,
                n == pairs.len(),
                keys == keys_of(pairs.deep_view()),
                forall|a: int| 0 <= a < i ==> #[trigger] keys[a] != keys[j as int],
            decreases j - i,
        {
            assert(keys[i as int] == pairs[i as int].0@ && keys[j as int] == pairs[j as int].0@);
            if same_text(pairs[i].0.as_str(), pairs[j].0.as_str()) {
                return false;
            }
            i += 1;
        }
        j += 1;
    }
    true
}

/// Whether the names of `pairs` ascend strictly.
fn has_ascending_names(pairs: &Vec<(String, String)>) -> (ascending: bool)
    ensures
        ascending == strictly_ascending(keys_of(pairs.deep_view())),
{
    let ghost keys = keys_of(pairs.deep_view());
    let n = pairs.len();
    let mut j: usize = 1;
    while j < n
        invariant
            1 <= j,
            n == pairs.len(),
            keys == keys_of(pairs.deep_view()),
            forall|a: int, b: int| 0 <= a < b < j && b < n ==> name_lt(#[trigger] keys[a], #[trigger] keys[b]),
        decreases n - j,
    {
        assert(keys[j - 1] == pairs[j - 1].0@ && keys[j as int] == pairs[j as int].0@);
        match compare_names(pairs[j - 1].0.as_str(), pairs[j].0.as_str()) {
            NameOrder::Before => {
                assert forall|a: int| 0 <= a < j implies name_lt(#[trigger] keys[a], keys[j as int]) by {
                    if a < j - 1 {
                        lemma_name_lt_transitive(keys[a], keys[j - 1], keys[j as int]);
                    }
                }
            },
            _ => {
                return false;
            },
        }
        j += 1;
    }
    true
}

/// Whether every element of the tree is well formed.
pub fn is_well_formed(outline: &Outline) -> (ok: bool)
    ensures
        ok == well_formed(outline.deep_view()),
    decreases outline,
{
    let ghost tree = outline.deep_view();
    if !has_distinct_names(&outline.attributes) {
        return false;
    }
    match &outline.namespaces {
        Some(pairs) => {
            if !has_ascending_names(pairs) {
                return false;
            }
        },
        None => {},
    }
    let n = outline.children.len();
    let mut i: usize = 0;
    while i < n
        invariant
            i <= n,
            n == outline.children.len(),
            tree == outline.deep_view(),
            well_formed_here(tree),
            forall|j: int| 0 <= j < i ==> child_well_formed(#[trigger] tree.children[j]),
        decreases n - i,
    {
        assert(tree.children[i as int] == outline.children[i as int].model());
        match &outline.children[i] {
            Child::Outline(inner) => {
                if !is_well_formed(inner) {
                    return false;
                }
            },
            _ => {},
        }
        i += 1;
    }
    true
}

/// Reads an outline. What is read is a well-formed tree.
pub fn read_outline(text: &str) -> (r: Result<Outline, OutlineError>)
    ensures
        match parsed_outline(text@) {
            Some(tree) => r matches Ok(element) && element.deep_view() == tree && well_formed(tree),
            None => r matches Err(OutlineError::Parse(_)),
        },
{
    match xml_parse(text) {
        Ok(element) => Ok(outline_from_xml(&element)),
        Err(e) => Err(OutlineError::Parse(parse_error_text(&e))),
    }
}

/// What is said of a tree that is not well formed.
pub const NOT_WELL_FORMED: &'static str =
    "an attribute occurs twice in an element, or the namespaces of an element are out of order";

/// Writes an outline, indented. A tree that is not well formed is refused.
pub fn write_outline(element: &Outline) -> (r: Result<String, OutlineError>)
    ensures
        if !well_formed(element.deep_view()) {
            r matches Err(OutlineError::Write(said)) && said@ == NOT_WELL_FORMED@
        } else {
            match written_outline(element.deep_view()) {
                Some(text) => r matches Ok(written) && written@ == text,
                None => r matches Err(OutlineError::Write(_)),
            }
        },
{
    if !is_well_formed(element) {
        return Err(OutlineError::Write(String::from_str(NOT_WELL_FORMED)));
    }
    let copy = outline_to_xml(element);
    match xml_write(&copy) {
        Ok(text) => Ok(text),
        Err(e) => Err(OutlineError::Write(write_error_text(&e))),
    }
}

} // verus!
