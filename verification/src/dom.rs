//! A parsed document as a flat list of its nodes in document order, and
//! the structural signatures that the meal plan's markup is told by.

use crate::text::{chars_of, find, find_from};
use vstd::prelude::*;
use vstd::string::*;

verus! {

/// One node of a parsed document.
#[derive(Debug, PartialEq, Eq)]
pub struct DomNode {
    /// Number of ancestors.
    pub depth: usize,
    /// The element's name; `None` where the node is no element.
    pub tag: Option<String>,
    /// The element's classes.
    pub classes: Vec<String>,
    /// The element's attributes, each with its value.
    pub attrs: Vec<(String, String)>,
    /// The text of a text node; `None` for any other node.
    pub text: Option<String>,
}

/// A node as plain values.
pub ghost struct Node {
    pub depth: nat,
    pub tag: Option<Seq<char>>,
    pub classes: Seq<Seq<char>>,
    pub attrs: Seq<(Seq<char>, Seq<char>)>,
    pub text: Option<Seq<char>>,
}

/// The texts held by a list of strings.
pub open spec fn strings(v: Seq<String>) -> Seq<Seq<char>> {
    v.map_values(|s: String| s@)
}

/// The text held by an optional string.
pub open spec fn optional(s: Option<String>) -> Option<Seq<char>> {
    match s {
        Some(t) => Some(t@),
        None => None,
    }
}

impl View for DomNode {
    type V = Node;

    open spec fn view(&self) -> Node {
        Node {
            depth: self.depth as nat,
            tag: optional(self.tag),
            classes: strings(self.classes@),
            attrs: self.attrs@.map_values(|a: (String, String)| (a.0@, a.1@)),
            text: optional(self.text),
        }
    }
}

/// The nodes held by a list of document nodes.
pub open spec fn nodes_of(v: Seq<DomNode>) -> Seq<Node> {
    v.map_values(|n: DomNode| n@)
}

/// The nodes of the document that the HTML parser builds from a text, in
/// document order: each node before its children, siblings left to right.
pub uninterp spec fn document_nodes(html: Seq<char>) -> Seq<Node>;

/// Parses `html` with `scraper::Html::parse_document` and lists the nodes
/// of the tree it built as `descendants()` of the root walks them: every
/// node with the number of its `ancestors()`, an element with its
/// `name()`, `classes()` and `attrs()`, a text node with its text. The
/// parser never fails; the contract only names what it built.
#[verifier::external_body]
pub(crate) fn parse_document(html: &str) -> (nodes: Vec<DomNode>)
    ensures
        nodes_of(nodes@) == document_nodes(html@),
{
    let doc = scraper::Html::parse_document(html);
    let walk = doc.tree.root().descendants();
    walk.map(|n| {
        let e = n.value().as_element();
        let attrs = e.into_iter().flat_map(|e| e.attrs());
        DomNode {
            depth: n.ancestors().count(),
            tag: e.map(|e| e.name().to_string()),
            classes: e.into_iter().flat_map(|e| e.classes()).map(String::from).collect(),
            attrs: attrs.map(|(k, v)| (k.to_string(), v.to_string())).collect(),
            text: n.value().as_text().map(|t| t.to_string()),
        }
    }).collect()
}

/// The signatures that nodes are tested for.
#[derive(Clone, Copy, PartialEq, Eq, Debug)]
pub enum Mark {
    /// The head of a section: a `div` of class `gruppenkopf`.
    Header,
    /// The element that holds a section's name: a `div` of class
    /// `gruppenname`.
    GroupName,
    /// A dish block: an element of class `splMeal`, however the class is
    /// capitalised.
    Dish,
    /// The element that holds a dish's label: a `div` whose `style` has
    /// `width:92%` in it.
    LabelBox,
    /// An icon: an `img`.
    Icon,
    /// An inline element: a `span`.
    Inline,
}

/// The code of `c` with the ASCII capitals mapped to their small letters.
pub open spec fn folded(c: char) -> u32 {
    if 'A' <= c && c <= 'Z' {
        (c as u32 + 32) as u32
    } else {
        c as u32
    }
}

/// Whether two texts are equal but for the case of their ASCII letters.
pub open spec fn same_ignoring_case(a: Seq<char>, b: Seq<char>) -> bool {
    a.len() == b.len() && forall|i: int| 0 <= i < a.len() ==> folded(a[i]) == folded(b[i])
}

/// Whether one of the classes is `class`, however it is capitalised.
pub open spec fn has_class_ignoring_case(n: Node, class: Seq<char>) -> bool {
    exists|i: int| 0 <= i < n.classes.len() && same_ignoring_case(#[trigger] n.classes[i], class)
}

/// Whether `pat` occurs somewhere in `s`.
pub open spec fn holds(s: Seq<char>, pat: Seq<char>) -> bool {
    find_from(s, pat, 0) is Some
}

/// Whether the node has an attribute `name` whose value has `pat` in it.
pub open spec fn attr_holds(n: Node, name: Seq<char>, pat: Seq<char>) -> bool {
    exists|i: int|
        0 <= i < n.attrs.len() && (#[trigger] n.attrs[i]).0 == name && holds(n.attrs[i].1, pat)
}

/// The value of the first attribute called `name` among `attrs[from..]`.
pub open spec fn attr_from(
    attrs: Seq<(Seq<char>, Seq<char>)>,
    name: Seq<char>,
    from: int,
) -> Option<Seq<char>>
    decreases attrs.len() - from,
{
    if from < 0 || from >= attrs.len() {
        None
    } else if attrs[from].0 == name {
        Some(attrs[from].1)
    } else {
        attr_from(attrs, name, from + 1)
    }
}

/// The value of the node's attribute `name`.
pub open spec fn attr_value(n: Node, name: Seq<char>) -> Option<Seq<char>> {
    attr_from(n.attrs, name, 0)
}

impl Mark {
    /// Whether a node bears the signature.
    pub open spec fn fits(self, n: Node) -> bool {
        match self {
            Mark::Header => n.tag == Some("div"@) && n.classes.contains("gruppenkopf"@),
            Mark::GroupName => n.tag == Some("div"@) && n.classes.contains("gruppenname"@),
            Mark::Dish => n.tag is Some && has_class_ignoring_case(n, "splMeal"@),
            Mark::LabelBox => n.tag == Some("div"@) && attr_holds(n, "style"@, "width:92%"@),
            Mark::Icon => n.tag == Some("img"@),
            Mark::Inline => n.tag == Some("span"@),
        }
    }
}

/// Tests whether a string holds exactly the given text.
pub fn is_text(s: &String, text: &str) -> (r: bool)
    ensures
        r == (s@ == text@),
{
    let other = String::from_str(text);
    *s == other
}

/// Tests whether the element is called `name`.
pub fn is_tag(n: &DomNode, name: &str) -> (r: bool)
    ensures
        r == (n@.tag == Some(name@)),
{
    match &n.tag {
        Some(t) => is_text(t, name),
        None => false,
    }
}

/// Tests whether one of the strings holds exactly the given text.
pub fn has_text(list: &Vec<String>, text: &str) -> (r: bool)
    ensures
        r == strings(list@).contains(text@),
{
    let mut i: usize = 0;
    while i < list.len()
        invariant
            i <= list.len(),
            forall|k: int| 0 <= k < i ==> strings(list@)[k] != text@,
        decreases list.len() - i,
    {
        if is_text(&list[i], text) {
            assert(strings(list@)[i as int] == text@);
            return true;
        }
        i += 1;
    }
    false
}

/// The code of `c` with the ASCII capitals mapped to their small letters.
pub fn fold_case(c: char) -> (r: u32)
    ensures
        r == folded(c),
{
    if 'A' <= c && c <= 'Z' {
        c as u32 + 32
    } else {
        c as u32
    }
}

/// Compares two texts without regard to the case of their ASCII letters.
pub fn eq_ignoring_case(a: &Vec<char>, b: &Vec<char>) -> (r: bool)
    ensures
        r == same_ignoring_case(a@, b@),
{
    if a.len() != b.len() {
        return false;
    }
    let mut i: usize = 0;
    while i < a.len()
        invariant
            i <= a.len(),
            a.len() == b.len(),
            forall|k: int| 0 <= k < i ==> folded(a[k]) == folded(b[k]),
        decreases a.len() - i,
    {
        if fold_case(a[i]) != fold_case(b[i]) {
            return false;
        }
        i += 1;
    }
    true
}

/// Tests whether one of the node's classes is `class`, however it is
/// capitalised.
pub fn has_class_any_case(n: &DomNode, class: &str) -> (r: bool)
    ensures
        r == has_class_ignoring_case(n@, class@),
{
    let wanted = chars_of(class);
    let mut i: usize = 0;
    while i < n.classes.len()
        invariant
            i <= n.classes.len(),
            wanted@ == class@,
            forall|k: int| 0 <= k < i ==> !same_ignoring_case(#[trigger] n@.classes[k], class@),
        decreases n.classes.len() - i,
    {
        let have = chars_of(n.classes[i].as_str());
        assert(n@.classes[i as int] == have@);
        if eq_ignoring_case(&have, &wanted) {
            return true;
        }
        i += 1;
    }
    false
}

/// Tests whether the node has an attribute `name` whose value has `pat`
/// in it.
pub fn attr_contains(n: &DomNode, name: &str, pat: &str) -> (r: bool)
    ensures
        r == attr_holds(n@, name@, pat@),
{
    let wanted = chars_of(pat);
    let mut i: usize = 0;
    while i < n.attrs.len()
        invariant
            i <= n.attrs.len(),
            wanted@ == pat@,
            forall|k: int|
                0 <= k < i ==> !((#[trigger] n@.attrs[k]).0 == name@ && holds(n@.attrs[k].1, pat@)),
        decreases n.attrs.len() - i,
    {
        assert(n@.attrs[i as int] == (n.attrs[i as int].0@, n.attrs[i as int].1@));
        if is_text(&n.attrs[i].0, name) {
            let value = chars_of(n.attrs[i].1.as_str());
            if find(&value, &wanted, 0).is_some() {
                return true;
            }
        }
        i += 1;
    }
    false
}

/// Gives the value of the node's first attribute called `name`.
pub fn attr<'a>(n: &'a DomNode, name: &str) -> (r: Option<&'a String>)
    ensures
        match r {
            Some(v) => attr_value(n@, name@) == Some(v@),
            None => attr_value(n@, name@).is_none(),
        },
{
    let mut i: usize = 0;
    while i < n.attrs.len()
        invariant
            i <= n.attrs.len(),
            attr_value(n@, name@) == attr_from(n@.attrs, name@, i as int),
        decreases n.attrs.len() - i,
    {
        assert(n@.attrs[i as int] == (n.attrs[i as int].0@, n.attrs[i as int].1@));
        if is_text(&n.attrs[i].0, name) {
            return Some(&n.attrs[i].1);
        }
        i += 1;
    }
    None
}

impl Mark {
    /// Tests whether a node bears the signature.
    pub fn test(&self, n: &DomNode) -> (r: bool)
        ensures
            r == self.fits(n@),
    {
        match self {
            Mark::Header => is_tag(n, "div") && has_text(&n.classes, "gruppenkopf"),
            Mark::GroupName => is_tag(n, "div") && has_text(&n.classes, "gruppenname"),
            Mark::Dish => n.tag.is_some() && has_class_any_case(n, "splMeal"),
            Mark::LabelBox => is_tag(n, "div") && attr_contains(n, "style", "width:92%"),
            Mark::Icon => is_tag(n, "img"),
            Mark::Inline => is_tag(n, "span"),
        }
    }
}

} // verus!
