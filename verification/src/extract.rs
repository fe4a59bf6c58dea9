//! Finding the sections of a meal plan in a document, and under each
//! section the dish blocks with what they hold.

use crate::dom::{
    attr, attr_value, document_nodes, nodes_of, optional, parse_document, strings, DomNode, Mark,
    Node,
};
use crate::text::{chars_of, string_of, trim, trimmed};
use vstd::prelude::*;
use vstd::string::*;

verus! {

/// What one dish block holds, not yet read.
#[derive(Debug, PartialEq, Eq)]
pub struct DishFragment {
    /// The text of the block's label; `None` where the block has none.
    pub raw_text: Option<String>,
    /// The titles of the block's icons, in document order.
    pub icon_titles: Vec<String>,
    /// The text of the first inline element that shows a price; `None`
    /// where no element does.
    pub price_span_text: Option<String>,
}

/// A dish block as plain values.
pub ghost struct Fragment {
    pub raw_text: Option<Seq<char>>,
    pub icon_titles: Seq<Seq<char>>,
    pub price_span_text: Option<Seq<char>>,
}

impl View for DishFragment {
    type V = Fragment;

    open spec fn view(&self) -> Fragment {
        Fragment {
            raw_text: optional(self.raw_text),
            icon_titles: strings(self.icon_titles@),
            price_span_text: optional(self.price_span_text),
        }
    }
}

/// One section of the page: its name and its dish blocks.
#[derive(Debug, PartialEq, Eq)]
pub struct Group {
    pub name: String,
    pub fragments: Vec<DishFragment>,
}

/// A section of the page as plain values.
pub ghost struct GroupView {
    pub name: Seq<char>,
    pub fragments: Seq<Fragment>,
}

/// The fragments held by a list of dish blocks.
pub open spec fn fragments_of(v: Seq<DishFragment>) -> Seq<Fragment> {
    v.map_values(|f: DishFragment| f@)
}

impl View for Group {
    type V = GroupView;

    open spec fn view(&self) -> GroupView {
        GroupView { name: self.name@, fragments: fragments_of(self.fragments@) }
    }
}

/// The groups held by a list of sections.
pub open spec fn groups_of(v: Seq<Group>) -> Seq<GroupView> {
    v.map_values(|g: Group| g@)
}

/// First index at or after `j` whose node is not deeper than `depth`, or
/// the length.
pub open spec fn deeper_end(nodes: Seq<Node>, depth: nat, j: int) -> int
    decreases nodes.len() - j,
{
    if 0 <= j < nodes.len() && nodes[j].depth > depth {
        deeper_end(nodes, depth, j + 1)
    } else {
        j
    }
}

/// Index right after the last descendant of node `i`.
pub open spec fn subtree_end(nodes: Seq<Node>, i: int) -> int {
    deeper_end(nodes, nodes[i].depth, i + 1)
}

/// The texts of the text nodes among `nodes[lo..hi]`, joined in order.
pub open spec fn text_between(nodes: Seq<Node>, lo: int, hi: int) -> Seq<char>
    decreases hi - lo,
{
    if lo >= hi {
        Seq::empty()
    } else {
        text_between(nodes, lo, hi - 1) + match nodes[hi - 1].text {
            Some(t) => t,
            None => Seq::empty(),
        }
    }
}

/// The text content of node `i`: the texts of its descendants, joined.
pub open spec fn text_content(nodes: Seq<Node>, i: int) -> Seq<char> {
    text_between(nodes, i + 1, subtree_end(nodes, i))
}

/// Index of the first node among `nodes[lo..hi]` that bears `mark`.
pub open spec fn first_marked(nodes: Seq<Node>, mark: Mark, lo: int, hi: int) -> Option<int>
    decreases hi - lo,
{
    if lo < 0 || lo >= hi || lo >= nodes.len() {
        None
    } else if mark.fits(nodes[lo]) {
        Some(lo)
    } else {
        first_marked(nodes, mark, lo + 1, hi)
    }
}

/// The `title` of every icon among `nodes[lo..hi]` that has one, in order.
pub open spec fn titles_between(nodes: Seq<Node>, lo: int, hi: int) -> Seq<Seq<char>>
    decreases hi - lo,
{
    if lo >= hi {
        Seq::empty()
    } else {
        let before = titles_between(nodes, lo, hi - 1);
        match attr_value(nodes[hi - 1], "title"@) {
            Some(t) => if Mark::Icon.fits(nodes[hi - 1]) {
                before.push(t)
            } else {
                before
            },
            None => before,
        }
    }
}

/// The text content of the first inline element among `nodes[lo..hi]`
/// whose text content holds the currency symbol.
pub open spec fn price_text_between(nodes: Seq<Node>, lo: int, hi: int) -> Option<Seq<char>>
    decreases hi - lo,
{
    if lo < 0 || lo >= hi || lo >= nodes.len() {
        None
    } else if Mark::Inline.fits(nodes[lo]) && text_content(nodes, lo).contains('€') {
        Some(text_content(nodes, lo))
    } else {
        price_text_between(nodes, lo + 1, hi)
    }
}

/// What the dish block at index `i` holds.
pub open spec fn fragment_at(nodes: Seq<Node>, i: int) -> Fragment {
    let end = subtree_end(nodes, i);
    Fragment {
        raw_text: match first_marked(nodes, Mark::LabelBox, i + 1, end) {
            Some(k) => Some(text_content(nodes, k)),
            None => None,
        },
        icon_titles: titles_between(nodes, i + 1, end),
        price_span_text: price_text_between(nodes, i + 1, end),
    }
}

/// The dish blocks among the siblings found from index `j` on, where the
/// siblings are the nodes of depth `depth`: deeper nodes are passed over,
/// and the walk ends at a node less deep, and at a sibling that is a
/// section head.
pub open spec fn dishes_from(nodes: Seq<Node>, depth: nat, j: int) -> Seq<Fragment>
    decreases nodes.len() - j,
{
    if j < 0 || j >= nodes.len() || nodes[j].depth < depth {
        Seq::empty()
    } else if nodes[j].depth > depth {
        dishes_from(nodes, depth, j + 1)
    } else if Mark::Header.fits(nodes[j]) {
        Seq::empty()
    } else if Mark::Dish.fits(nodes[j]) {
        seq![fragment_at(nodes, j)] + dishes_from(nodes, depth, j + 1)
    } else {
        dishes_from(nodes, depth, j + 1)
    }
}

/// The name of the section whose head is node `i`: the trimmed text
/// content of the first name element inside the head, and the empty text
/// where the head has none.
pub open spec fn section_name(nodes: Seq<Node>, i: int) -> Seq<char> {
    match first_marked(nodes, Mark::GroupName, i + 1, subtree_end(nodes, i)) {
        Some(k) => trimmed(text_content(nodes, k)),
        None => Seq::empty(),
    }
}

/// The section whose head is node `i`.
pub open spec fn group_at(nodes: Seq<Node>, i: int) -> GroupView {
    GroupView {
        name: section_name(nodes, i),
        fragments: dishes_from(nodes, nodes[i].depth, i + 1),
    }
}

/// The sections whose heads are among the first `n` nodes, in document
/// order.
pub open spec fn groups_upto(nodes: Seq<Node>, n: int) -> Seq<GroupView>
    decreases n,
{
    if n <= 0 {
        Seq::empty()
    } else {
        let before = groups_upto(nodes, n - 1);
        if Mark::Header.fits(nodes[n - 1]) {
            before.push(group_at(nodes, n - 1))
        } else {
            before
        }
    }
}

/// The sections of a document: one for every section head, in document
/// order, with the dish blocks that follow the head as its siblings.
pub open spec fn groups(nodes: Seq<Node>) -> Seq<GroupView> {
    groups_upto(nodes, nodes.len() as int)
}

/// Finds the index right after the last descendant of node `i`.
pub fn end_of_subtree(nodes: &Vec<DomNode>, i: usize) -> (end: usize)
    requires
        i < nodes.len(),
    ensures
        end == subtree_end(nodes_of(nodes@), i as int),
        i < end <= nodes.len(),
{
    let depth = nodes[i].depth;
    let mut j: usize = i + 1;
    while j < nodes.len() && nodes[j].depth > depth
        invariant
            i < j <= nodes.len(),
            depth == nodes_of(nodes@)[i as int].depth,
            subtree_end(nodes_of(nodes@), i as int) == deeper_end(
                nodes_of(nodes@),
                depth as nat,
                j as int,
            ),
        decreases nodes.len() - j,
    {
        j += 1;
    }
    j
}

/// Joins the texts of the text nodes among `nodes[lo..hi]`.
pub fn join_text(nodes: &Vec<DomNode>, lo: usize, hi: usize) -> (s: String)
    requires
        hi <= nodes.len(),
    ensures
        s@ == text_between(nodes_of(nodes@), lo as int, hi as int),
{
    let mut s = String::new();
    if lo >= hi {
        return s;
    }
    let mut j: usize = lo;
    while j < hi
        invariant
            lo <= j <= hi <= nodes.len(),
            s@ == text_between(nodes_of(nodes@), lo as int, j as int),
        decreases hi - j,
    {
        match &nodes[j].text {
            Some(t) => {
                s.append(t.as_str());
            },
            None => {},
        }
        j += 1;
    }
    s
}

/// Gives the text content of node `i`.
pub fn content(nodes: &Vec<DomNode>, i: usize) -> (s: String)
    requires
        i < nodes.len(),
    ensures
        s@ == text_content(nodes_of(nodes@), i as int),
{
    let end = end_of_subtree(nodes, i);
    join_text(nodes, i + 1, end)
}

/// Finds the first node among `nodes[lo..hi]` that bears `mark`.
pub fn find_marked(nodes: &Vec<DomNode>, mark: Mark, lo: usize, hi: usize) -> (r: Option<usize>)
    requires
        hi <= nodes.len(),
    ensures
        match r {
            Some(k) => first_marked(nodes_of(nodes@), mark, lo as int, hi as int) == Some(k as int)
                && lo <= k < hi,
            None => first_marked(nodes_of(nodes@), mark, lo as int, hi as int).is_none(),
        },
{
    let mut j: usize = lo;
    while j < hi
        invariant
            lo <= j,
            hi <= nodes.len(),
            first_marked(nodes_of(nodes@), mark, lo as int, hi as int) == first_marked(
                nodes_of(nodes@),
                mark,
                j as int,
                hi as int,
            ),
        decreases hi - j,
    {
        if mark.test(&nodes[j]) {
            return Some(j);
        }
        j += 1;
    }
    None
}

/// Collects the titles of the icons among `nodes[lo..hi]`.
pub fn icon_titles(nodes: &Vec<DomNode>, lo: usize, hi: usize) -> (r: Vec<String>)
    requires
        hi <= nodes.len(),
    ensures
        strings(r@) == titles_between(nodes_of(nodes@), lo as int, hi as int),
{
    let mut r: Vec<String> = Vec::new();
    if lo >= hi {
        return r;
    }
    let mut j: usize = lo;
    while j < hi
        invariant
            lo <= j <= hi <= nodes.len(),
            strings(r@) == titles_between(nodes_of(nodes@), lo as int, j as int),
        decreases hi - j,
    {
        if Mark::Icon.test(&nodes[j]) {
            match attr(&nodes[j], "title") {
                Some(t) => {
                    let ghost before = strings(r@);
                    r.push(t.clone());
                    assert(strings(r@) == before.push(t@));
                },
                None => {},
            }
        }
        j += 1;
    }
    r
}

/// Tests whether a text holds the character `c`.
pub fn has_char(s: &str, c: char) -> (r: bool)
    ensures
        r == s@.contains(c),
{
    let v = chars_of(s);
    let mut i: usize = 0;
    while i < v.len()
        invariant
            i <= v.len(),
            v@ == s@,
            forall|k: int| 0 <= k < i ==> v@[k] != c,
        decreases v.len() - i,
    {
        if v[i] == c {
            return true;
        }
        i += 1;
    }
    false
}

/// Finds the text of the first inline element among `nodes[lo..hi]` that
/// shows a price.
pub fn price_text(nodes: &Vec<DomNode>, lo: usize, hi: usize) -> (r: Option<String>)
    requires
        hi <= nodes.len(),
    ensures
        optional(r) == price_text_between(nodes_of(nodes@), lo as int, hi as int),
{
    let mut j: usize = lo;
    while j < hi
        invariant
            lo <= j,
            hi <= nodes.len(),
            price_text_between(nodes_of(nodes@), lo as int, hi as int) == price_text_between(
                nodes_of(nodes@),
                j as int,
                hi as int,
            ),
        decreases hi - j,
    {
        if Mark::Inline.test(&nodes[j]) {
            let text = content(nodes, j);
            if has_char(text.as_str(), '€') {
                return Some(text);
            }
        }
        j += 1;
    }
    None
}

/// Gathers what the dish block at index `i` holds.
pub fn fragment(nodes: &Vec<DomNode>, i: usize) -> (f: DishFragment)
    requires
        i < nodes.len(),
    ensures
        f@ == fragment_at(nodes_of(nodes@), i as int),
{
    let end = end_of_subtree(nodes, i);
    let raw_text = match find_marked(nodes, Mark::LabelBox, i + 1, end) {
        Some(k) => Some(content(nodes, k)),
        None => None,
    };
    DishFragment {
        raw_text,
        icon_titles: icon_titles(nodes, i + 1, end),
        price_span_text: price_text(nodes, i + 1, end),
    }
}

/// Gathers the dish blocks among the siblings that follow node `i`.
pub fn dishes_after(nodes: &Vec<DomNode>, i: usize) -> (r: Vec<DishFragment>)
    requires
        i < nodes.len(),
    ensures
        fragments_of(r@) == dishes_from(
            nodes_of(nodes@),
            nodes_of(nodes@)[i as int].depth,
            i + 1,
        ),
{
    let depth = nodes[i].depth;
    let mut r: Vec<DishFragment> = Vec::new();
    let mut j: usize = i + 1;
    while j < nodes.len() && nodes[j].depth >= depth
        invariant
            i < j <= nodes.len(),
            depth == nodes_of(nodes@)[i as int].depth,
            dishes_from(nodes_of(nodes@), depth as nat, i + 1) == fragments_of(r@) + dishes_from(
                nodes_of(nodes@),
                depth as nat,
                j as int,
            ),
        decreases nodes.len() - j,
    {
        if nodes[j].depth == depth {
            if Mark::Header.test(&nodes[j]) {
                return r;
            }
            if Mark::Dish.test(&nodes[j]) {
                let f = fragment(nodes, j);
                let ghost before = fragments_of(r@);
                let ghost rest = dishes_from(nodes_of(nodes@), depth as nat, j + 1);
                r.push(f);
                assert(fragments_of(r@) == before.push(f@));
                assert(before.push(f@) + rest == before + (seq![f@] + rest));
            }
        }
        j += 1;
    }
    r
}

/// Gives the name of the section whose head is node `i`.
pub fn name_of(nodes: &Vec<DomNode>, i: usize) -> (s: String)
    requires
        i < nodes.len(),
    ensures
        s@ == section_name(nodes_of(nodes@), i as int),
{
    let end = end_of_subtree(nodes, i);
    match find_marked(nodes, Mark::GroupName, i + 1, end) {
        Some(k) => {
            let text = content(nodes, k);
            string_of(&trim(&chars_of(text.as_str())))
        },
        None => String::new(),
    }
}

/// Finds the sections of a document given as the list of its nodes.
pub fn extract_groups(nodes: &Vec<DomNode>) -> (r: Vec<Group>)
    ensures
        groups_of(r@) == groups(nodes_of(nodes@)),
{
    let mut r: Vec<Group> = Vec::new();
    let mut i: usize = 0;
    while i < nodes.len()
        invariant
            i <= nodes.len(),
            groups_of(r@) == groups_upto(nodes_of(nodes@), i as int),
        decreases nodes.len() - i,
    {
        if Mark::Header.test(&nodes[i]) {
            let g = Group { name: name_of(nodes, i), fragments: dishes_after(nodes, i) };
            let ghost before = groups_of(r@);
            r.push(g);
            assert(groups_of(r@) == before.push(g@));
        }
        i += 1;
    }
    r
}

/// Finds the sections of a page and, under each, its dish blocks with
/// what they hold: the sections of the document that the HTML parser
/// builds from `html`.
pub fn extract(html: &str) -> (r: Vec<Group>)
    ensures
        groups_of(r@) == groups(document_nodes(html@)),
{
    let nodes = parse_document(html);
    extract_groups(&nodes)
}

/// The indices of the section heads among the first `n` nodes, in
/// rising order.
pub open spec fn heads_upto(nodes: Seq<Node>, n: int) -> Seq<int>
    decreases n,
{
    if n <= 0 {
        Seq::empty()
    } else {
        let before = heads_upto(nodes, n - 1);
        if Mark::Header.fits(nodes[n - 1]) {
            before.push(n - 1)
        } else {
            before
        }
    }
}

/// The sections come in document order: there is one for every section
/// head, and a head that stands later in the document gives a later
/// section.
pub proof fn lemma_sections_in_document_order(nodes: Seq<Node>, n: int)
    requires
        0 <= n <= nodes.len(),
    ensures
        groups_upto(nodes, n).len() == heads_upto(nodes, n).len(),
        forall|k: int|
            0 <= k < heads_upto(nodes, n).len() ==> {
                let i = #[trigger] heads_upto(nodes, n)[k];
                &&& 0 <= i < n
                &&& Mark::Header.fits(nodes[i])
                &&& groups_upto(nodes, n)[k] == group_at(nodes, i)
            },
        forall|j: int, k: int|
            0 <= j < k < heads_upto(nodes, n).len() ==> heads_upto(nodes, n)[j] < heads_upto(
                nodes,
                n,
            )[k],
        forall|i: int|
            0 <= i < n && Mark::Header.fits(#[trigger] nodes[i]) ==> heads_upto(nodes, n).contains(
                i,
            ),
    decreases n,
{
    if n > 0 {
        lemma_sections_in_document_order(nodes, n - 1);
        let before = heads_upto(nodes, n - 1);
        let now = heads_upto(nodes, n);
        assert forall|i: int| 0 <= i < n && Mark::Header.fits(#[trigger] nodes[i]) implies now.contains(
            i,
        ) by {
            if i < n - 1 {
                let k = choose|k: int| 0 <= k < before.len() && before[k] == i;
                assert(now[k] == i);
            } else {
                assert(now[now.len() - 1] == i);
            }
        }
    }
}

/// The indices of the dish blocks among the siblings found from index
/// `j` on, in rising order.
pub open spec fn dish_places_from(nodes: Seq<Node>, depth: nat, j: int) -> Seq<int>
    decreases nodes.len() - j,
{
    if j < 0 || j >= nodes.len() || nodes[j].depth < depth {
        Seq::empty()
    } else if nodes[j].depth > depth {
        dish_places_from(nodes, depth, j + 1)
    } else if Mark::Header.fits(nodes[j]) {
        Seq::empty()
    } else if Mark::Dish.fits(nodes[j]) {
        seq![j] + dish_places_from(nodes, depth, j + 1)
    } else {
        dish_places_from(nodes, depth, j + 1)
    }
}

/// The dish blocks of a section come in document order: each is a dish
/// block among the siblings, no section head stands between the start
/// and it, and a block that stands later in the document comes later.
pub proof fn lemma_dishes_in_document_order(nodes: Seq<Node>, depth: nat, j: int)
    requires
        0 <= j,
    ensures
        dishes_from(nodes, depth, j).len() == dish_places_from(nodes, depth, j).len(),
        forall|k: int|
            0 <= k < dish_places_from(nodes, depth, j).len() ==> {
                let i = #[trigger] dish_places_from(nodes, depth, j)[k];
                &&& j <= i < nodes.len()
                &&& nodes[i].depth == depth
                &&& Mark::Dish.fits(nodes[i])
                &&& dishes_from(nodes, depth, j)[k] == fragment_at(nodes, i)
                &&& forall|m: int|
                    j <= m <= i ==> nodes[m].depth >= depth && !(nodes[m].depth == depth
                        && Mark::Header.fits(nodes[m]))
            },
        forall|a: int, b: int|
            0 <= a < b < dish_places_from(nodes, depth, j).len() ==> dish_places_from(
                nodes,
                depth,
                j,
            )[a] < dish_places_from(nodes, depth, j)[b],
    decreases nodes.len() - j,
{
    if j >= nodes.len() || nodes[j].depth < depth {
    } else if nodes[j].depth > depth {
        lemma_dishes_in_document_order(nodes, depth, j + 1);
    } else if Mark::Header.fits(nodes[j]) {
    } else {
        lemma_dishes_in_document_order(nodes, depth, j + 1);
        let rest = dish_places_from(nodes, depth, j + 1);
        let now = dish_places_from(nodes, depth, j);
        if Mark::Dish.fits(nodes[j]) {
            assert forall|k: int| 0 <= k < now.len() implies {
                let i = #[trigger] now[k];
                &&& j <= i < nodes.len()
                &&& nodes[i].depth == depth
                &&& Mark::Dish.fits(nodes[i])
                &&& dishes_from(nodes, depth, j)[k] == fragment_at(nodes, i)
                &&& forall|m: int|
                    j <= m <= i ==> nodes[m].depth >= depth && !(nodes[m].depth == depth
                        && Mark::Header.fits(nodes[m]))
            } by {
                if k > 0 {
                    assert(now[k] == rest[k - 1]);
                }
            }
            assert forall|a: int, b: int| 0 <= a < b < now.len() implies now[a] < now[b] by {
                assert(now[b] == rest[b - 1]);
                if a > 0 {
                    assert(now[a] == rest[a - 1]);
                }
            }
        }
    }
}

} // verus!
