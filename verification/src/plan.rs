//! Putting the plan together: every dish block is read, the dishes that
//! read well are kept under their section.

use crate::dom::{document_nodes, nodes_of, parse_document, strings, DomNode};
use crate::extract::{
    extract_groups, fragments_of, groups, groups_of, DishFragment, Fragment, Group, GroupView,
};
use crate::label::{parse_label, Patterns};
use crate::model::{
    dishes_view, Dish, DishView, Mealplan, ParseError, Prices, PricesView, Section, SectionView,
};
use crate::prices::{extract_prices, parse_prices};
use vstd::prelude::*;

verus! {

/// The texts of `s`, each kept where it first occurs.
pub open spec fn distinct(s: Seq<Seq<char>>) -> Seq<Seq<char>>
    decreases s.len(),
{
    if s.len() == 0 {
        Seq::empty()
    } else {
        let before = distinct(s.drop_last());
        if before.contains(s.last()) {
            before
        } else {
            before.push(s.last())
        }
    }
}

/// The prices of a dish block: those its price text gives, and zero
/// where it shows no price at all.
pub open spec fn prices_of(text: Option<Seq<char>>) -> Result<PricesView, ParseError> {
    match text {
        None => Ok(Prices::free()),
        Some(t) => parse_prices(t),
    }
}

/// The dish that a dish block describes. A block without a label is
/// malformed; else the label is read first and decides the error, then
/// the prices.
pub open spec fn dish_of(f: Fragment) -> Result<DishView, ParseError> {
    match f.raw_text {
        None => Err(ParseError::MalformedInput),
        Some(raw) => match parse_label(raw) {
            Err(e) => Err(e),
            Ok(label) => match prices_of(f.price_span_text) {
                Err(e) => Err(e),
                Ok(prices) => Ok(
                    DishView {
                        name: label.name,
                        co2: label.co2_grams,
                        dietary_info: distinct(f.icon_titles),
                        prices,
                        nutrition: label.nutrition,
                    },
                ),
            },
        },
    }
}

/// The dishes that the blocks describe, in order; a block that describes
/// none is left out.
pub open spec fn dishes_of(fs: Seq<Fragment>) -> Seq<DishView>
    decreases fs.len(),
{
    if fs.len() == 0 {
        Seq::empty()
    } else {
        let before = dishes_of(fs.drop_last());
        match dish_of(fs.last()) {
            Ok(d) => before.push(d),
            Err(_) => before,
        }
    }
}

/// The section that a group of dish blocks becomes.
pub open spec fn section_of(g: GroupView) -> SectionView {
    SectionView { name: g.name, dishes: dishes_of(g.fragments) }
}

/// The plan that the groups become: one section for every group, in
/// order, whether or not any of its dishes is kept.
pub open spec fn plan_of(gs: Seq<GroupView>) -> Seq<SectionView> {
    gs.map_values(|g: GroupView| section_of(g))
}

/// The distinct texts are the same texts, none of them twice.
pub proof fn lemma_distinct(s: Seq<Seq<char>>)
    ensures
        distinct(s).no_duplicates(),
        distinct(s).to_set() == s.to_set(),
    decreases s.len(),
{
    if s.len() == 0 {
        assert(distinct(s).to_set() =~= s.to_set());
    } else {
        let before = s.drop_last();
        lemma_distinct(before);
        let d = distinct(before);
        assert forall|x: Seq<char>| s.to_set().contains(x) <==> distinct(s).to_set().contains(
            x,
        ) by {
            if s.contains(x) {
                let i = choose|i: int| 0 <= i < s.len() && s[i] == x;
                if i < s.len() - 1 {
                    assert(before[i] == x);
                    assert(before.to_set().contains(x));
                    assert(d.contains(x));
                    let k = choose|k: int| 0 <= k < d.len() && d[k] == x;
                    assert(distinct(s)[k] == x);
                } else {
                    if d.contains(x) {
                    } else {
                        assert(distinct(s)[d.len() as int] == x);
                    }
                }
            }
            if distinct(s).contains(x) {
                let k = choose|k: int| 0 <= k < distinct(s).len() && distinct(s)[k] == x;
                if k < d.len() {
                    assert(d[k] == x);
                    assert(d.to_set().contains(x));
                    assert(before.contains(x));
                    let i = choose|i: int| 0 <= i < before.len() && before[i] == x;
                    assert(s[i] == x);
                } else {
                    assert(s[s.len() - 1] == x);
                }
            }
        }
        assert(distinct(s).to_set() =~= s.to_set());
    }
}

/// The dietary tags of a dish are the titles of its block's icons as a
/// set: every title is a tag, every tag is a title, and none is listed
/// twice.
pub proof fn lemma_tags_are_the_titles(f: Fragment)
    requires
        dish_of(f) is Ok,
    ensures
        dish_of(f).unwrap().tags() == f.icon_titles.to_set(),
        dish_of(f).unwrap().dietary_info.no_duplicates(),
{
    lemma_distinct(f.icon_titles);
}

/// Tests whether one of the strings equals `s`.
fn holds_string(list: &Vec<String>, s: &String) -> (r: bool)
    ensures
        r == strings(list@).contains(s@),
{
    let mut i: usize = 0;
    while i < list.len()
        invariant
            i <= list.len(),
            forall|k: int| 0 <= k < i ==> strings(list@)[k] != s@,
        decreases list.len() - i,
    {
        if list[i] == *s {
            assert(strings(list@)[i as int] == s@);
            return true;
        }
        i += 1;
    }
    false
}

/// Lists every title once, where it first occurs.
pub fn dietary_tags(titles: &Vec<String>) -> (r: Vec<String>)
    ensures
        strings(r@) == distinct(strings(titles@)),
        strings(r@).no_duplicates(),
        strings(r@).to_set() == strings(titles@).to_set(),
{
    let mut r: Vec<String> = Vec::new();
    let mut i: usize = 0;
    while i < titles.len()
        invariant
            i <= titles.len(),
            strings(r@) == distinct(strings(titles@).take(i as int)),
        decreases titles.len() - i,
    {
        proof {
            let all = strings(titles@);
            assert(all.take(i + 1).drop_last() == all.take(i as int));
            assert(all.take(i + 1).last() == titles[i as int]@);
        }
        if !holds_string(&r, &titles[i]) {
            let ghost before = strings(r@);
            let t = titles[i].clone();
            r.push(t);
            assert(strings(r@) == before.push(t@));
        }
        i += 1;
    }
    proof {
        assert(strings(titles@).take(i as int) == strings(titles@));
        lemma_distinct(strings(titles@));
    }
    r
}

/// Reads the dish that a dish block describes, or says why it describes
/// none.
pub fn assemble_dish(patterns: &Patterns, f: &DishFragment) -> (r: Result<Dish, ParseError>)
    ensures
        match r {
            Ok(d) => dish_of(f@) == Ok::<DishView, ParseError>(d@) && d.wf(),
            Err(e) => dish_of(f@) == Err::<DishView, ParseError>(e),
        },
{
    let raw = match &f.raw_text {
        None => {
            return Err(ParseError::MalformedInput);
        },
        Some(raw) => raw,
    };
    let label = match patterns.read(raw.as_str()) {
        Err(e) => {
            return Err(e);
        },
        Ok(label) => label,
    };
    let prices = match &f.price_span_text {
        None => Prices::zero(),
        Some(t) => match extract_prices(t.as_str()) {
            Err(e) => {
                return Err(e);
            },
            Ok(p) => p,
        },
    };
    Ok(
        Dish {
            name: label.name,
            co2: label.co2_grams,
            dietary_info: dietary_tags(&f.icon_titles),
            prices,
            nutrition: label.nutrition,
        },
    )
}

/// Reads the dishes of one group; a dish that cannot be read is left out.
pub fn assemble_section(patterns: &Patterns, g: &Group) -> (r: Section)
    ensures
        r@ == section_of(g@),
        r.wf(),
{
    let mut dishes: Vec<Dish> = Vec::new();
    let mut i: usize = 0;
    while i < g.fragments.len()
        invariant
            i <= g.fragments.len(),
            dishes_view(dishes@) == dishes_of(fragments_of(g.fragments@).take(i as int)),
            forall|k: int| 0 <= k < dishes.len() ==> (#[trigger] dishes[k]).wf(),
        decreases g.fragments.len() - i,
    {
        proof {
            let all = fragments_of(g.fragments@);
            assert(all.take(i + 1).drop_last() == all.take(i as int));
            assert(all.take(i + 1).last() == g.fragments[i as int]@);
        }
        match assemble_dish(patterns, &g.fragments[i]) {
            Ok(d) => {
                let ghost before = dishes_view(dishes@);
                dishes.push(d);
                assert(dishes_view(dishes@) == before.push(d@));
            },
            Err(_) => {},
        }
        i += 1;
    }
    proof {
        assert(fragments_of(g.fragments@).take(i as int) == fragments_of(g.fragments@));
    }
    Section { name: g.name.clone(), dishes }
}

/// Puts the plan together from the groups of dish blocks.
pub fn assemble(gs: &Vec<Group>) -> (r: Mealplan)
    ensures
        r@ == plan_of(groups_of(gs@)),
        r.wf(),
{
    let patterns = Patterns::new();
    let mut menu: Vec<Section> = Vec::new();
    let mut i: usize = 0;
    while i < gs.len()
        invariant
            i <= gs.len(),
            menu.len() == i,
            forall|k: int| 0 <= k < i ==> (#[trigger] menu[k])@ == section_of(gs[k]@),
            forall|k: int| 0 <= k < i ==> (#[trigger] menu[k]).wf(),
        decreases gs.len() - i,
    {
        let s = assemble_section(&patterns, &gs[i]);
        menu.push(s);
        i += 1;
    }
    let r = Mealplan { menu };
    assert(r@ =~= plan_of(groups_of(gs@)));
    r
}

/// Builds the plan of a document given as the list of its nodes.
pub fn build_plan(nodes: &Vec<DomNode>) -> (r: Mealplan)
    ensures
        r@ == plan_of(groups(nodes_of(nodes@))),
        r.wf(),
{
    let gs = extract_groups(nodes);
    assemble(&gs)
}

/// Builds the meal plan of a page: the plan of the document that the
/// HTML parser builds from `html_content`.
pub fn parse_menu(html_content: &str) -> (r: Mealplan)
    ensures
        r@ == plan_of(groups(document_nodes(html_content@))),
        r.wf(),
{
    let nodes = parse_document(html_content);
    build_plan(&nodes)
}

/// The blocks that describe no dish: the index of each among `fs`, and
/// why it describes none.
pub open spec fn rejects_of(fs: Seq<Fragment>) -> Seq<(usize, ParseError)>
    decreases fs.len(),
{
    if fs.len() == 0 {
        Seq::empty()
    } else {
        let before = rejects_of(fs.drop_last());
        match dish_of(fs.last()) {
            Ok(_) => before,
            Err(e) => before.push(((fs.len() - 1) as usize, e)),
        }
    }
}

/// Every dish block either gives a dish or is listed with its reason.
pub proof fn lemma_kept_or_rejected(fs: Seq<Fragment>)
    ensures
        dishes_of(fs).len() + rejects_of(fs).len() == fs.len(),
    decreases fs.len(),
{
    if fs.len() > 0 {
        lemma_kept_or_rejected(fs.drop_last());
    }
}

/// Lists the dish blocks of a group that are left out of the plan, each
/// with its index in the group and the reason.
pub fn rejected(patterns: &Patterns, g: &Group) -> (r: Vec<(usize, ParseError)>)
    ensures
        r@ == rejects_of(g@.fragments),
{
    let mut r: Vec<(usize, ParseError)> = Vec::new();
    let mut i: usize = 0;
    while i < g.fragments.len()
        invariant
            i <= g.fragments.len(),
            r@ == rejects_of(fragments_of(g.fragments@).take(i as int)),
        decreases g.fragments.len() - i,
    {
        proof {
            let all = fragments_of(g.fragments@);
            assert(all.take(i + 1).drop_last() == all.take(i as int));
            assert(all.take(i + 1).last() == g.fragments[i as int]@);
        }
        match assemble_dish(patterns, &g.fragments[i]) {
            Ok(_) => {},
            Err(e) => {
                r.push((i, e));
            },
        }
        i += 1;
    }
    proof {
        assert(fragments_of(g.fragments@).take(i as int) == fragments_of(g.fragments@));
    }
    r
}

/// The dishes of two lists of blocks joined are the dishes of the first
/// followed by the dishes of the second.
pub proof fn lemma_dishes_join(a: Seq<Fragment>, b: Seq<Fragment>)
    ensures
        dishes_of(a + b) == dishes_of(a) + dishes_of(b),
    decreases b.len(),
{
    if b.len() == 0 {
        assert(a + b == a);
        assert(dishes_of(a) + dishes_of(b) == dishes_of(a));
    } else {
        lemma_dishes_join(a, b.drop_last());
        assert((a + b).drop_last() == a + b.drop_last());
        assert((a + b).last() == b.last());
        match dish_of(b.last()) {
            Ok(d) => {
                assert((dishes_of(a) + dishes_of(b.drop_last())).push(d) == dishes_of(a)
                    + dishes_of(b.drop_last()).push(d));
            },
            Err(_) => {},
        }
    }
}

/// A dish block that cannot be read is left out, and the dishes of the
/// blocks around it are what they are without it.
pub proof fn lemma_unreadable_dish_is_left_out(
    before: Seq<Fragment>,
    bad: Fragment,
    after: Seq<Fragment>,
)
    requires
        dish_of(bad) is Err,
    ensures
        dishes_of(before + seq![bad] + after) == dishes_of(before + after),
        dishes_of(before + seq![bad] + after) == dishes_of(before) + dishes_of(after),
{
    lemma_dishes_join(before + seq![bad], after);
    lemma_dishes_join(before, seq![bad]);
    lemma_dishes_join(before, after);
    assert(seq![bad].drop_last() == Seq::<Fragment>::empty());
    assert(dishes_of(Seq::<Fragment>::empty()) == Seq::<DishView>::empty());
    assert(seq![bad].last() == bad);
    assert(dishes_of(seq![bad]) == Seq::<DishView>::empty());
    assert(dishes_of(before) + Seq::<DishView>::empty() == dishes_of(before));
}

/// A dish block that can be read gives its dish, in its place among the
/// dishes of the blocks around it.
pub proof fn lemma_readable_dish_is_kept(
    before: Seq<Fragment>,
    good: Fragment,
    after: Seq<Fragment>,
)
    requires
        dish_of(good) is Ok,
    ensures
        dishes_of(before + seq![good] + after) == dishes_of(before).push(dish_of(good).unwrap())
            + dishes_of(after),
{
    lemma_dishes_join(before + seq![good], after);
    lemma_dishes_join(before, seq![good]);
    assert(seq![good].drop_last() == Seq::<Fragment>::empty());
    assert(dishes_of(Seq::<Fragment>::empty()) == Seq::<DishView>::empty());
    assert(seq![good].last() == good);
    assert(dishes_of(seq![good]) == seq![dish_of(good).unwrap()]);
    assert(dishes_of(before) + seq![dish_of(good).unwrap()] == dishes_of(before).push(
        dish_of(good).unwrap(),
    ));
}

/// Every group becomes a section of its name, in its place, whatever
/// becomes of its dishes; and no group, no section.
pub proof fn lemma_every_group_is_a_section(gs: Seq<GroupView>)
    ensures
        plan_of(gs).len() == gs.len(),
        forall|i: int| 0 <= i < gs.len() ==> (#[trigger] plan_of(gs)[i]).name == gs[i].name,
        forall|i: int|
            0 <= i < gs.len() ==> (#[trigger] plan_of(gs)[i]).dishes.len() <= gs[i].fragments.len(),
{
    assert forall|i: int| 0 <= i < gs.len() implies (#[trigger] plan_of(gs)[i]).dishes.len()
        <= gs[i].fragments.len() by {
        lemma_dishes_count(gs[i].fragments);
    }
}

/// There are no more dishes than dish blocks.
pub proof fn lemma_dishes_count(fs: Seq<Fragment>)
    ensures
        dishes_of(fs).len() <= fs.len(),
    decreases fs.len(),
{
    if fs.len() > 0 {
        lemma_dishes_count(fs.drop_last());
    }
}

/// The same page gives the same groups, however often they are
/// extracted.
pub proof fn lemma_same_page_same_groups(html: &str, a: Vec<Group>, b: Vec<Group>)
    requires
        call_ensures(crate::extract::extract, (html,), a),
        call_ensures(crate::extract::extract, (html,), b),
    ensures
        groups_of(a@) == groups_of(b@),
{
}

/// The same page gives the same plan, however often it is built.
pub proof fn lemma_same_page_same_plan(html: &str, a: Mealplan, b: Mealplan)
    requires
        call_ensures(parse_menu, (html,), a),
        call_ensures(parse_menu, (html,), b),
    ensures
        a@ == b@,
{
}

} // verus!
