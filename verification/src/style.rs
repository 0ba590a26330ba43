//! Style resolution: which rules apply to an element, and the property
//! values that result.

use crate::assoc::StrMap;
use crate::css::{
    less_specific, DeclarationView, Rule, RuleView, Selector, SelectorView, SimpleSelector,
    SimpleSelectorView, Stylesheet, StylesheetView, Value, ValueView,
};
use crate::dom::{
    contains_name, distinct, lemma_distinct, node_views, pieces_from, ElementData, ElementDataView, Node, NodeType, NodeTypeView, NodeView,
};
use crate::order::{
    insert_sorted, lemma_insert_position, lemma_insert_sorted, ordered, precedes, rank_lt,
    stable_sort, Rank,
};
use crate::text::{run_len, str_eq, string_views, CharClass};
use vstd::prelude::*;

verus! {

/// The values that the style sheet specifies for one node, by property
/// name.
pub type PropertyMap = StrMap<Value>;

/// Specified values as contracts see them.
pub type PropertyMapView = Map<Seq<char>, ValueView>;

/// A node of the document with the values specified for it.
#[derive(Debug)]
pub struct StyledNode<'a> {
    pub node: &'a Node,
    pub specified_values: PropertyMap,
    pub children: Vec<StyledNode<'a>>,
}

/// A styled node as contracts see it.
pub ghost struct StyledNodeView {
    pub node: NodeView,
    pub specified_values: PropertyMapView,
    pub children: Seq<StyledNodeView>,
}

impl<'a> View for StyledNode<'a> {
    type V = StyledNodeView;

    open spec fn view(&self) -> StyledNodeView
        decreases self,
    {
        StyledNodeView {
            node: self.node@,
            specified_values: self.specified_values@,
            children: styled_views(self.children@),
        }
    }
}

/// The views of a sequence of styled nodes.
pub open spec fn styled_views<'a>(nodes: Seq<StyledNode<'a>>) -> Seq<StyledNodeView>
    decreases nodes,
{
    Seq::new(
        nodes.len(),
        |i: int|
            if 0 <= i < nodes.len() {
                nodes[i]@
            } else {
                arbitrary()
            },
    )
}

/// How a node takes part in layout.
#[derive(Clone, Copy, Debug, PartialEq, Eq)]
pub enum Display {
    Inline,
    Block,
    DisplayNone,
}

/// The value of property `name`, if one is specified.
pub open spec fn value_of(props: PropertyMapView, name: Seq<char>) -> Option<ValueView> {
    if props.contains_key(name) {
        Some(props[name])
    } else {
        None
    }
}

/// The value of `name`; without one, that of `fallback`; without that one
/// too, `default`.
pub open spec fn lookup_of(
    props: PropertyMapView,
    name: Seq<char>,
    fallback: Seq<char>,
    default: ValueView,
) -> ValueView {
    if props.contains_key(name) {
        props[name]
    } else if props.contains_key(fallback) {
        props[fallback]
    } else {
        default
    }
}

/// What the `display` property says: `block` and `none` are recognised;
/// anything else, or no value, means inline.
pub open spec fn display_of(props: PropertyMapView) -> Display {
    match value_of(props, "display"@) {
        Some(ValueView::Keyword(k)) => if k == "block"@ {
            Display::Block
        } else if k == "none"@ {
            Display::DisplayNone
        } else {
            Display::Inline
        },
        _ => Display::Inline,
    }
}

/// The view of an optional value.
pub open spec fn option_view(v: Option<Value>) -> Option<ValueView> {
    match v {
        Some(x) => Some(x@),
        None => None,
    }
}

impl<'a> StyledNode<'a> {
    /// The value of property `name`, if one is specified.
    pub fn value(&self, name: &str) -> (r: Option<Value>)
        ensures
            option_view(r) == value_of(self@.specified_values, name@),
    {
        match self.specified_values.get(name) {
            Some(v) => Some(v.clone()),
            None => None,
        }
    }

    /// The value of `name`; without one, that of `fallback_name`; without
    /// that one too, a copy of `default`.
    pub fn lookup(&self, name: &str, fallback_name: &str, default: &Value) -> (r: Value)
        ensures
            r@ == lookup_of(self@.specified_values, name@, fallback_name@, default@),
    {
        match self.value(name) {
            Some(v) => v,
            None => match self.value(fallback_name) {
                Some(v) => v,
                None => default.clone(),
            },
        }
    }

    /// The value of the `display` property.
    pub fn display(&self) -> (r: Display)
        ensures
            r == display_of(self@.specified_values),
    {
        match self.specified_values.get("display") {
            Some(Value::Keyword(k)) => {
                if str_eq(k.as_str(), "block") {
                    Display::Block
                } else if str_eq(k.as_str(), "none") {
                    Display::DisplayNone
                } else {
                    Display::Inline
                }
            },
            _ => Display::Inline,
        }
    }
}


/// Whether a simple selector matches an element: its tag name, if it has
/// one, is the element's; its id, if it has one, is the element's; and
/// each of its classes is among the element's.
pub open spec fn matches_simple(elem: ElementDataView, selector: SimpleSelectorView) -> bool {
    &&& selector.tag_name matches Some(name) ==> elem.tag_name == name
    &&& selector.id matches Some(id) ==> elem.id() == Some(id)
    &&& forall|k: int|
        0 <= k < selector.class.len() ==> elem.classes().contains(#[trigger] selector.class[k])
}

/// Whether a selector matches an element.
pub open spec fn matches_selector(elem: ElementDataView, selector: SelectorView) -> bool {
    match selector {
        SelectorView::Simple(simple) => matches_simple(elem, simple),
    }
}

/// The first of the selectors from index `i` on that matches the element.
pub open spec fn first_match_from(elem: ElementDataView, selectors: Seq<SelectorView>, i: int)
    -> Option<SelectorView>
    decreases selectors.len() - i,
{
    if !(0 <= i < selectors.len()) {
        None
    } else if matches_selector(elem, selectors[i]) {
        Some(selectors[i])
    } else {
        first_match_from(elem, selectors, i + 1)
    }
}

/// The first selector of the rule that matches the element: the most
/// specific one that does, where the selectors are sorted.
pub open spec fn first_match(elem: ElementDataView, rule: RuleView) -> Option<SelectorView> {
    first_match_from(elem, rule.selectors, 0)
}

/// The indices of the rules that match the element, in rule order.
pub open spec fn matched_rules(elem: ElementDataView, rules: Seq<RuleView>) -> Seq<int>
    decreases rules.len(),
{
    if rules.len() == 0 {
        Seq::empty()
    } else if first_match(elem, rules.last()) is Some {
        matched_rules(elem, rules.drop_last()).push(rules.len() - 1)
    } else {
        matched_rules(elem, rules.drop_last())
    }
}

/// The rank of a rule for an element: the specificity of the first of its
/// selectors that matches.
pub open spec fn match_rank(elem: ElementDataView, rules: Seq<RuleView>) -> spec_fn(int) -> Rank {
    |r: int| first_match(elem, rules[r])->Some_0.specificity()
}

/// The map with the declarations applied in order: each binds its name to
/// its value, over what was bound before.
pub open spec fn apply_declarations(m: PropertyMapView, decls: Seq<DeclarationView>)
    -> PropertyMapView
    decreases decls.len(),
{
    if decls.len() == 0 {
        m
    } else {
        apply_declarations(m, decls.drop_last()).insert(decls.last().name, decls.last().value)
    }
}

/// The map with the declarations of the rules `order` applied, rule after
/// rule.
pub open spec fn apply_rules(m: PropertyMapView, order: Seq<int>, rules: Seq<RuleView>)
    -> PropertyMapView
    decreases order.len(),
{
    if order.len() == 0 {
        m
    } else {
        apply_declarations(
            apply_rules(m, order.drop_last(), rules),
            rules[order.last()].declarations,
        )
    }
}

/// The order in which the matching rules apply to an element: by rank,
/// the least specific first, and in rule order among rules of one rank.
pub open spec fn cascade_order(elem: ElementDataView, rules: Seq<RuleView>) -> Seq<int> {
    stable_sort(matched_rules(elem, rules), match_rank(elem, rules), false)
}

/// The values that a style sheet specifies for an element.
pub open spec fn specified_values_of(elem: ElementDataView, sheet: StylesheetView)
    -> PropertyMapView {
    apply_rules(Map::empty(), cascade_order(elem, sheet.rules), sheet.rules)
}

/// The styled tree of a document tree: each element with its specified
/// values, each text node with none.
pub open spec fn styled(node: NodeView, sheet: StylesheetView) -> StyledNodeView
    decreases node,
{
    StyledNodeView {
        node,
        specified_values: match node.node_type {
            NodeTypeView::Element(elem) => specified_values_of(elem, sheet),
            NodeTypeView::Text(_) => Map::empty(),
        },
        children: Seq::new(
            node.children.len(),
            |i: int|
                if 0 <= i < node.children.len() {
                    styled(node.children[i], sheet)
                } else {
                    arbitrary()
                },
        ),
    }
}

/// Whether a simple selector matches an element.
pub fn matches_simple_selector(elem: &ElementData, selector: &SimpleSelector) -> (r: bool)
    ensures
        r == matches_simple(elem@, selector@),
{
    // Check type selector
    match &selector.tag_name {
        Some(name) => {
            if !str_eq(elem.tag_name.as_str(), name.as_str()) {
                return false;
            }
        },
        None => {},
    }
    // Check ID selector
    match &selector.id {
        Some(id) => {
            match elem.id() {
                Some(elem_id) => {
                    if !str_eq(elem_id.as_str(), id.as_str()) {
                        return false;
                    }
                },
                None => {
                    return false;
                },
            }
        },
        None => {},
    }
    // Check class selectors
    let elem_classes = elem.classes();
    let mut k: usize = 0;
    while k < selector.class.len()
        invariant
            k <= selector.class.len(),
            string_views(elem_classes@) == elem@.classes(),
            forall|j: int|
                0 <= j < k ==> elem@.classes().contains(#[trigger] selector@.class[j]),
        decreases selector.class.len() - k,
    {
        if !contains_name(&elem_classes, selector.class[k].as_str()) {
            assert(selector@.class[k as int] == selector.class@[k as int]@);
            return false;
        }
        assert(selector@.class[k as int] == selector.class@[k as int]@);
        k += 1;
    }
    // We didn't find any non-matching selector components.
    true
}

/// Whether a selector matches an element.
pub fn matches(elem: &ElementData, selector: &Selector) -> (r: bool)
    ensures
        r == matches_selector(elem@, selector@),
{
    match selector {
        Selector::Simple(simple_selector) => matches_simple_selector(elem, simple_selector),
    }
}

/// A rule with the most specific of its selectors that matched.
pub type MatchedRule<'a> = (&'a Selector, &'a Rule);

/// Whether the matched rules are those that the indices `order` name, each
/// with its first matching selector.
pub open spec fn names_rules<'a>(
    found: Seq<MatchedRule<'a>>,
    order: Seq<int>,
    elem: ElementDataView,
    rules: Seq<RuleView>,
) -> bool {
    &&& found.len() == order.len()
    &&& forall|k: int|
        0 <= k < order.len() ==> {
            &&& 0 <= #[trigger] order[k] < rules.len()
            &&& found[k].1@ == rules[order[k]]
            &&& first_match(elem, rules[order[k]]) == Some(found[k].0@)
        }
}

/// Finds the rules that match an element, in rule order, with the first
/// matching selector of each.
fn matching_rules<'a>(elem: &ElementData, stylesheet: &'a Stylesheet) -> (r: (
    Vec<MatchedRule<'a>>,
    Ghost<Seq<int>>,
))
    ensures
        r.1@ == matched_rules(elem@, stylesheet@.rules),
        names_rules(r.0@, r.1@, elem@, stylesheet@.rules),
{
    // A linear scan of all the rules.
    let mut found: Vec<MatchedRule<'a>> = Vec::new();
    let ghost mut order: Seq<int> = Seq::empty();
    let ghost rules = stylesheet@.rules;
    let n = stylesheet.rules.len();
    let mut r: usize = 0;
    assert(rules.take(0) =~= Seq::empty());
    while r < n
        invariant
            r <= n == stylesheet.rules.len(),
            rules == stylesheet@.rules,
            rules.len() == n,
            order == matched_rules(elem@, rules.take(r as int)),
            names_rules(found@, order, elem@, rules),
        decreases n - r,
    {
        let rule = &stylesheet.rules[r];
        proof {
            assert(rules.take(r + 1).drop_last() =~= rules.take(r as int));
            assert(rules.take(r + 1).last() == rule@);
            assert(rules[r as int] == rule@);
        }
        // Find the first (most specific) matching selector.
        let m = rule.selectors.len();
        let mut i: usize = 0;
        while i < m && !matches(elem, &rule.selectors[i])
            invariant
                i <= m == rule.selectors.len(),
                first_match(elem@, rule@) == first_match_from(elem@, rule@.selectors, i as int),
            decreases m - i,
        {
            i += 1;
        }
        if i < m {
            found.push((&rule.selectors[i], rule));
            proof {
                order = order.push(r as int);
            }
        }
        r += 1;
    }
    assert(rules.take(n as int) =~= rules);
    (found, Ghost(order))
}


/// Sorts matched rules by the specificity of the selector that matched,
/// the least specific first; rules of equal rank keep their order.
fn sort_matched<'a>(
    found: Vec<MatchedRule<'a>>,
    Ghost(order): Ghost<Seq<int>>,
    Ghost(elem): Ghost<ElementDataView>,
    Ghost(rules): Ghost<Seq<RuleView>>,
) -> (r: (Vec<MatchedRule<'a>>, Ghost<Seq<int>>))
    requires
        names_rules(found@, order, elem, rules),
    ensures
        r.1@ == stable_sort(order, match_rank(elem, rules), false),
        names_rules(r.0@, r.1@, elem, rules),
{
    let mut sorted: Vec<MatchedRule<'a>> = Vec::new();
    let ghost mut placed: Seq<int> = Seq::empty();
    let ghost rank = match_rank(elem, rules);
    let n = found.len();
    let mut i: usize = 0;
    assert(order.take(0) =~= Seq::empty());
    while i < n
        invariant
            i <= n == found.len(),
            rank == match_rank(elem, rules),
            names_rules(found@, order, elem, rules),
            placed == stable_sort(order.take(i as int), rank, false),
            names_rules(sorted@, placed, elem, rules),
        decreases n - i,
    {
        let x = found[i];
        let ghost xi = order[i as int];
        proof {
            assert(order.take(i + 1).drop_last() =~= order.take(i as int));
            assert(order.take(i + 1).last() == xi);
        }
        let key = x.0.specificity();
        let mut k: usize = sorted.len();
        while k > 0 && less_specific(key, sorted[k - 1].0.specificity())
            invariant
                k <= sorted.len(),
                names_rules(sorted@, placed, elem, rules),
                names_rules(found@, order, elem, rules),
                rank == match_rank(elem, rules),
                xi == order[i as int],
                i < n == found.len(),
                x == found@[i as int],
                (key.0 as nat, key.1 as nat, key.2 as nat) == rank(xi),
                forall|j: int|
                    k <= j < placed.len() ==> precedes(rank(xi), rank(#[trigger] placed[j]), false),
            decreases k,
        {
            k -= 1;
        }
        proof {
            lemma_insert_position(placed, xi, rank, false, k as int);
        }
        let ghost before = sorted@;
        let ghost old_placed = placed;
        sorted.insert(k, x);
        proof {
            placed = placed.insert(k as int, xi);
            assert forall|j: int| 0 <= j < placed.len() implies {
                &&& 0 <= #[trigger] placed[j] < rules.len()
                &&& sorted@[j].1@ == rules[placed[j]]
                &&& first_match(elem, rules[placed[j]]) == Some(sorted@[j].0@)
            } by {
                if j < k {
                    assert(placed[j] == old_placed[j]);
                    assert(sorted@[j] == before[j]);
                } else if j > k {
                    assert(placed[j] == old_placed[j - 1]);
                    assert(sorted@[j] == before[j - 1]);
                }
            }
        }
        i += 1;
    }
    assert(order.take(n as int) =~= order);
    (sorted, Ghost(placed))
}

/// Applies the style sheet to a single element: the values that its rules
/// specify for the element, those of a more specific rule over those of a
/// less specific one, and those of a later rule over those of an earlier
/// one of the same rank.
pub fn specified_values(elem: &ElementData, stylesheet: &Stylesheet) -> (values: PropertyMap)
    ensures
        values@ == specified_values_of(elem@, stylesheet@),
{
    let mut values: PropertyMap = StrMap::new();
    let (found, Ghost(order)) = matching_rules(elem, stylesheet);
    // Go through the rules from lowest to highest specificity.
    let (rules, Ghost(sorted)) = sort_matched(
        found,
        Ghost(order),
        Ghost(elem@),
        Ghost(stylesheet@.rules),
    );
    let ghost all = stylesheet@.rules;
    let n = rules.len();
    let mut i: usize = 0;
    assert(sorted.take(0) =~= Seq::empty());
    while i < n
        invariant
            i <= n == rules.len(),
            all == stylesheet@.rules,
            names_rules(rules@, sorted, elem@, all),
            values@ == apply_rules(Map::empty(), sorted.take(i as int), all),
        decreases n - i,
    {
        let rule = rules[i].1;
        let ghost base = values@;
        proof {
            assert(sorted.take(i + 1).drop_last() =~= sorted.take(i as int));
            assert(sorted.take(i + 1).last() == sorted[i as int]);
            assert(rule@ == all[sorted[i as int]]);
        }
        let ghost decls = rule@.declarations;
        let m = rule.declarations.len();
        let mut j: usize = 0;
        assert(decls.take(0) =~= Seq::empty());
        while j < m
            invariant
                j <= m == rule.declarations.len(),
                decls == rule@.declarations,
                values@ == apply_declarations(base, decls.take(j as int)),
            decreases m - j,
        {
            let declaration = &rule.declarations[j];
            proof {
                assert(decls.take(j + 1).drop_last() =~= decls.take(j as int));
                assert(decls.take(j + 1).last() == declaration@);
            }
            values.insert(declaration.name.clone(), declaration.value.clone());
            j += 1;
        }
        assert(decls.take(m as int) =~= decls);
        i += 1;
    }
    assert(sorted.take(n as int) =~= sorted);
    values
}

/// Applies a style sheet to a whole document tree.
pub fn style_tree<'a>(root: &'a Node, stylesheet: &'a Stylesheet) -> (r: StyledNode<'a>)
    ensures
        r@ == styled(root@, stylesheet@),
    decreases root,
{
    let specified = match &root.node_type {
        NodeType::Element(elem) => specified_values(elem, stylesheet),
        NodeType::Text(_) => StrMap::new(),
    };
    let mut children: Vec<StyledNode<'a>> = Vec::new();
    let n = root.children.len();
    let mut i: usize = 0;
    let ghost nodes = root@.children;
    assert(nodes == node_views(root.children@));
    while i < n
        invariant
            i <= n == root.children.len(),
            nodes == node_views(root.children@),
            children.len() == i,
            forall|k: int|
                0 <= k < i ==> (#[trigger] children@[k])@ == styled(nodes[k], stylesheet@),
        decreases n - i,
    {
        let child = style_tree(&root.children[i], stylesheet);
        children.push(child);
        i += 1;
    }
    let r = StyledNode { node: root, specified_values: specified, children: children };
    proof {
        let want = styled(root@, stylesheet@);
        assert(r@.children =~= want.children);
        assert(r@.specified_values == want.specified_values);
    }
    r
}


/// Whether one of the declarations is for property `p`.
pub open spec fn declares(decls: Seq<DeclarationView>, p: Seq<char>) -> bool {
    exists|k: int| 0 <= k < decls.len() && (#[trigger] decls[k]).name == p
}

/// The value that the declarations give to property `p`: that of the last
/// declaration for it.
pub open spec fn declared_value(decls: Seq<DeclarationView>, p: Seq<char>) -> ValueView {
    apply_declarations(Map::empty(), decls)[p]
}

/// Whether rule `q` gives way to rule `r` for an element that both match:
/// it is less specific, or as specific and earlier in the style sheet.
pub open spec fn yields_to(elem: ElementDataView, rules: Seq<RuleView>, q: int, r: int) -> bool {
    let rank = match_rank(elem, rules);
    rank_lt(rank(q), rank(r)) || (rank(q) == rank(r) && q < r)
}

proof fn lemma_apply_declarations(m: PropertyMapView, decls: Seq<DeclarationView>, p: Seq<char>)
    ensures
        declares(decls, p) ==> apply_declarations(m, decls).contains_key(p) && apply_declarations(
            m,
            decls,
        )[p] == declared_value(decls, p),
        !declares(decls, p) ==> (apply_declarations(m, decls).contains_key(p) <==> m.contains_key(
            p,
        )) && (m.contains_key(p) ==> apply_declarations(m, decls)[p] == m[p]),
    decreases decls.len(),
{
    if decls.len() > 0 {
        let front = decls.drop_last();
        lemma_apply_declarations(m, front, p);
        lemma_apply_declarations(Map::empty(), front, p);
        if decls.last().name != p {
            if declares(decls, p) {
                let k = choose|k: int| 0 <= k < decls.len() && (#[trigger] decls[k]).name == p;
                assert(front[k].name == p);
            }
            if declares(front, p) {
                let k = choose|k: int| 0 <= k < front.len() && (#[trigger] front[k]).name == p;
                assert(decls[k].name == p);
            }
        } else {
            assert(decls[decls.len() - 1].name == p);
        }
    }
}

proof fn lemma_apply_rules_last(
    m: PropertyMapView,
    order: Seq<int>,
    rules: Seq<RuleView>,
    k: int,
    p: Seq<char>,
)
    requires
        0 <= k < order.len(),
        declares(rules[order[k]].declarations, p),
        forall|j: int| k < j < order.len() ==> !declares(rules[#[trigger] order[j]].declarations, p),
    ensures
        apply_rules(m, order, rules).contains_key(p),
        apply_rules(m, order, rules)[p] == declared_value(rules[order[k]].declarations, p),
    decreases order.len(),
{
    let front = order.drop_last();
    lemma_apply_declarations(apply_rules(m, front, rules), rules[order.last()].declarations, p);
    if k < order.len() - 1 {
        assert forall|j: int| k < j < front.len() implies !declares(
            rules[#[trigger] front[j]].declarations,
            p,
        ) by {
            assert(front[j] == order[j]);
        }
        assert(front[k] == order[k]);
        lemma_apply_rules_last(m, front, rules, k, p);
        assert(!declares(rules[order[order.len() - 1]].declarations, p));
    }
}

/// The matching rules are the rules with a selector that matches, each
/// once, in rule order.
proof fn lemma_matched_rules(elem: ElementDataView, rules: Seq<RuleView>)
    ensures
        forall|i: int|
            0 <= i < matched_rules(elem, rules).len() ==> 0 <= (#[trigger] matched_rules(
                elem,
                rules,
            )[i]) < rules.len() && first_match(elem, rules[matched_rules(elem, rules)[i]]) is Some,
        forall|i: int, j: int|
            0 <= i < j < matched_rules(elem, rules).len() ==> matched_rules(elem, rules)[i]
                < matched_rules(elem, rules)[j],
        forall|r: int|
            #![trigger rules[r]]
            0 <= r < rules.len() && first_match(elem, rules[r]) is Some ==> matched_rules(
                elem,
                rules,
            ).contains(r),
    decreases rules.len(),
{
    if rules.len() > 0 {
        let front = rules.drop_last();
        lemma_matched_rules(elem, front);
        let before = matched_rules(elem, front);
        let all = matched_rules(elem, rules);
        assert forall|i: int| 0 <= i < before.len() implies rules[#[trigger] before[i]]
            == front[before[i]] by {}
        assert forall|r: int|
            #![trigger rules[r]]
            0 <= r < rules.len() && first_match(elem, rules[r]) is Some implies all.contains(
            r,
        ) by {
            if r < rules.len() - 1 {
                assert(front[r] == rules[r]);
                assert(before.contains(r));
                let i = choose|i: int| 0 <= i < before.len() && before[i] == r;
                assert(all[i] == r);
            } else {
                assert(all[all.len() - 1] == r);
            }
        }
    }
}

/// Whether every index yields to the ones behind it.
spec fn in_cascade_order(v: Seq<int>, elem: ElementDataView, rules: Seq<RuleView>) -> bool {
    forall|a: int, b: int| 0 <= a < b < v.len() ==> yields_to(elem, rules, v[a], v[b])
}

proof fn lemma_cascade_insert(v: Seq<int>, x: int, elem: ElementDataView, rules: Seq<RuleView>)
    requires
        in_cascade_order(v, elem, rules),
        forall|i: int| 0 <= i < v.len() ==> v[i] < x,
    ensures
        in_cascade_order(insert_sorted(v, x, match_rank(elem, rules), false), elem, rules),
        forall|y: int|
            insert_sorted(v, x, match_rank(elem, rules), false).contains(y) <==> (v.contains(y)
                || y == x),
{
    let rank = match_rank(elem, rules);
    assert(ordered(v, rank, false)) by {
        assert forall|i: int, j: int| 0 <= i < j < v.len() implies !precedes(
            rank(v[j]),
            rank(v[i]),
            false,
        ) by {
            assert(yields_to(elem, rules, v[i], v[j]));
        }
    }
    lemma_insert_sorted(v, x, rank, false);
    let out = insert_sorted(v, x, rank, false);
    let k = choose|k: int|
        0 <= k <= v.len() && #[trigger] v.insert(k, x) == out && (forall|j: int|
            k <= j < v.len() ==> precedes(rank(x), rank(v[j]), false)) && (forall|j: int|
            0 <= j < k ==> !precedes(rank(x), rank(v[j]), false));
    assert forall|a: int, b: int| 0 <= a < b < out.len() implies yields_to(
        elem,
        rules,
        out[a],
        out[b],
    ) by {
        if b == k {
            assert(out[a] == v[a]);
            assert(!precedes(rank(x), rank(v[a]), false));
        } else if a == k {
            assert(out[b] == v[b - 1]);
            assert(precedes(rank(x), rank(v[b - 1]), false));
        } else {
            let a0 = if a < k {
                a
            } else {
                a - 1
            };
            let b0 = if b < k {
                b
            } else {
                b - 1
            };
            assert(out[a] == v[a0] && out[b] == v[b0]);
            assert(yields_to(elem, rules, v[a0], v[b0]));
        }
    }
    assert forall|y: int| out.contains(y) <==> (v.contains(y) || y == x) by {
        if out.contains(y) {
            let i = choose|i: int| 0 <= i < out.len() && out[i] == y;
            if i < k {
                assert(v[i] == y);
            } else if i > k {
                assert(v[i - 1] == y);
            }
        }
        if v.contains(y) {
            let i = choose|i: int| 0 <= i < v.len() && v[i] == y;
            if i < k {
                assert(out[i] == y);
            } else {
                assert(out[i + 1] == y);
            }
        }
        if y == x {
            assert(out[k] == x);
        }
    }
}

proof fn lemma_cascade_sorted(m: Seq<int>, elem: ElementDataView, rules: Seq<RuleView>)
    requires
        forall|i: int, j: int| 0 <= i < j < m.len() ==> m[i] < m[j],
    ensures
        in_cascade_order(stable_sort(m, match_rank(elem, rules), false), elem, rules),
        forall|y: int| stable_sort(m, match_rank(elem, rules), false).contains(y) <==> m.contains(y),
    decreases m.len(),
{
    let rank = match_rank(elem, rules);
    if m.len() > 0 {
        let front = m.drop_last();
        lemma_cascade_sorted(front, elem, rules);
        let sorted = stable_sort(front, rank, false);
        assert forall|i: int| 0 <= i < sorted.len() implies sorted[i] < m.last() by {
            assert(sorted.contains(sorted[i]));
            assert(front.contains(sorted[i]));
            let j = choose|j: int| 0 <= j < front.len() && front[j] == sorted[i];
            assert(m[j] == front[j]);
        }
        lemma_cascade_insert(sorted, m.last(), elem, rules);
        let out = stable_sort(m, rank, false);
        assert forall|y: int| out.contains(y) <==> m.contains(y) by {
            if m.contains(y) {
                let i = choose|i: int| 0 <= i < m.len() && m[i] == y;
                if i < m.len() - 1 {
                    assert(front[i] == y);
                }
            }
            if front.contains(y) {
                let i = choose|i: int| 0 <= i < front.len() && front[i] == y;
                assert(m[i] == y);
            }
            if y == m.last() {
                assert(m[m.len() - 1] == y);
            }
        }
    }
}

/// The cascade: where rule `r` matches the element and declares property
/// `p`, and every other matching rule that declares `p` is less specific
/// or, being as specific, stands earlier in the style sheet, the element's
/// value of `p` is the one that rule `r` declares.
pub proof fn lemma_cascade(elem: ElementDataView, sheet: StylesheetView, p: Seq<char>, r: int)
    requires
        0 <= r < sheet.rules.len(),
        first_match(elem, sheet.rules[r]) is Some,
        declares(sheet.rules[r].declarations, p),
        forall|q: int|
            0 <= q < sheet.rules.len() && q != r && first_match(elem, #[trigger] sheet.rules[q])
                is Some && declares(sheet.rules[q].declarations, p) ==> yields_to(
                elem,
                sheet.rules,
                q,
                r,
            ),
    ensures
        specified_values_of(elem, sheet).contains_key(p),
        specified_values_of(elem, sheet)[p] == declared_value(sheet.rules[r].declarations, p),
{
    let rules = sheet.rules;
    let matched = matched_rules(elem, rules);
    let order = cascade_order(elem, rules);
    lemma_matched_rules(elem, rules);
    lemma_cascade_sorted(matched, elem, rules);
    assert(rules[r] == sheet.rules[r]);
    assert(matched.contains(r));
    assert(order.contains(r));
    let k = choose|k: int| 0 <= k < order.len() && order[k] == r;
    assert forall|j: int| k < j < order.len() implies !declares(
        rules[#[trigger] order[j]].declarations,
        p,
    ) by {
        let q = order[j];
        assert(order.contains(q));
        assert(matched.contains(q));
        let i = choose|i: int| 0 <= i < matched.len() && matched[i] == q;
        assert(0 <= matched[i] < rules.len() && first_match(elem, rules[matched[i]]) is Some);
        assert(yields_to(elem, rules, r, q));
        if declares(rules[q].declarations, p) {
            assert(q != r);
            assert(yields_to(elem, rules, q, r));
        }
    }
    lemma_apply_rules_last(Map::empty(), order, rules, k, p);
}


/// The words with one space between each two of them.
pub open spec fn joined(words: Seq<Seq<char>>) -> Seq<char>
    decreases words.len(),
{
    if words.len() == 0 {
        Seq::empty()
    } else if words.len() == 1 {
        words[0]
    } else {
        words[0] + seq![' '] + joined(words.drop_first())
    }
}

/// Whether no word holds a space.
pub open spec fn spaceless(words: Seq<Seq<char>>) -> bool {
    forall|i: int, j: int|
        0 <= i < words.len() && 0 <= j < words[i].len() ==> (#[trigger] words[i][j]) != ' '
}

proof fn lemma_run_len_shift(a: Seq<char>, b: Seq<char>, k: int, class: CharClass)
    requires
        0 <= k,
    ensures
        run_len(a + b, a.len() + k, class) == run_len(b, k, class),
    decreases b.len() - k,
{
    if k < b.len() {
        assert((a + b)[a.len() + k] == b[k]);
        lemma_run_len_shift(a, b, k + 1, class);
    }
}

proof fn lemma_pieces_shift(a: Seq<char>, b: Seq<char>, k: int)
    requires
        0 <= k <= b.len(),
    ensures
        pieces_from(a + b, a.len() + k) == pieces_from(b, k),
    decreases b.len() - k,
{
    let class = CharClass::Except(' ');
    lemma_run_len_shift(a, b, k, class);
    let n = run_len(b, k, class);
    crate::text::lemma_run_end(b, k, class);
    assert((a + b).subrange(a.len() + k, a.len() + k + n) =~= b.subrange(k, k + n));
    if k + n < b.len() {
        lemma_pieces_shift(a, b, k + n + 1);
    }
}

proof fn lemma_run_of_word(word: Seq<char>, rest: Seq<char>, i: int)
    requires
        0 <= i <= word.len(),
        forall|j: int| 0 <= j < word.len() ==> word[j] != ' ',
        rest.len() == 0 || rest[0] == ' ',
    ensures
        run_len(word + rest, i, CharClass::Except(' ')) == word.len() - i,
    decreases word.len() - i,
{
    if i < word.len() {
        assert((word + rest)[i] == word[i]);
        lemma_run_of_word(word, rest, i + 1);
    } else if rest.len() > 0 {
        assert((word + rest)[i] == rest[0]);
    }
}

/// Words that are joined with spaces are what the spaces separate.
pub proof fn lemma_pieces_of_joined(words: Seq<Seq<char>>)
    requires
        words.len() > 0,
        spaceless(words),
    ensures
        pieces_from(joined(words), 0) == words,
    decreases words.len(),
{
    let first = words[0];
    assert forall|j: int| 0 <= j < first.len() implies first[j] != ' ' by {
        assert(words[0][j] != ' ');
    }
    if words.len() == 1 {
        lemma_run_of_word(first, Seq::empty(), 0);
        assert(first + Seq::<char>::empty() =~= first);
        assert(first.subrange(0, first.len() as int) =~= first);
        assert(pieces_from(first, 0) =~= words);
    } else {
        let tail = words.drop_first();
        assert forall|i: int, j: int|
            0 <= i < tail.len() && 0 <= j < tail[i].len() implies (#[trigger] tail[i][j])
            != ' ' by {
            assert(words[i + 1][j] != ' ');
        }
        lemma_pieces_of_joined(tail);
        let rest = seq![' '] + joined(tail);
        let s = joined(words);
        assert(s =~= first + rest);
        lemma_run_of_word(first, rest, 0);
        assert(s.subrange(0, first.len() as int) =~= first);
        let head = first + seq![' '];
        assert(s =~= head + joined(tail));
        lemma_pieces_shift(head, joined(tail), 0);
        assert(seq![first] + tail =~= words);
    }
}

/// Class matching goes by the set of classes: two elements that differ
/// only in the order in which their `class` attributes list the same
/// class names are matched by the same selectors.
pub proof fn lemma_class_order_is_irrelevant(
    a: ElementDataView,
    b: ElementDataView,
    selector: SimpleSelectorView,
    names_a: Seq<Seq<char>>,
    names_b: Seq<Seq<char>>,
)
    requires
        a.tag_name == b.tag_name,
        a.id() == b.id(),
        a.attributes.contains_key("class"@),
        b.attributes.contains_key("class"@),
        a.attributes["class"@] == joined(names_a),
        b.attributes["class"@] == joined(names_b),
        names_a.len() > 0,
        spaceless(names_a),
        spaceless(names_b),
        names_a.to_multiset() == names_b.to_multiset(),
    ensures
        matches_simple(a, selector) == matches_simple(b, selector),
{
    names_a.to_multiset_ensures();
    names_b.to_multiset_ensures();
    lemma_pieces_of_joined(names_a);
    lemma_pieces_of_joined(names_b);
    lemma_distinct(names_a);
    lemma_distinct(names_b);
    assert(a.classes() == distinct(names_a));
    assert(b.classes() == distinct(names_b));
    assert forall|x: Seq<char>| names_a.contains(x) <==> names_b.contains(x) by {
        assert(names_a.contains(x) <==> names_a.to_multiset().count(x) > 0);
        assert(names_b.contains(x) <==> names_b.to_multiset().count(x) > 0);
    }
    if matches_simple(a, selector) {
        assert forall|k: int| 0 <= k < selector.class.len() implies b.classes().contains(
            #[trigger] selector.class[k],
        ) by {
            let x = selector.class[k];
            assert(a.classes().contains(x));
            assert(distinct(names_a).contains(x) <==> names_a.contains(x));
            assert(distinct(names_b).contains(x) <==> names_b.contains(x));
            assert(names_a.contains(x) <==> names_b.contains(x));
        }
    }
    if matches_simple(b, selector) {
        assert forall|k: int| 0 <= k < selector.class.len() implies a.classes().contains(
            #[trigger] selector.class[k],
        ) by {
            let x = selector.class[k];
            assert(b.classes().contains(x));
            assert(distinct(names_a).contains(x) <==> names_a.contains(x));
            assert(distinct(names_b).contains(x) <==> names_b.contains(x));
            assert(names_a.contains(x) <==> names_b.contains(x));
        }
    }
}

} // verus!
