//! The cascade: which declarations of a style sheet apply to each element,
//! and the styled tree that records them.

use vstd::prelude::*;
use crate::css::{
    as_triple, declaration_views, rule_views, specificity_less, spec_less, specificity_of, DeclarationModel,
    no_selector, Rule, RuleModel, Selector, SelectorModel, SimpleSelector, Specificity, Stylesheet, Value,
    ValueModel,
};
use crate::dom::{class_list, id_key, string_views, ElementData, Node, NodeType};
use crate::name_map::NameMap;

verus! {

broadcast use vstd::std_specs::vec::axiom_vec_index_decreases;

/// Property names mapped to specified values.
pub type PropertyMap = NameMap<Value>;

/// A document node paired with the values that apply to it, and the styled
/// nodes of its children, in the same order.
#[derive(Debug, PartialEq)]
pub struct StyledNode<'a> {
    pub node: &'a Node,
    pub specified_values: PropertyMap,
    pub children: Vec<StyledNode<'a>>,
}

/// How a node is laid out.
#[derive(Debug, PartialEq, Eq, Clone, Copy, Structural)]
pub enum Display {
    Inline,
    Block,
    /// Not displayed: `display: none`.
    Hidden,
}

/// Whether a selector matches an element with tag `tag` and attributes `attrs`.
pub open spec fn matches_simple(
    tag: Seq<char>,
    attrs: Map<Seq<char>, Seq<char>>,
    sel: SelectorModel,
) -> bool {
    &&& (sel.tag is Some ==> sel.tag->0 == tag)
    &&& (sel.id is Some ==> attrs.contains_key(id_key()) && attrs[id_key()] == sel.id->0)
    &&& forall|k: int| 0 <= k < sel.classes.len() ==> class_list(attrs).contains(#[trigger] sel.classes[k])
}

/// A selector with no tag name, no id and no class matches every element.
pub proof fn lemma_empty_selector_matches(tag: Seq<char>, attrs: Map<Seq<char>, Seq<char>>)
    ensures
        matches_simple(tag, attrs, no_selector()),
{
}

/// The first selector of `sels` that matches.
pub open spec fn first_match(
    tag: Seq<char>,
    attrs: Map<Seq<char>, Seq<char>>,
    sels: Seq<SelectorModel>,
) -> Option<SelectorModel>
    decreases sels.len(),
{
    if sels.len() == 0 {
        None
    } else if matches_simple(tag, attrs, sels[0]) {
        Some(sels[0])
    } else {
        first_match(tag, attrs, sels.drop_first())
    }
}

/// The rules that match, in source order, each with the specificity of its
/// first matching selector.
pub open spec fn matched(
    tag: Seq<char>,
    attrs: Map<Seq<char>, Seq<char>>,
    rules: Seq<RuleModel>,
) -> Seq<((int, int, int), RuleModel)>
    decreases rules.len(),
{
    if rules.len() == 0 {
        Seq::empty()
    } else {
        let m = matched(tag, attrs, rules.drop_last());
        match first_match(tag, attrs, rules.last().selectors) {
            Some(sel) => m.push((specificity_of(sel), rules.last())),
            None => m,
        }
    }
}

/// `x` placed into `q` after every entry of no greater specificity.
pub open spec fn insert_asc(
    q: Seq<((int, int, int), RuleModel)>,
    x: ((int, int, int), RuleModel),
) -> Seq<((int, int, int), RuleModel)>
    decreases q.len(),
{
    if q.len() == 0 {
        seq![x]
    } else if spec_less(x.0, q[0].0) {
        seq![x] + q
    } else {
        seq![q[0]] + insert_asc(q.drop_first(), x)
    }
}

/// `q` ordered by ascending specificity; equally specific entries keep their
/// order.
pub open spec fn sort_asc(q: Seq<((int, int, int), RuleModel)>) -> Seq<((int, int, int), RuleModel)>
    decreases q.len(),
{
    if q.len() == 0 {
        q
    } else {
        insert_asc(sort_asc(q.drop_last()), q.last())
    }
}

/// `m` with each declaration of `ds` written over it, in order.
pub open spec fn apply_decls(m: Map<Seq<char>, ValueModel>, ds: Seq<DeclarationModel>) -> Map<
    Seq<char>,
    ValueModel,
>
    decreases ds.len(),
{
    if ds.len() == 0 {
        m
    } else {
        apply_decls(m, ds.drop_last()).insert(ds.last().name, ds.last().value)
    }
}

/// `m` with the declarations of each rule of `q` written over it, in order.
pub open spec fn apply_rules(m: Map<Seq<char>, ValueModel>, q: Seq<((int, int, int), RuleModel)>) -> Map<
    Seq<char>,
    ValueModel,
>
    decreases q.len(),
{
    if q.len() == 0 {
        m
    } else {
        apply_decls(apply_rules(m, q.drop_last()), q.last().1.declarations)
    }
}

/// The specified values of an element: the declarations of the matching
/// rules, from the least specific rule to the most specific, later rules
/// winning among equals.
pub open spec fn cascade(
    tag: Seq<char>,
    attrs: Map<Seq<char>, Seq<char>>,
    rules: Seq<RuleModel>,
) -> Map<Seq<char>, ValueModel> {
    apply_rules(Map::empty(), sort_asc(matched(tag, attrs, rules)))
}

/// The specified values of a node: none for text.
pub open spec fn node_values(n: Node, rules: Seq<RuleModel>) -> Map<Seq<char>, ValueModel> {
    match n.node_type {
        NodeType::Element(e) => cascade(e.tag_name@, e.attributes.view(), rules),
        NodeType::Text(_) => Map::empty(),
    }
}

/// Whether `r` styles the tree under `n`: it refers to `n`, holds `n`'s
/// specified values, and has one child for each child of `n`, in order, each
/// styling that child.
pub open spec fn styles(r: StyledNode, n: Node, rules: Seq<RuleModel>) -> bool
    decreases n, n.children.len() + 1,
{
    &&& *r.node == n
    &&& r.specified_values.view() == node_values(n, rules)
    &&& r.children.len() == n.children.len()
    &&& styles_prefix(r.children@, n, n.children.len() as int, rules)
}

/// Whether the first `k` nodes of `rs` style the first `k` children of `n`.
pub open spec fn styles_prefix(rs: Seq<StyledNode>, n: Node, k: int, rules: Seq<RuleModel>) -> bool
    decreases n, k,
{
    if k <= 0 {
        true
    } else if k > n.children.len() || k > rs.len() {
        false
    } else {
        styles_prefix(rs, n, k - 1, rules) && styles(rs[k - 1], n.children@[k - 1], rules)
    }
}

proof fn lemma_prefix_extend(rs: Seq<StyledNode>, n: Node, k: int, rules: Seq<RuleModel>, x: StyledNode)
    requires
        0 <= k <= rs.len(),
        styles_prefix(rs, n, k, rules),
    ensures
        styles_prefix(rs.push(x), n, k, rules),
    decreases k,
{
    if k > 0 {
        lemma_prefix_extend(rs, n, k - 1, rules, x);
    }
}

proof fn lemma_prefix_each(rs: Seq<StyledNode>, n: Node, k: int, rules: Seq<RuleModel>)
    requires
        styles_prefix(rs, n, k, rules),
    ensures
        forall|i: int| 0 <= i < k ==> #[trigger] styles(rs[i], n.children@[i], rules),
    decreases k,
{
    if k > 0 {
        lemma_prefix_each(rs, n, k - 1, rules);
    }
}

/// The styled tree has the document tree's shape: as many children as the
/// node it refers to, in the same order, each styling the child at its
/// position, at every level.
pub proof fn lemma_styled_shape(r: StyledNode, n: Node, rules: Seq<RuleModel>)
    requires
        styles(r, n, rules),
    ensures
        *r.node == n,
        r.children.len() == n.children.len(),
        forall|i: int| 0 <= i < n.children.len() ==> #[trigger] styles(r.children@[i], n.children@[i], rules),
{
    lemma_prefix_each(r.children@, n, n.children.len() as int, rules);
}

/// Whether some declaration of `ds` sets property `name`.
pub open spec fn declares(ds: Seq<DeclarationModel>, name: Seq<char>) -> bool {
    exists|i: int| 0 <= i < ds.len() && ds[i].name == name
}

/// The value that the last declaration of `name` in `ds` gives it.
pub open spec fn last_value(ds: Seq<DeclarationModel>, name: Seq<char>) -> ValueModel
    decreases ds.len(),
{
    if ds.len() == 0 {
        arbitrary()
    } else if ds.last().name == name {
        ds.last().value
    } else {
        last_value(ds.drop_last(), name)
    }
}

proof fn lemma_apply_decls_last(m: Map<Seq<char>, ValueModel>, ds: Seq<DeclarationModel>, name: Seq<char>)
    requires
        declares(ds, name),
    ensures
        apply_decls(m, ds).contains_key(name),
        apply_decls(m, ds)[name] == last_value(ds, name),
    decreases ds.len(),
{
    if ds.last().name != name {
        let i = choose|i: int| 0 <= i < ds.len() && ds[i].name == name;
        assert(ds.drop_last()[i] == ds[i]);
        lemma_apply_decls_last(m, ds.drop_last(), name);
    }
}

/// Of two rules that match an element and both set a property, the more
/// specific one decides its value, whichever of them comes first in the
/// style sheet.
pub proof fn lemma_more_specific_wins(
    tag: Seq<char>,
    attrs: Map<Seq<char>, Seq<char>>,
    lo: RuleModel,
    hi: RuleModel,
    name: Seq<char>,
)
    requires
        first_match(tag, attrs, lo.selectors) is Some,
        first_match(tag, attrs, hi.selectors) is Some,
        spec_less(
            specificity_of(first_match(tag, attrs, lo.selectors)->0),
            specificity_of(first_match(tag, attrs, hi.selectors)->0),
        ),
        declares(lo.declarations, name),
        declares(hi.declarations, name),
    ensures
        cascade(tag, attrs, seq![lo, hi])[name] == last_value(hi.declarations, name),
        cascade(tag, attrs, seq![hi, lo])[name] == last_value(hi.declarations, name),
{
    let a = (specificity_of(first_match(tag, attrs, lo.selectors)->0), lo);
    let b = (specificity_of(first_match(tag, attrs, hi.selectors)->0), hi);
    let empty = Seq::<((int, int, int), RuleModel)>::empty();
    assert(seq![lo, hi].drop_last() =~= seq![lo]);
    assert(seq![hi, lo].drop_last() =~= seq![hi]);
    assert(seq![lo].drop_last() =~= Seq::<RuleModel>::empty());
    assert(seq![hi].drop_last() =~= Seq::<RuleModel>::empty());
    assert(matched(tag, attrs, Seq::<RuleModel>::empty()) == empty);
    assert(seq![lo].last() == lo && seq![hi].last() == hi);
    assert(matched(tag, attrs, seq![lo]) == empty.push(a));
    assert(matched(tag, attrs, seq![hi]) == empty.push(b));
    assert(matched(tag, attrs, seq![lo, hi]) == empty.push(a).push(b));
    assert(matched(tag, attrs, seq![hi, lo]) == empty.push(b).push(a));
    let sorted = seq![a, b];
    assert(sort_asc(empty) == empty);
    assert(insert_asc(empty, a) == seq![a]);
    assert(insert_asc(empty, b) == seq![b]);
    assert(sort_asc(empty.push(a)) =~= seq![a]) by {
        assert(empty.push(a).drop_last() =~= empty);
    }
    assert(sort_asc(empty.push(b)) =~= seq![b]) by {
        assert(empty.push(b).drop_last() =~= empty);
    }
    assert(sort_asc(empty.push(a).push(b)) =~= sorted) by {
        assert(empty.push(a).push(b).drop_last() =~= empty.push(a));
        assert(seq![a].drop_first() =~= empty);
        assert(insert_asc(seq![a], b) =~= seq![a] + seq![b]);
    }
    assert(sort_asc(empty.push(b).push(a)) =~= sorted) by {
        assert(empty.push(b).push(a).drop_last() =~= empty.push(b));
        assert(insert_asc(seq![b], a) =~= seq![a] + seq![b]);
    }
    assert(sorted.drop_last() =~= seq![a]);
    assert(seq![a].drop_last() =~= empty);
    let base = apply_decls(Map::empty(), lo.declarations);
    assert(apply_rules(Map::empty(), empty) == Map::<Seq<char>, ValueModel>::empty());
    assert(apply_rules(Map::empty(), seq![a]) == base);
    assert(apply_rules(Map::empty(), sorted) == apply_decls(base, hi.declarations));
    lemma_apply_decls_last(base, hi.declarations, name);
}

pub open spec fn matched_view(m: (Specificity, &Rule)) -> ((int, int, int), RuleModel) {
    (as_triple(m.0), m.1@)
}

pub open spec fn matched_views(v: Seq<(Specificity, &Rule)>) -> Seq<((int, int, int), RuleModel)> {
    v.map_values(|m: (Specificity, &Rule)| matched_view(m))
}

pub open spec fn display_key() -> Seq<char> {
    seq!['d', 'i', 's', 'p', 'l', 'a', 'y']
}

/// The display mode that a property map gives: `block` and `none` name
/// themselves, anything else is inline.
pub open spec fn display_of(m: Map<Seq<char>, ValueModel>) -> Display {
    if m.contains_key(display_key()) && m[display_key()] is Keyword {
        let k = m[display_key()]->Keyword_0;
        if k == seq!['b', 'l', 'o', 'c', 'k'] {
            Display::Block
        } else if k == seq!['n', 'o', 'n', 'e'] {
            Display::Hidden
        } else {
            Display::Inline
        }
    } else {
        Display::Inline
    }
}

/// Styles the tree under `root`.
pub fn style_tree<'a>(root: &'a Node, stylesheet: &'a Stylesheet) -> (r: StyledNode<'a>)
    ensures
        styles(r, *root, stylesheet@),
    decreases root,
{
    let specified_values = match &root.node_type {
        NodeType::Element(elem) => specified_values(elem, stylesheet),
        NodeType::Text(_) => {
            let m = NameMap::new();
            m
        },
    };
    let mut children: Vec<StyledNode<'a>> = Vec::new();
    let mut i: usize = 0;
    while i < root.children.len()
        invariant
            i <= root.children.len(),
            children.len() == i,
            styles_prefix(children@, *root, i as int, stylesheet@),
        decreases root.children.len() - i,
    {
        let child = style_tree(&root.children[i], stylesheet);
        proof {
            lemma_prefix_extend(children@, *root, i as int, stylesheet@, child);
        }
        children.push(child);
        i = i + 1;
    }
    let r = StyledNode { node: root, specified_values, children };
    r
}

/// The values that apply to one element.
fn specified_values(elem: &ElementData, stylesheet: &Stylesheet) -> (r: PropertyMap)
    ensures
        r.view() == cascade(elem.tag_name@, elem.attributes.view(), stylesheet@),
{
    let rules = sort_matched(matching_rules(elem, stylesheet));
    let ghost q = matched_views(rules@);
    let mut values: PropertyMap = NameMap::new();
    let mut i: usize = 0;
    assert(q.take(0) =~= Seq::<((int, int, int), RuleModel)>::empty());
    while i < rules.len()
        invariant
            i <= rules.len(),
            q == matched_views(rules@),
            values.view() == apply_rules(Map::empty(), q.take(i as int)),
        decreases rules.len() - i,
    {
        let rule = rules[i].1;
        let ghost base = values.view();
        let ghost ds = declaration_views(rule.declarations@);
        assert(q[i as int].1.declarations == ds);
        let mut j: usize = 0;
        assert(ds.take(0) =~= Seq::<DeclarationModel>::empty());
        while j < rule.declarations.len()
            invariant
                j <= rule.declarations.len(),
                ds == declaration_views(rule.declarations@),
                values.view() == apply_decls(base, ds.take(j as int)),
            decreases rule.declarations.len() - j,
        {
            let declaration = &rule.declarations[j];
            values.insert(declaration.name.clone(), declaration.value.duplicate());
            assert(ds.take(j + 1).drop_last() =~= ds.take(j as int));
            j = j + 1;
        }
        assert(ds.take(j as int) =~= ds);
        assert(q.take(i + 1).drop_last() =~= q.take(i as int));
        i = i + 1;
    }
    assert(q.take(i as int) =~= q);
    values
}

proof fn lemma_insert_asc_at(
    q: Seq<((int, int, int), RuleModel)>,
    x: ((int, int, int), RuleModel),
    p: int,
)
    requires
        0 <= p <= q.len(),
        forall|k: int| 0 <= k < p ==> !spec_less(x.0, (#[trigger] q[k]).0),
        p < q.len() ==> spec_less(x.0, q[p].0),
    ensures
        insert_asc(q, x) == q.insert(p, x),
    decreases q.len(),
{
    if q.len() == 0 {
        assert(q.insert(p, x) =~= seq![x]);
    } else if p == 0 {
        assert(q.insert(p, x) =~= seq![x] + q);
    } else {
        assert(!spec_less(x.0, q[0].0));
        lemma_insert_asc_at(q.drop_first(), x, p - 1);
        assert(q.insert(p, x) =~= seq![q[0]] + q.drop_first().insert(p - 1, x));
    }
}

/// Orders matched rules by ascending specificity, keeping source order among
/// equals.
fn sort_matched<'a>(v: Vec<(Specificity, &'a Rule)>) -> (r: Vec<(Specificity, &'a Rule)>)
    ensures
        matched_views(r@) == sort_asc(matched_views(v@)),
{
    let ghost orig = matched_views(v@);
    let mut rest = v;
    let mut sorted: Vec<(Specificity, &'a Rule)> = Vec::new();
    let ghost mut n: int = 0;
    assert(orig.take(0) =~= Seq::<((int, int, int), RuleModel)>::empty());
    while rest.len() > 0
        invariant
            0 <= n <= orig.len(),
            matched_views(rest@) == orig.skip(n),
            matched_views(sorted@) == sort_asc(orig.take(n)),
        decreases rest.len(),
    {
        let ghost rest0 = rest@;
        let x = rest.remove(0);
        let ghost xs = matched_views(sorted@);
        assert(matched_views(rest0).len() == rest0.len());
        assert(orig.skip(n)[0] == matched_views(rest0)[0]);
        assert(orig.skip(n)[0] == orig[n]);
        assert(orig[n] == matched_view(x));
        assert(matched_views(rest@) =~= orig.skip(n + 1)) by {
            assert(rest@ =~= rest0.drop_first());
            assert forall|i: int| 0 <= i < rest@.len() implies matched_views(rest@)[i] == orig.skip(
                n + 1,
            )[i] by {
                assert(matched_views(rest0)[i + 1] == matched_view(rest0[i + 1]));
                assert(orig.skip(n)[i + 1] == orig[n + 1 + i]);
            }
        }
        let mut p: usize = 0;
        while p < sorted.len() && !specificity_less(x.0, sorted[p].0)
            invariant
                p <= sorted.len(),
                xs == matched_views(sorted@),
                0 <= n < orig.len(),
                orig[n] == matched_view(x),
                matched_views(rest@) == orig.skip(n + 1),
                xs == sort_asc(orig.take(n)),
                forall|k: int| 0 <= k < p ==> !spec_less(as_triple(x.0), (#[trigger] xs[k]).0),
            decreases sorted.len() - p,
        {
            p = p + 1;
        }
        proof {
            lemma_insert_asc_at(xs, matched_view(x), p as int);
            assert(orig.take(n + 1).drop_last() =~= orig.take(n));
        }
        sorted.insert(p, x);
        proof {
            assert(matched_views(sorted@) =~= xs.insert(p as int, matched_view(x)));
            n = n + 1;
        }
    }
    assert(orig.take(n) =~= orig);
    sorted
}

/// The rules that match `elem`, in source order, each with the specificity
/// of its most specific matching selector.
fn matching_rules<'a>(elem: &ElementData, stylesheet: &'a Stylesheet) -> (r: Vec<(Specificity, &'a Rule)>)
    ensures
        matched_views(r@) == matched(elem.tag_name@, elem.attributes.view(), stylesheet@),
{
    let ghost tag = elem.tag_name@;
    let ghost attrs = elem.attributes.view();
    let ghost all = stylesheet@;
    let mut found: Vec<(Specificity, &'a Rule)> = Vec::new();
    let mut i: usize = 0;
    assert(all.take(0) =~= Seq::<RuleModel>::empty());
    assert(matched_views(found@) =~= Seq::empty());
    while i < stylesheet.rules.len()
        invariant
            i <= stylesheet.rules.len(),
            all == rule_views(stylesheet.rules@),
            tag == elem.tag_name@,
            attrs == elem.attributes.view(),
            all.len() == stylesheet.rules.len(),
            matched_views(found@) == matched(tag, attrs, all.take(i as int)),
        decreases stylesheet.rules.len() - i,
    {
        let rule = &stylesheet.rules[i];
        assert(all.take(i + 1).drop_last() =~= all.take(i as int));
        assert(all.take(i + 1).last() == rule@);
        let ghost found0 = found@;
        match match_rule(elem, rule) {
            Some(m) => {
                found.push(m);
                assert(matched_views(found@) =~= matched_views(found0).push(matched_view(m)));
            },
            None => {},
        }
        i = i + 1;
    }
    assert(all.take(i as int) =~= all);
    found
}

/// The rule with the specificity of its first matching selector, if one
/// matches.
fn match_rule<'a>(elem: &ElementData, rule: &'a Rule) -> (r: Option<(Specificity, &'a Rule)>)
    ensures
        match first_match(elem.tag_name@, elem.attributes.view(), rule@.selectors) {
            Some(sel) => r is Some && matched_view(r->Some_0) == (specificity_of(sel), rule@),
            None => r is None,
        },
{
    let ghost tag = elem.tag_name@;
    let ghost attrs = elem.attributes.view();
    let ghost sels = rule@.selectors;
    let mut i: usize = 0;
    assert(sels.skip(0) =~= sels);
    while i < rule.selectors.len()
        invariant
            i <= rule.selectors.len(),
            sels == rule@.selectors,
            tag == elem.tag_name@,
            attrs == elem.attributes.view(),
            sels.len() == rule.selectors.len(),
            first_match(tag, attrs, sels) == first_match(tag, attrs, sels.skip(i as int)),
        decreases rule.selectors.len() - i,
    {
        let selector = &rule.selectors[i];
        assert(sels[i as int] == selector@);
        assert(sels.skip(i as int)[0] == selector@);
        assert(sels.skip(i as int).drop_first() =~= sels.skip(i + 1));
        let ghost rest = sels.skip(i as int);
        assert(rest.len() > 0);
        if matches(elem, selector) {
            assert(first_match(tag, attrs, rest) == Some(selector@));
            return Some((selector.specificity(), rule));
        }
        assert(first_match(tag, attrs, rest) == first_match(tag, attrs, rest.drop_first()));
        i = i + 1;
    }
    assert(sels.skip(i as int) =~= Seq::<SelectorModel>::empty());
    None
}

/// Whether `selector` matches `elem`.
pub fn matches(elem: &ElementData, selector: &Selector) -> (r: bool)
    ensures
        r == matches_simple(elem.tag_name@, elem.attributes.view(), selector@),
{
    match selector {
        Selector::Simple(simple) => matches_simple_selector(elem, simple),
    }
}

/// Whether `s` is one of `v`.
fn contains_string(v: &Vec<String>, s: &String) -> (r: bool)
    ensures
        r == string_views(v@).contains(s@),
{
    let mut i: usize = 0;
    while i < v.len()
        invariant
            i <= v.len(),
            forall|j: int| 0 <= j < i ==> v@[j]@ != s@,
        decreases v.len() - i,
    {
        if v[i] == *s {
            assert(string_views(v@)[i as int] == s@);
            return true;
        }
        i = i + 1;
    }
    assert(!string_views(v@).contains(s@)) by {
        if string_views(v@).contains(s@) {
            let j = choose|j: int| 0 <= j < string_views(v@).len() && string_views(v@)[j] == s@;
            assert(v@[j]@ == s@);
        }
    }
    false
}

/// Whether each component that `selector` has matches `elem`.
pub fn matches_simple_selector(elem: &ElementData, selector: &SimpleSelector) -> (r: bool)
    ensures
        r == matches_simple(elem.tag_name@, elem.attributes.view(), selector@),
{
    if let Some(name) = &selector.tag_name {
        if elem.tag_name != *name {
            return false;
        }
    }
    if let Some(id) = &selector.id {
        match elem.id() {
            Some(own) => if *own != *id {
                return false;
            },
            None => return false,
        }
    }
    let elem_classes = elem.classes();
    let ghost sel = selector@;
    let mut k: usize = 0;
    while k < selector.class.len()
        invariant
            k <= selector.class.len(),
            sel == selector@,
            string_views(elem_classes@) == class_list(elem.attributes.view()),
            forall|j: int| 0 <= j < k ==> class_list(elem.attributes.view()).contains(#[trigger] sel.classes[j]),
        decreases selector.class.len() - k,
    {
        assert(sel.classes[k as int] == selector.class@[k as int]@);
        if !contains_string(&elem_classes, &selector.class[k]) {
            return false;
        }
        k = k + 1;
    }
    true
}

impl<'a> StyledNode<'a> {
    /// The specified value of property `name`, if any.
    pub fn value(&self, name: &str) -> (r: Option<Value>)
        ensures
            match r {
                Some(v) => self.specified_values.view().contains_key(name@)
                    && self.specified_values.view()[name@] == v@,
                None => !self.specified_values.view().contains_key(name@),
            },
    {
        let key = name.to_owned();
        match self.specified_values.get(&key) {
            Some(v) => Some(v.duplicate()),
            None => None,
        }
    }

    /// The value of property `name`, else of `fallback_name`, else `default`.
    pub fn lookup(&self, name: &str, fallback_name: &str, default: &Value) -> (r: Value)
        ensures
            r@ == (if self.specified_values.view().contains_key(name@) {
                self.specified_values.view()[name@]
            } else if self.specified_values.view().contains_key(fallback_name@) {
                self.specified_values.view()[fallback_name@]
            } else {
                default@
            }),
    {
        match self.value(name) {
            Some(v) => v,
            None => match self.value(fallback_name) {
                Some(v) => v,
                None => default.duplicate(),
            },
        }
    }

    /// The display mode, inline unless `display` says `block` or `none`.
    pub fn display(&self) -> (r: Display)
        ensures
            r == display_of(self.specified_values.view()),
    {
        let key = crate::chars::string_of(&vec!['d', 'i', 's', 'p', 'l', 'a', 'y']);
        assert(key@ =~= display_key());
        match self.specified_values.get(&key) {
            Some(Value::Keyword(s)) => {
                let block = crate::chars::string_of(&vec!['b', 'l', 'o', 'c', 'k']);
                let none = crate::chars::string_of(&vec!['n', 'o', 'n', 'e']);
                assert(block@ =~= seq!['b', 'l', 'o', 'c', 'k']);
                assert(none@ =~= seq!['n', 'o', 'n', 'e']);
                if *s == block {
                    Display::Block
                } else if *s == none {
                    Display::Hidden
                } else {
                    Display::Inline
                }
            },
            _ => Display::Inline,
        }
    }
}

} // verus!
