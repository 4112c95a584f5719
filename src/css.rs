//! The style model and the style-sheet parser.

use vstd::prelude::*;
use vstd::multiset::Multiset;
use crate::chars::chars_of;
use crate::cursor::{char_at, expect, identifier_char, lemma_scan, scan, CharClass, Cursor};
use crate::dom::string_views;
use crate::ParseError;

verus! {

/// Rules in source order.
#[derive(Debug, PartialEq)]
pub struct Stylesheet {
    pub rules: Vec<Rule>,
}

/// Selectors, most specific first, and the declarations they bring.
#[derive(Debug, PartialEq)]
pub struct Rule {
    pub selectors: Vec<Selector>,
    pub declarations: Vec<Declaration>,
}

/// A selector; simple selectors are the one kind so far.
#[derive(Debug, PartialEq)]
pub enum Selector {
    Simple(SimpleSelector),
}

/// An optional tag name, an optional id and any number of class names.
#[derive(Debug, PartialEq)]
pub struct SimpleSelector {
    pub tag_name: Option<String>,
    pub id: Option<String>,
    pub class: Vec<String>,
}

/// A property and its value.
#[derive(Debug, PartialEq)]
pub struct Declaration {
    pub name: String,
    pub value: Value,
}

/// A specified value. A length keeps its number as written: decimal digits
/// with at most one decimal point.
#[derive(Debug, PartialEq, Clone)]
pub enum Value {
    Keyword(String),
    Length(String, Unit),
    ColorValue(Color),
}

/// Length units; pixels are the one unit so far.
#[derive(Debug, PartialEq, Eq, Clone, Copy, Structural)]
pub enum Unit {
    Px,
}

/// An RGBA colour.
#[derive(Debug, Clone, Copy, PartialEq, Eq, Structural)]
pub struct Color {
    pub r: u8,
    pub g: u8,
    pub b: u8,
    pub a: u8,
}

/// Counts of ids, classes and tag names; compared lexicographically.
pub type Specificity = (usize, usize, usize);

pub open spec fn opt_view(o: Option<String>) -> Option<Seq<char>> {
    match o {
        Some(s) => Some(s@),
        None => None,
    }
}

/// A simple selector as mathematical values.
pub struct SelectorModel {
    pub tag: Option<Seq<char>>,
    pub id: Option<Seq<char>>,
    pub classes: Seq<Seq<char>>,
}

/// A value as mathematical values.
pub enum ValueModel {
    Keyword(Seq<char>),
    Length(Seq<char>, Unit),
    ColorValue(Color),
}

/// A declaration as mathematical values.
pub struct DeclarationModel {
    pub name: Seq<char>,
    pub value: ValueModel,
}

/// A rule as mathematical values.
pub struct RuleModel {
    pub selectors: Seq<SelectorModel>,
    pub declarations: Seq<DeclarationModel>,
}

impl View for SimpleSelector {
    type V = SelectorModel;

    open spec fn view(&self) -> SelectorModel {
        SelectorModel {
            tag: opt_view(self.tag_name),
            id: opt_view(self.id),
            classes: string_views(self.class@),
        }
    }
}

impl View for Selector {
    type V = SelectorModel;

    open spec fn view(&self) -> SelectorModel {
        match self {
            Selector::Simple(s) => s@,
        }
    }
}

impl View for Value {
    type V = ValueModel;

    open spec fn view(&self) -> ValueModel {
        match self {
            Value::Keyword(k) => ValueModel::Keyword(k@),
            Value::Length(n, u) => ValueModel::Length(n@, *u),
            Value::ColorValue(c) => ValueModel::ColorValue(*c),
        }
    }
}

impl View for Declaration {
    type V = DeclarationModel;

    open spec fn view(&self) -> DeclarationModel {
        DeclarationModel { name: self.name@, value: self.value@ }
    }
}

pub open spec fn selector_views(v: Seq<Selector>) -> Seq<SelectorModel> {
    v.map_values(|x: Selector| x@)
}

pub open spec fn declaration_views(v: Seq<Declaration>) -> Seq<DeclarationModel> {
    v.map_values(|x: Declaration| x@)
}

impl View for Rule {
    type V = RuleModel;

    open spec fn view(&self) -> RuleModel {
        RuleModel {
            selectors: selector_views(self.selectors@),
            declarations: declaration_views(self.declarations@),
        }
    }
}

pub open spec fn rule_views(v: Seq<Rule>) -> Seq<RuleModel> {
    v.map_values(|x: Rule| x@)
}

impl View for Stylesheet {
    type V = Seq<RuleModel>;

    open spec fn view(&self) -> Seq<RuleModel> {
        rule_views(self.rules@)
    }
}

impl crate::name_map::SameValue for Value {
    fn same_value(&self, other: &Self) -> (r: bool) {
        match (self, other) {
            (Value::Keyword(a), Value::Keyword(b)) => *a == *b,
            (Value::Length(a, u), Value::Length(b, w)) => *a == *b && *u == *w,
            (Value::ColorValue(a), Value::ColorValue(b)) => *a == *b,
            _ => false,
        }
    }
}

impl Value {
    /// A copy of the value.
    pub fn duplicate(&self) -> (r: Value)
        ensures
            r@ == self@,
    {
        match self {
            Value::Keyword(k) => Value::Keyword(k.clone()),
            Value::Length(n, u) => Value::Length(n.clone(), *u),
            Value::ColorValue(c) => Value::ColorValue(*c),
        }
    }
}

/// The specificity of a selector: (ids, classes, tag names).
pub open spec fn specificity_of(m: SelectorModel) -> (int, int, int) {
    (
        if m.id is Some { 1int } else { 0int },
        m.classes.len() as int,
        if m.tag is Some { 1int } else { 0int },
    )
}

/// Lexicographic order on specificities.
pub open spec fn spec_less(a: (int, int, int), b: (int, int, int)) -> bool {
    a.0 < b.0 || (a.0 == b.0 && (a.1 < b.1 || (a.1 == b.1 && a.2 < b.2)))
}

pub open spec fn as_triple(s: Specificity) -> (int, int, int) {
    (s.0 as int, s.1 as int, s.2 as int)
}

/// Whether specificity `a` is lower than `b`.
pub fn specificity_less(a: Specificity, b: Specificity) -> (r: bool)
    ensures
        r == spec_less(as_triple(a), as_triple(b)),
{
    a.0 < b.0 || (a.0 == b.0 && (a.1 < b.1 || (a.1 == b.1 && a.2 < b.2)))
}

impl Selector {
    /// The selector's (ids, classes, tag names) counts.
    pub fn specificity(&self) -> (r: Specificity)
        ensures
            as_triple(r) == specificity_of(self@),
    {
        let Selector::Simple(simple) = self;
        let a: usize = if simple.id.is_some() { 1 } else { 0 };
        let b: usize = simple.class.len();
        let c: usize = if simple.tag_name.is_some() { 1 } else { 0 };
        (a, b, c)
    }
}

/// The value of a hexadecimal digit.
pub open spec fn hex_value(c: char) -> int {
    if '0' <= c && c <= '9' {
        c as int - '0' as int
    } else if 'a' <= c && c <= 'f' {
        c as int - 'a' as int + 10
    } else {
        c as int - 'A' as int + 10
    }
}

pub open spec fn is_hex(c: char) -> bool {
    ('0' <= c && c <= '9') || ('a' <= c && c <= 'f') || ('A' <= c && c <= 'F')
}

/// Two hexadecimal digits at `i` and the position after them.
pub open spec fn hex_pair_at(s: Seq<char>, i: int) -> Result<(u8, int), ParseError> {
    if i < 0 || i + 2 > s.len() {
        Err(ParseError::UnexpectedEnd)
    } else if !is_hex(s[i]) || !is_hex(s[i + 1]) {
        Err(ParseError::MalformedHex)
    } else {
        Ok(((hex_value(s[i]) * 16 + hex_value(s[i + 1])) as u8, i + 2))
    }
}

/// Whether a numeric token holds at most one decimal point.
pub open spec fn number_ok(t: Seq<char>) -> bool {
    forall|i: int, j: int| 0 <= i < j < t.len() && t[i] == '.' ==> t[j] != '.'
}

/// Whether a unit name is `px`, in any case.
pub open spec fn is_px(u: Seq<char>) -> bool {
    u.len() == 2 && (u[0] == 'p' || u[0] == 'P') && (u[1] == 'x' || u[1] == 'X')
}

/// `c` with ASCII capitals made small.
pub open spec fn ascii_lower_char(c: char) -> char {
    if 'A' <= c && c <= 'Z' {
        ((c as u32) + 32) as char
    } else {
        c
    }
}

/// `u` with ASCII capitals made small.
pub open spec fn ascii_lower(u: Seq<char>) -> Seq<char> {
    u.map_values(|c: char| ascii_lower_char(c))
}

/// A unit name is `px` in any case exactly when its ASCII lower case is `px`.
pub proof fn lemma_px_lowercase(u: Seq<char>)
    ensures
        is_px(u) == (ascii_lower(u) == seq!['p', 'x']),
{
    if ascii_lower(u) == seq!['p', 'x'] {
        assert(ascii_lower(u).len() == 2);
        assert(ascii_lower_char(u[0]) == 'p');
        assert(ascii_lower_char(u[1]) == 'x');
    }
    if is_px(u) {
        assert(ascii_lower(u) =~= seq!['p', 'x']);
    }
}

/// The colour `#rrggbb` whose `#` stands at `i`, and the position after it.
pub open spec fn color_at(s: Seq<char>, i: int) -> Result<(ValueModel, int), ParseError> {
    match expect(s, i, '#') {
        Err(e) => Err(e),
        Ok(p) => match hex_pair_at(s, p) {
            Err(e) => Err(e),
            Ok((r, after_r)) => match hex_pair_at(s, after_r) {
                Err(e) => Err(e),
                Ok((g, after_g)) => match hex_pair_at(s, after_g) {
                    Err(e) => Err(e),
                    Ok((b, end)) => Ok((ValueModel::ColorValue(Color { r, g, b, a: 255 }), end)),
                },
            },
        },
    }
}

/// The length that starts at `i`, and the position after its unit.
pub open spec fn length_at(s: Seq<char>, i: int) -> Result<(ValueModel, int), ParseError> {
    let k = scan(s, i, CharClass::Numeric);
    if !number_ok(s.subrange(i, k)) {
        Err(ParseError::MalformedNumber)
    } else {
        let u = scan(s, k, CharClass::Identifier);
        if !is_px(s.subrange(k, u)) {
            Err(ParseError::UnknownUnit)
        } else {
            Ok((ValueModel::Length(s.subrange(i, k), Unit::Px), u))
        }
    }
}

/// The value that starts at `i`, and the position after it.
pub open spec fn value_at(s: Seq<char>, i: int) -> Result<(ValueModel, int), ParseError> {
    if i < 0 || i >= s.len() {
        Err(ParseError::UnexpectedEnd)
    } else if '0' <= s[i] && s[i] <= '9' {
        length_at(s, i)
    } else if s[i] == '#' {
        color_at(s, i)
    } else {
        let k = scan(s, i, CharClass::Identifier);
        Ok((ValueModel::Keyword(s.subrange(i, k)), k))
    }
}

pub open spec fn no_selector() -> SelectorModel {
    SelectorModel { tag: None, id: None, classes: Seq::empty() }
}

/// The simple selector whose components run from `i`, added to `acc`, and
/// the position after it.
pub open spec fn simple_from(s: Seq<char>, i: int, acc: SelectorModel) -> (SelectorModel, int)
    decreases s.len() - i,
{
    if i < 0 || i >= s.len() {
        (acc, i)
    } else if s[i] == '#' {
        let k = scan(s, i + 1, CharClass::Identifier);
        proof {
            lemma_scan(s, i + 1, CharClass::Identifier);
        }
        simple_from(
            s,
            k,
            SelectorModel { tag: acc.tag, id: Some(s.subrange(i + 1, k)), classes: acc.classes },
        )
    } else if s[i] == '.' {
        let k = scan(s, i + 1, CharClass::Identifier);
        proof {
            lemma_scan(s, i + 1, CharClass::Identifier);
        }
        simple_from(
            s,
            k,
            SelectorModel {
                tag: acc.tag,
                id: acc.id,
                classes: acc.classes.push(s.subrange(i + 1, k)),
            },
        )
    } else if s[i] == '*' {
        simple_from(s, i + 1, acc)
    } else if identifier_char(s[i]) {
        let k = scan(s, i, CharClass::Identifier);
        proof {
            lemma_scan(s, i, CharClass::Identifier);
        }
        simple_from(
            s,
            k,
            SelectorModel { tag: Some(s.subrange(i, k)), id: acc.id, classes: acc.classes },
        )
    } else {
        (acc, i)
    }
}

/// A simple selector ends between where it starts and the end of input.
pub proof fn lemma_simple_from(s: Seq<char>, i: int, acc: SelectorModel)
    requires
        0 <= i <= s.len(),
    ensures
        i <= simple_from(s, i, acc).1 <= s.len(),
    decreases s.len() - i,
{
    if i < s.len() {
        if s[i] == '#' || s[i] == '.' {
            lemma_scan(s, i + 1, CharClass::Identifier);
            let k = scan(s, i + 1, CharClass::Identifier);
            if s[i] == '#' {
                lemma_simple_from(
                    s,
                    k,
                    SelectorModel { tag: acc.tag, id: Some(s.subrange(i + 1, k)), classes: acc.classes },
                );
            } else {
                lemma_simple_from(
                    s,
                    k,
                    SelectorModel {
                        tag: acc.tag,
                        id: acc.id,
                        classes: acc.classes.push(s.subrange(i + 1, k)),
                    },
                );
            }
        } else if s[i] == '*' {
            lemma_simple_from(s, i + 1, acc);
        } else if identifier_char(s[i]) {
            lemma_scan(s, i, CharClass::Identifier);
            let k = scan(s, i, CharClass::Identifier);
            lemma_simple_from(
                s,
                k,
                SelectorModel { tag: Some(s.subrange(i, k)), id: acc.id, classes: acc.classes },
            );
        }
    }
}

/// The comma-separated selectors from `i`, appended to `acc` in source
/// order, and the position of the `{` that ends them.
pub open spec fn selectors_from(s: Seq<char>, i: int, acc: Seq<SelectorModel>) -> Result<
    (Seq<SelectorModel>, int),
    ParseError,
>
    decreases s.len() - i,
{
    if i < 0 || i > s.len() {
        Err(ParseError::UnexpectedEnd)
    } else {
        let (sel, j) = simple_from(s, i, no_selector());
        proof {
            lemma_simple_from(s, i, no_selector());
            lemma_scan(s, j, CharClass::Whitespace);
        }
        let k = scan(s, j, CharClass::Whitespace);
        if k >= s.len() {
            Err(ParseError::UnexpectedEnd)
        } else if s[k] == ',' {
            proof {
                lemma_scan(s, k + 1, CharClass::Whitespace);
            }
            selectors_from(s, scan(s, k + 1, CharClass::Whitespace), acc.push(sel))
        } else if s[k] == '{' {
            Ok((acc.push(sel), k))
        } else {
            Err(ParseError::UnexpectedChar)
        }
    }
}

/// `x` placed into `q` after every selector at least as specific.
pub open spec fn insert_desc(q: Seq<SelectorModel>, x: SelectorModel) -> Seq<SelectorModel>
    decreases q.len(),
{
    if q.len() == 0 {
        seq![x]
    } else if spec_less(specificity_of(q[0]), specificity_of(x)) {
        seq![x] + q
    } else {
        seq![q[0]] + insert_desc(q.drop_first(), x)
    }
}

/// `q` ordered by descending specificity; equally specific selectors keep
/// their order.
pub open spec fn sort_desc(q: Seq<SelectorModel>) -> Seq<SelectorModel>
    decreases q.len(),
{
    if q.len() == 0 {
        q
    } else {
        insert_desc(sort_desc(q.drop_last()), q.last())
    }
}

/// Whether no selector of `q` is less specific than one after it.
pub open spec fn sorted_desc(q: Seq<SelectorModel>) -> bool {
    forall|i: int, j: int|
        0 <= i < j < q.len() ==> !spec_less(
            #[trigger] specificity_of(q[i]),
            #[trigger] specificity_of(q[j]),
        )
}

/// The selector list from `i`, most specific first, and the position of the
/// `{` after it.
pub open spec fn selector_list_at(s: Seq<char>, i: int) -> Result<
    (Seq<SelectorModel>, int),
    ParseError,
> {
    match selectors_from(s, i, Seq::empty()) {
        Err(e) => Err(e),
        Ok((list, k)) => Ok((sort_desc(list), k)),
    }
}

/// The declaration `name: value;` at `i`, and the position after it.
pub open spec fn declaration_at(s: Seq<char>, i: int) -> Result<
    (DeclarationModel, int),
    ParseError,
> {
    let n = scan(s, i, CharClass::Identifier);
    let a = scan(s, n, CharClass::Whitespace);
    match expect(s, a, ':') {
        Err(e) => Err(e),
        Ok(b) => match value_at(s, scan(s, b, CharClass::Whitespace)) {
            Err(e) => Err(e),
            Ok((v, d)) => match expect(s, scan(s, d, CharClass::Whitespace), ';') {
                Err(e) => Err(e),
                Ok(f) => Ok((DeclarationModel { name: s.subrange(i, n), value: v }, f)),
            },
        },
    }
}

/// The declarations from `i` up to a `}`, appended to `acc`, and the
/// position after the `}`.
pub open spec fn declarations_from(s: Seq<char>, i: int, acc: Seq<DeclarationModel>) -> Result<
    (Seq<DeclarationModel>, int),
    ParseError,
>
    decreases s.len() - i,
{
    let j = scan(s, i, CharClass::Whitespace);
    if j < 0 || j >= s.len() {
        Err(ParseError::UnexpectedEnd)
    } else if s[j] == '}' {
        Ok((acc, j + 1))
    } else {
        match declaration_at(s, j) {
            Err(e) => Err(e),
            // A declaration consumes input, so this first branch is never taken.
            Ok((d, k)) => if k <= i {
                Err(ParseError::UnexpectedEnd)
            } else {
                declarations_from(s, k, acc.push(d))
            },
        }
    }
}

/// The block `{ ... }` at `i`, and the position after it.
pub open spec fn block_at(s: Seq<char>, i: int) -> Result<(Seq<DeclarationModel>, int), ParseError> {
    match expect(s, i, '{') {
        Err(e) => Err(e),
        Ok(j) => declarations_from(s, j, Seq::empty()),
    }
}

/// The rule at `i`, and the position after it.
pub open spec fn rule_at(s: Seq<char>, i: int) -> Result<(RuleModel, int), ParseError> {
    match selector_list_at(s, i) {
        Err(e) => Err(e),
        Ok((sels, k)) => match block_at(s, k) {
            Err(e) => Err(e),
            Ok((decls, m)) => Ok((RuleModel { selectors: sels, declarations: decls }, m)),
        },
    }
}

/// The rules from `i` to the end of input, appended to `acc`.
pub open spec fn rules_from(s: Seq<char>, i: int, acc: Seq<RuleModel>) -> Result<
    Seq<RuleModel>,
    ParseError,
>
    decreases s.len() - i,
{
    let j = scan(s, i, CharClass::Whitespace);
    if j < 0 || j >= s.len() {
        Ok(acc)
    } else {
        match rule_at(s, j) {
            Err(e) => Err(e),
            // A rule consumes input, so this first branch is never taken.
            Ok((r, k)) => if k <= i || k > s.len() {
                Err(ParseError::UnexpectedEnd)
            } else {
                rules_from(s, k, acc.push(r))
            },
        }
    }
}

/// The style sheet that `s` describes.
pub open spec fn stylesheet(s: Seq<char>) -> Result<Seq<RuleModel>, ParseError> {
    rules_from(s, 0, Seq::empty())
}

/// Parses a whole style sheet.
pub fn parse(source: String) -> (r: Result<Stylesheet, ParseError>)
    ensures
        match stylesheet(source@) {
            Ok(m) => r is Ok && r->Ok_0@ == m,
            Err(e) => r == Err::<Stylesheet, ParseError>(e),
        },
{
    let mut parser = Parser { cur: Cursor::new(chars_of(source.as_str())) };
    match parser.parse_rules() {
        Ok(rules) => Ok(Stylesheet { rules }),
        Err(e) => Err(e),
    }
}

proof fn lemma_insert_at(q: Seq<SelectorModel>, x: SelectorModel, p: int)
    requires
        0 <= p <= q.len(),
        forall|k: int| 0 <= k < p ==> !spec_less(specificity_of(#[trigger] q[k]), specificity_of(x)),
        p < q.len() ==> spec_less(specificity_of(q[p]), specificity_of(x)),
    ensures
        insert_desc(q, x) == q.insert(p, x),
    decreases q.len(),
{
    if q.len() == 0 {
        assert(q.insert(p, x) =~= seq![x]);
    } else if p == 0 {
        assert(q.insert(p, x) =~= seq![x] + q);
    } else {
        assert(!spec_less(specificity_of(q[0]), specificity_of(x)));
        lemma_insert_at(q.drop_first(), x, p - 1);
        assert(q.insert(p, x) =~= seq![q[0]] + q.drop_first().insert(p - 1, x));
    }
}

/// Orders selectors by descending specificity, keeping the order of equally
/// specific ones.
fn sort_by_specificity(v: Vec<Selector>) -> (r: Vec<Selector>)
    ensures
        selector_views(r@) == sort_desc(selector_views(v@)),
{
    let ghost orig = selector_views(v@);
    let mut rest = v;
    let mut sorted: Vec<Selector> = Vec::new();
    let ghost mut n: int = 0;
    assert(orig.take(0) =~= Seq::<SelectorModel>::empty());
    while rest.len() > 0
        invariant
            0 <= n <= orig.len(),
            selector_views(rest@) == orig.skip(n),
            selector_views(sorted@) == sort_desc(orig.take(n)),
        decreases rest.len(),
    {
        let ghost rest0 = rest@;
        let x = rest.remove(0);
        let ghost xs = selector_views(sorted@);
        assert(selector_views(rest0).len() == rest0.len());
        assert(orig[n] == x@) by {
            assert(orig.skip(n)[0] == selector_views(rest0)[0]);
        }
        assert(selector_views(rest@) =~= orig.skip(n + 1)) by {
            assert(rest@ =~= rest0.drop_first());
            assert forall|i: int| 0 <= i < rest@.len() implies selector_views(rest@)[i] == orig.skip(
                n + 1,
            )[i] by {
                assert(selector_views(rest0)[i + 1] == rest0[i + 1]@);
                assert(orig.skip(n)[i + 1] == orig[n + 1 + i]);
            }
        }
        let sx = x.specificity();
        let mut p: usize = 0;
        while p < sorted.len() && !specificity_less(sorted[p].specificity(), sx)
            invariant
                p <= sorted.len(),
                xs == selector_views(sorted@),
                as_triple(sx) == specificity_of(x@),
                0 <= n < orig.len(),
                orig[n] == x@,
                selector_views(rest@) == orig.skip(n + 1),
                xs == sort_desc(orig.take(n)),
                forall|k: int| 0 <= k < p ==> !spec_less(specificity_of(#[trigger] xs[k]), specificity_of(x@)),
            decreases sorted.len() - p,
        {
            p = p + 1;
        }
        proof {
            lemma_insert_at(xs, x@, p as int);
            assert(orig.take(n + 1).drop_last() =~= orig.take(n));
        }
        sorted.insert(p, x);
        proof {
            assert(selector_views(sorted@) =~= xs.insert(p as int, x@));
            n = n + 1;
        }
    }
    assert(orig.take(n) =~= orig);
    sorted
}

proof fn lemma_insert_desc(q: Seq<SelectorModel>, x: SelectorModel)
    requires
        sorted_desc(q),
    ensures
        sorted_desc(insert_desc(q, x)),
        insert_desc(q, x).to_multiset() == q.to_multiset().insert(x),
    decreases q.len(),
{
    if q.len() == 0 {
        assert(seq![x].to_multiset() =~= Multiset::<SelectorModel>::empty().insert(x)) by {
            assert(seq![x] =~= Seq::<SelectorModel>::empty().push(x));
            Seq::<SelectorModel>::empty().to_multiset_ensures();
            Seq::<SelectorModel>::empty().push(x).to_multiset_ensures();
        }
        q.to_multiset_ensures();
    } else if spec_less(specificity_of(q[0]), specificity_of(x)) {
        let r = seq![x] + q;
        assert(r =~= q.insert(0, x));
        q.to_multiset_ensures();
        vstd::seq_lib::lemma_multiset_commutative(seq![x], q);
        assert(seq![x].to_multiset() =~= Multiset::<SelectorModel>::empty().insert(x)) by {
            assert(seq![x] =~= Seq::<SelectorModel>::empty().push(x));
            Seq::<SelectorModel>::empty().to_multiset_ensures();
            Seq::<SelectorModel>::empty().push(x).to_multiset_ensures();
        }
        assert(r.to_multiset() =~= q.to_multiset().insert(x));
        assert(sorted_desc(r)) by {
            assert forall|i: int, j: int| 0 <= i < j < r.len() implies !spec_less(
                #[trigger] specificity_of(r[i]),
                #[trigger] specificity_of(r[j]),
            ) by {
                if i == 0 && j > 1 {
                    assert(!spec_less(specificity_of(q[0]), specificity_of(q[j - 1])));
                }
            }
        }
    } else {
        let rest = q.drop_first();
        assert(sorted_desc(rest)) by {
            assert forall|i: int, j: int| 0 <= i < j < rest.len() implies !spec_less(
                #[trigger] specificity_of(rest[i]),
                #[trigger] specificity_of(rest[j]),
            ) by {
                assert(rest[i] == q[i + 1] && rest[j] == q[j + 1]);
            }
        }
        lemma_insert_desc(rest, x);
        let t = insert_desc(rest, x);
        let r = seq![q[0]] + t;
        vstd::seq_lib::lemma_multiset_commutative(seq![q[0]], t);
        vstd::seq_lib::lemma_multiset_commutative(seq![q[0]], rest);
        assert(q =~= seq![q[0]] + rest);
        assert(r.to_multiset() =~= q.to_multiset().insert(x));
        assert(sorted_desc(r)) by {
            assert forall|i: int, j: int| 0 <= i < j < r.len() implies !spec_less(
                #[trigger] specificity_of(r[i]),
                #[trigger] specificity_of(r[j]),
            ) by {
                if i == 0 {
                    let y = t[j - 1];
                    assert(t.to_multiset().count(y) > 0) by {
                        t.to_multiset_ensures();
                        assert(t.contains(y));
                    }
                    assert(rest.to_multiset().insert(x).count(y) > 0);
                    if y != x {
                        rest.to_multiset_ensures();
                        assert(rest.contains(y));
                        let k = choose|k: int| 0 <= k < rest.len() && rest[k] == y;
                        assert(rest[k] == q[k + 1]);
                        assert(!spec_less(specificity_of(q[0]), specificity_of(q[k + 1])));
                    }
                } else {
                    assert(r[i] == t[i - 1] && r[j] == t[j - 1]);
                }
            }
        }
    }
}

/// Sorting a selector list by specificity yields a list in which no
/// selector is less specific than one after it, holding the same selectors.
pub proof fn lemma_sort_desc(q: Seq<SelectorModel>)
    ensures
        sorted_desc(sort_desc(q)),
        sort_desc(q).to_multiset() == q.to_multiset(),
    decreases q.len(),
{
    if q.len() > 0 {
        lemma_sort_desc(q.drop_last());
        lemma_insert_desc(sort_desc(q.drop_last()), q.last());
        assert(q =~= q.drop_last().push(q.last()));
        q.drop_last().to_multiset_ensures();
    }
}

/// An id-only selector outranks a class-only one, which outranks a tag-only
/// one; so in a sorted selector list every id-only selector comes before
/// every class-only one, and every class-only one before every tag-only one.
pub proof fn lemma_specificity_order(a: SelectorModel, b: SelectorModel, c: SelectorModel, q: Seq<SelectorModel>)
    requires
        a.id is Some && a.tag is None && a.classes.len() == 0,
        b.id is None && b.tag is None && b.classes.len() > 0,
        c.id is None && c.tag is Some && c.classes.len() == 0,
    ensures
        spec_less(specificity_of(b), specificity_of(a)),
        spec_less(specificity_of(c), specificity_of(b)),
        forall|i: int, j: int|
            0 <= i < sort_desc(q).len() && 0 <= j < sort_desc(q).len() && #[trigger] sort_desc(q)[i]
                == a && #[trigger] sort_desc(q)[j] == b ==> i < j,
        forall|i: int, j: int|
            0 <= i < sort_desc(q).len() && 0 <= j < sort_desc(q).len() && #[trigger] sort_desc(q)[i]
                == b && #[trigger] sort_desc(q)[j] == c ==> i < j,
{
    lemma_sort_desc(q);
    let r = sort_desc(q);
    assert forall|i: int, j: int|
        0 <= i < r.len() && 0 <= j < r.len() && #[trigger] r[i] == a && #[trigger] r[j] == b implies i < j by {
        if j < i {
            assert(!spec_less(specificity_of(r[j]), specificity_of(r[i])));
        }
    }
    assert forall|i: int, j: int|
        0 <= i < r.len() && 0 <= j < r.len() && #[trigger] r[i] == b && #[trigger] r[j] == c implies i < j by {
        if j < i {
            assert(!spec_less(specificity_of(r[j]), specificity_of(r[i])));
        }
    }
}

/// The value of a hexadecimal digit, if `c` is one.
fn hex_digit(c: char) -> (r: Option<u8>)
    ensures
        is_hex(c) ==> r == Some((hex_value(c)) as u8),
        !is_hex(c) ==> r is None,
{
    if '0' <= c && c <= '9' {
        Some(((c as u32) - ('0' as u32)) as u8)
    } else if 'a' <= c && c <= 'f' {
        Some(((c as u32) - ('a' as u32) + 10) as u8)
    } else if 'A' <= c && c <= 'F' {
        Some(((c as u32) - ('A' as u32) + 10) as u8)
    } else {
        None
    }
}

struct Parser {
    cur: Cursor,
}

impl Parser {
    spec fn input(&self) -> Seq<char> {
        self.cur.input@
    }

    spec fn pos(&self) -> int {
        self.cur.pos as int
    }

    /// Parses two hexadecimal digits.
    fn parse_hex_pair(&mut self) -> (r: Result<u8, ParseError>)
        requires
            old(self).cur.wf(),
        ensures
            final(self).cur.wf(),
            final(self).input() == old(self).input(),
            match hex_pair_at(old(self).input(), old(self).pos()) {
                Ok((v, k)) => r == Ok::<u8, ParseError>(v) && final(self).pos() == k,
                Err(e) => r == Err::<u8, ParseError>(e),
            },
            r is Ok ==> final(self).pos() == old(self).pos() + 2,
    {
        if self.cur.input.len() < 2 || self.cur.pos > self.cur.input.len() - 2 {
            return Err(ParseError::UnexpectedEnd);
        }
        let hi = hex_digit(self.cur.input[self.cur.pos]);
        let lo = hex_digit(self.cur.input[self.cur.pos + 1]);
        match (hi, lo) {
            (Some(h), Some(l)) => {
                self.cur.pos = self.cur.pos + 2;
                proof {
                    assert(h < 16 && l < 16);
                }
                Ok(h * 16 + l)
            },
            _ => Err(ParseError::MalformedHex),
        }
    }

    fn parse_color(&mut self) -> (r: Result<Value, ParseError>)
        requires
            old(self).cur.wf(),
        ensures
            final(self).cur.wf(),
            final(self).input() == old(self).input(),
            match color_at(old(self).input(), old(self).pos()) {
                Ok((v, k)) => r is Ok && r->Ok_0@ == v && final(self).pos() == k,
                Err(e) => r == Err::<Value, ParseError>(e),
            },
            ({
                let s = old(self).input();
                let i = old(self).pos();
                char_at(s, i, '#') && i + 7 <= s.len() && (forall|k: int|
                    i + 1 <= k < i + 7 ==> is_hex(#[trigger] s[k])) ==> r is Ok && r->Ok_0@
                    == ValueModel::ColorValue(
                    Color {
                        r: (16 * hex_value(s[i + 1]) + hex_value(s[i + 2])) as u8,
                        g: (16 * hex_value(s[i + 3]) + hex_value(s[i + 4])) as u8,
                        b: (16 * hex_value(s[i + 5]) + hex_value(s[i + 6])) as u8,
                        a: 255,
                    },
                ) && final(self).pos() == i + 7
            }),
            r is Ok ==> final(self).pos() >= old(self).pos(),
    {
        if let Err(e) = self.cur.expect('#') {
            return Err(e);
        }
        let r = match self.parse_hex_pair() {
            Ok(v) => v,
            Err(e) => return Err(e),
        };
        let g = match self.parse_hex_pair() {
            Ok(v) => v,
            Err(e) => return Err(e),
        };
        let b = match self.parse_hex_pair() {
            Ok(v) => v,
            Err(e) => return Err(e),
        };
        Ok(Value::ColorValue(Color { r, g, b, a: 255 }))
    }

    /// Consumes a numeric token, which must be a decimal number.
    fn parse_float(&mut self) -> (r: Result<String, ParseError>)
        requires
            old(self).cur.wf(),
        ensures
            final(self).cur.wf(),
            final(self).input() == old(self).input(),
            final(self).pos() == scan(old(self).input(), old(self).pos(), CharClass::Numeric),
            old(self).pos() <= final(self).pos(),
            ({
                let t = old(self).input().subrange(old(self).pos(), final(self).pos());
                if number_ok(t) {
                    r is Ok && r->Ok_0@ == t
                } else {
                    r == Err::<String, ParseError>(ParseError::MalformedNumber)
                }
            }),
    {
        let start = self.cur.pos;
        let s = self.cur.consume_while(CharClass::Numeric);
        let ghost t = self.input().subrange(start as int, self.pos());
        let mut seen_point = false;
        let mut i: usize = start;
        while i < self.cur.pos
            invariant
                self.cur.wf(),
                self.input() == old(self).input(),
                start == old(self).pos(),
                self.pos() == scan(old(self).input(), old(self).pos(), CharClass::Numeric),
                start <= i <= self.cur.pos,
                t == self.input().subrange(start as int, self.pos()),
                s@ == t,
                seen_point == (exists|k: int| start <= k < i && self.input()[k] == '.'),
                forall|a: int, b: int| start <= a < b < i && self.input()[a] == '.' ==> self.input()[b] != '.',
            decreases self.cur.pos - i,
        {
            if self.cur.input[i] == '.' {
                if seen_point {
                    assert(!number_ok(t)) by {
                        let k = choose|k: int| start <= k < i && self.input()[k] == '.';
                        assert(t[k - start] == '.' && t[i - start] == '.');
                    }
                    return Err(ParseError::MalformedNumber);
                }
                seen_point = true;
            }
            i = i + 1;
        }
        assert(number_ok(t)) by {
            assert forall|a: int, b: int| 0 <= a < b < t.len() && t[a] == '.' implies t[b] != '.' by {
                assert(t[a] == self.input()[a + start]);
                assert(t[b] == self.input()[b + start]);
            }
        }
        Ok(s)
    }

    /// Parses a unit name; only `px`, in any case, is known.
    fn parse_unit(&mut self) -> (r: Result<Unit, ParseError>)
        requires
            old(self).cur.wf(),
        ensures
            final(self).cur.wf(),
            final(self).input() == old(self).input(),
            final(self).pos() == scan(old(self).input(), old(self).pos(), CharClass::Identifier),
            old(self).pos() <= final(self).pos(),
            is_px(old(self).input().subrange(old(self).pos(), final(self).pos())) ==> r
                == Ok::<Unit, ParseError>(Unit::Px),
            !is_px(old(self).input().subrange(old(self).pos(), final(self).pos())) ==> r
                == Err::<Unit, ParseError>(ParseError::UnknownUnit),
            (r is Ok) == (ascii_lower(old(self).input().subrange(old(self).pos(), final(self).pos()))
                == seq!['p', 'x']),
    {
        proof {
            lemma_px_lowercase(self.input().subrange(self.pos(), scan(self.input(), self.pos(), CharClass::Identifier)));
        }
        let start = self.cur.pos;
        let _ = self.parse_identifier();
        if self.cur.pos - start == 2 {
            let p = self.cur.input[start];
            let x = self.cur.input[start + 1];
            if (p == 'p' || p == 'P') && (x == 'x' || x == 'X') {
                return Ok(Unit::Px);
            }
        }
        Err(ParseError::UnknownUnit)
    }

    fn parse_length(&mut self) -> (r: Result<Value, ParseError>)
        requires
            old(self).cur.wf(),
        ensures
            final(self).cur.wf(),
            final(self).input() == old(self).input(),
            match length_at(old(self).input(), old(self).pos()) {
                Ok((v, k)) => r is Ok && r->Ok_0@ == v && final(self).pos() == k,
                Err(e) => r == Err::<Value, ParseError>(e),
            },
            r is Ok ==> final(self).pos() >= old(self).pos(),
    {
        let number = match self.parse_float() {
            Ok(n) => n,
            Err(e) => return Err(e),
        };
        let unit = match self.parse_unit() {
            Ok(u) => u,
            Err(e) => return Err(e),
        };
        Ok(Value::Length(number, unit))
    }

    fn parse_value(&mut self) -> (r: Result<Value, ParseError>)
        requires
            old(self).cur.wf(),
        ensures
            final(self).cur.wf(),
            final(self).input() == old(self).input(),
            match value_at(old(self).input(), old(self).pos()) {
                Ok((v, k)) => r is Ok && r->Ok_0@ == v && final(self).pos() == k,
                Err(e) => r == Err::<Value, ParseError>(e),
            },
            r is Ok ==> final(self).pos() >= old(self).pos(),
    {
        let c = match self.cur.next_char() {
            Ok(c) => c,
            Err(e) => return Err(e),
        };
        if '0' <= c && c <= '9' {
            self.parse_length()
        } else if c == '#' {
            self.parse_color()
        } else {
            Ok(Value::Keyword(self.parse_identifier()))
        }
    }

    /// Parses rules, separated by optional white space, to the end of input.
    fn parse_rules(&mut self) -> (r: Result<Vec<Rule>, ParseError>)
        requires
            old(self).cur.wf(),
        ensures
            final(self).cur.wf(),
            final(self).input() == old(self).input(),
            match rules_from(old(self).input(), old(self).pos(), Seq::empty()) {
                Ok(m) => r is Ok && rule_views(r->Ok_0@) == m,
                Err(e) => r == Err::<Vec<Rule>, ParseError>(e),
            },
            r is Ok ==> final(self).pos() == final(self).input().len(),
    {
        let ghost s = self.input();
        let ghost start = self.pos();
        let mut rules: Vec<Rule> = Vec::new();
        assert(rule_views(rules@) =~= Seq::empty());
        loop
            invariant
                self.cur.wf(),
                self.input() == s,
                s == old(self).input(),
                start == old(self).pos(),
                rules_from(s, self.pos(), rule_views(rules@)) == rules_from(s, start, Seq::empty()),
            decreases s.len() - self.pos(),
        {
            let ghost i = self.pos();
            let ghost acc = rule_views(rules@);
            self.cur.consume_whitespace();
            proof {
                lemma_scan(s, i, CharClass::Whitespace);
            }
            if self.cur.eof() {
                assert(rules_from(s, i, acc) == Ok::<Seq<RuleModel>, ParseError>(acc));
                return Ok(rules);
            }
            let rule = match self.parse_rule() {
                Ok(r) => r,
                Err(e) => {
                    assert(rules_from(s, i, acc) == Err::<Seq<RuleModel>, ParseError>(e));
                    return Err(e);
                },
            };
            let ghost rs0 = rules@;
            rules.push(rule);
            assert(rule_views(rules@) =~= rule_views(rs0).push(rule@));
        }
    }

    /// Parses a rule: a selector list and a declaration block.
    fn parse_rule(&mut self) -> (r: Result<Rule, ParseError>)
        requires
            old(self).cur.wf(),
        ensures
            final(self).cur.wf(),
            final(self).input() == old(self).input(),
            match rule_at(old(self).input(), old(self).pos()) {
                Ok((m, k)) => r is Ok && r->Ok_0@ == m && final(self).pos() == k,
                Err(e) => r == Err::<Rule, ParseError>(e),
            },
            r is Ok ==> final(self).pos() > old(self).pos(),
    {
        let selectors = match self.parse_selectors() {
            Ok(v) => v,
            Err(e) => return Err(e),
        };
        let declarations = match self.parse_declarations() {
            Ok(v) => v,
            Err(e) => return Err(e),
        };
        Ok(Rule { selectors, declarations })
    }

    /// Parses a comma-separated selector list up to its `{`, and returns it
    /// most specific first.
    fn parse_selectors(&mut self) -> (r: Result<Vec<Selector>, ParseError>)
        requires
            old(self).cur.wf(),
        ensures
            final(self).cur.wf(),
            final(self).input() == old(self).input(),
            match selector_list_at(old(self).input(), old(self).pos()) {
                Ok((m, k)) => r is Ok && selector_views(r->Ok_0@) == m && final(self).pos() == k,
                Err(e) => r == Err::<Vec<Selector>, ParseError>(e),
            },
            match selectors_from(old(self).input(), old(self).pos(), Seq::empty()) {
                Ok((l, _)) => r is Ok && sorted_desc(selector_views(r->Ok_0@))
                    && selector_views(r->Ok_0@).to_multiset() == l.to_multiset(),
                Err(_) => r is Err,
            },
            r is Ok ==> final(self).pos() >= old(self).pos() && char_at(
                final(self).input(),
                final(self).pos(),
                '{',
            ),
    {
        let ghost s = self.input();
        let ghost start = self.pos();
        let mut selectors: Vec<Selector> = Vec::new();
        assert(selector_views(selectors@) =~= Seq::empty());
        loop
            invariant_except_break
                selectors_from(s, self.pos(), selector_views(selectors@)) == selectors_from(
                    s,
                    start,
                    Seq::empty(),
                ),
            invariant
                self.cur.wf(),
                self.input() == s,
                s == old(self).input(),
                start == old(self).pos(),
                start <= self.pos(),
            ensures
                self.cur.wf(),
                self.input() == s,
                start <= self.pos(),
                selectors_from(s, start, Seq::empty()) == Ok::<(Seq<SelectorModel>, int), ParseError>((selector_views(selectors@), self.pos())),
                char_at(s, self.pos(), '{'),
            decreases s.len() - self.pos(),
        {
            let ghost i = self.pos();
            let ghost acc = selector_views(selectors@);
            proof {
                lemma_simple_from(s, i, no_selector());
            }
            let simple = self.parse_simple_selector();
            let ghost j = self.pos();
            let ghost sel0 = selectors@;
            selectors.push(Selector::Simple(simple));
            assert(selector_views(selectors@) =~= selector_views(sel0).push(simple@));
            self.cur.consume_whitespace();
            let ghost k = self.pos();
            proof {
                lemma_scan(s, j, CharClass::Whitespace);
            }
            match self.cur.next_char() {
                Err(e) => {
                    assert(selectors_from(s, i, acc) == Err::<(Seq<SelectorModel>, int), ParseError>(e));
                    return Err(e);
                },
                Ok(c) => if c == ',' {
                    self.cur.pos = self.cur.pos + 1;
                    self.cur.consume_whitespace();
                    assert(selectors_from(s, i, acc) == selectors_from(s, self.pos(), selector_views(selectors@)));
                } else if c == '{' {
                    assert(selectors_from(s, i, acc) == Ok::<(Seq<SelectorModel>, int), ParseError>((selector_views(selectors@), k)));
                    break;
                } else {
                    assert(selectors_from(s, i, acc) == Err::<(Seq<SelectorModel>, int), ParseError>(ParseError::UnexpectedChar));
                    return Err(ParseError::UnexpectedChar);
                },
            }
        }
        proof {
            lemma_sort_desc(selector_views(selectors@));
        }
        Ok(sort_by_specificity(selectors))
    }

    /// Parses one simple selector, such as `tag#id.class1.class2`.
    fn parse_simple_selector(&mut self) -> (r: SimpleSelector)
        requires
            old(self).cur.wf(),
        ensures
            final(self).cur.wf(),
            final(self).input() == old(self).input(),
            (r@, final(self).pos()) == simple_from(old(self).input(), old(self).pos(), no_selector()),
            old(self).pos() <= final(self).pos(),
    {
        let ghost s = self.input();
        let ghost start = self.pos();
        let mut selector = SimpleSelector { tag_name: None, id: None, class: Vec::new() };
        assert(string_views(selector.class@) =~= Seq::<Seq<char>>::empty());
        while !self.cur.eof()
            invariant
                self.cur.wf(),
                self.input() == s,
                s == old(self).input(),
                start == old(self).pos(),
                start <= self.pos(),
                simple_from(s, self.pos(), selector@) == simple_from(s, start, no_selector()),
            ensures
                self.cur.wf(),
                self.input() == s,
                start <= self.pos(),
                simple_from(s, start, no_selector()) == (selector@, self.pos()),
            decreases s.len() - self.pos(),
        {
            let c = self.cur.input[self.cur.pos];
            if c == '#' {
                self.cur.pos = self.cur.pos + 1;
                selector.id = Some(self.parse_identifier());
            } else if c == '.' {
                self.cur.pos = self.cur.pos + 1;
                let ghost cl0 = selector.class@;
                let name = self.parse_identifier();
                selector.class.push(name);
                assert(string_views(selector.class@) =~= string_views(cl0).push(name@));
            } else if c == '*' {
                self.cur.pos = self.cur.pos + 1;
            } else if valid_identifier_char(c) {
                proof {
                    lemma_scan(s, self.pos(), CharClass::Identifier);
                }
                selector.tag_name = Some(self.parse_identifier());
            } else {
                assert(simple_from(s, self.pos(), selector@) == (selector@, self.pos()));
                break;
            }
        }
        selector
    }

    /// Parses a declaration block `{ ... }`.
    fn parse_declarations(&mut self) -> (r: Result<Vec<Declaration>, ParseError>)
        requires
            old(self).cur.wf(),
        ensures
            final(self).cur.wf(),
            final(self).input() == old(self).input(),
            match block_at(old(self).input(), old(self).pos()) {
                Ok((m, k)) => r is Ok && declaration_views(r->Ok_0@) == m && final(self).pos() == k,
                Err(e) => r == Err::<Vec<Declaration>, ParseError>(e),
            },
            r is Ok ==> final(self).pos() > old(self).pos(),
    {
        if let Err(e) = self.cur.expect('{') {
            return Err(e);
        }
        let ghost s = self.input();
        let ghost start = self.pos();
        let mut declarations: Vec<Declaration> = Vec::new();
        assert(declaration_views(declarations@) =~= Seq::empty());
        loop
            invariant
                self.cur.wf(),
                self.input() == s,
                s == old(self).input(),
                start == old(self).pos() + 1,
                block_at(s, old(self).pos()) == declarations_from(s, start, Seq::empty()),
                start <= self.pos(),
                declarations_from(s, self.pos(), declaration_views(declarations@))
                    == declarations_from(s, start, Seq::empty()),
            decreases s.len() - self.pos(),
        {
            let ghost i = self.pos();
            let ghost acc = declaration_views(declarations@);
            self.cur.consume_whitespace();
            proof {
                lemma_scan(s, i, CharClass::Whitespace);
            }
            match self.cur.next_char() {
                Err(e) => {
                    assert(declarations_from(s, i, acc) == Err::<(Seq<DeclarationModel>, int), ParseError>(e));
                    return Err(e);
                },
                Ok(c) => if c == '}' {
                    self.cur.pos = self.cur.pos + 1;
                    assert(declarations_from(s, i, acc) == Ok::<(Seq<DeclarationModel>, int), ParseError>((acc, self.pos())));
                    return Ok(declarations);
                },
            }
            let d = match self.parse_declaration() {
                Ok(d) => d,
                Err(e) => {
                    assert(declarations_from(s, i, acc) == Err::<(Seq<DeclarationModel>, int), ParseError>(e));
                    return Err(e);
                },
            };
            let ghost d0 = declarations@;
            declarations.push(d);
            assert(declaration_views(declarations@) =~= declaration_views(d0).push(d@));
        }
    }

    /// Parses one `name: value;` declaration.
    fn parse_declaration(&mut self) -> (r: Result<Declaration, ParseError>)
        requires
            old(self).cur.wf(),
        ensures
            final(self).cur.wf(),
            final(self).input() == old(self).input(),
            match declaration_at(old(self).input(), old(self).pos()) {
                Ok((m, k)) => r is Ok && r->Ok_0@ == m && final(self).pos() == k,
                Err(e) => r == Err::<Declaration, ParseError>(e),
            },
            r is Ok ==> final(self).pos() > old(self).pos(),
    {
        let name = self.parse_identifier();
        self.cur.consume_whitespace();
        if let Err(e) = self.cur.expect(':') {
            return Err(e);
        }
        self.cur.consume_whitespace();
        let value = match self.parse_value() {
            Ok(v) => v,
            Err(e) => return Err(e),
        };
        self.cur.consume_whitespace();
        if let Err(e) = self.cur.expect(';') {
            return Err(e);
        }
        Ok(Declaration { name, value })
    }

    /// Parses a property name, keyword or other identifier.
    fn parse_identifier(&mut self) -> (r: String)
        requires
            old(self).cur.wf(),
        ensures
            final(self).cur.wf(),
            final(self).input() == old(self).input(),
            final(self).pos() == scan(old(self).input(), old(self).pos(), CharClass::Identifier),
            old(self).pos() <= final(self).pos(),
            r@ == old(self).input().subrange(old(self).pos(), final(self).pos()),
    {
        self.cur.consume_while(CharClass::Identifier)
    }
}

/// Whether `c` may stand in an identifier.
pub fn valid_identifier_char(c: char) -> (r: bool)
    ensures
        r == crate::cursor::identifier_char(c),
{
    ('a' <= c && c <= 'z') || ('A' <= c && c <= 'Z') || ('0' <= c && c <= '9') || c == '-' || c
        == '_'
}

} // verus!
