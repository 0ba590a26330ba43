//! Style sheets: the data model and a strict parser for a small subset of
//! the syntax.

use crate::order::{
    lemma_insert_position, lemma_stable_sort_ordered, ordered, rank_lt, stable_sort, Rank,
};
use crate::text::{
    digit, digit_of, digit_value, error_at, hex_digit, hex_of, hex_value, identifier_char,
    is_digit, lemma_run_end, lemma_run_end_step, later, remaining, run_len, string_views, CharClass, Cursor, ParseError,
    ParseErrorKind, Parsed,
};
use vstd::prelude::*;

verus! {

/// How many thousandths of a pixel one length unit is: lengths are
/// fixed-point numbers with three decimal places.
pub const UNITS_PER_PX: i64 = 1000;

/// The length of `whole` pixels, in thousandths.
pub fn px(whole: i32) -> (r: i64)
    ensures
        r == whole * UNITS_PER_PX,
{
    whole as i64 * UNITS_PER_PX
}

/// The unit of a length.
#[derive(Clone, Copy, Debug, PartialEq, Eq)]
pub enum Unit {
    Px,
}

/// The value of a declaration.
#[derive(Debug, PartialEq, Eq)]
pub enum Value {
    Keyword(String),
    /// A length, in thousandths of its unit.
    Length(i64, Unit),
    /// Red, green, blue and alpha.
    Color(u8, u8, u8, u8),
}

/// A value as contracts see it.
pub ghost enum ValueView {
    Keyword(Seq<char>),
    Length(i64, Unit),
    Color(u8, u8, u8, u8),
}

impl View for Value {
    type V = ValueView;

    open spec fn view(&self) -> ValueView {
        match self {
            Value::Keyword(k) => ValueView::Keyword(k@),
            Value::Length(n, u) => ValueView::Length(*n, *u),
            Value::Color(r, g, b, a) => ValueView::Color(*r, *g, *b, *a),
        }
    }
}

impl Clone for Value {
    fn clone(&self) -> (r: Self)
        ensures
            r@ == self@,
    {
        match self {
            Value::Keyword(k) => Value::Keyword(k.clone()),
            Value::Length(n, u) => Value::Length(*n, *u),
            Value::Color(r, g, b, a) => Value::Color(*r, *g, *b, *a),
        }
    }
}

impl ValueView {
    /// The size of a length, in thousandths of a pixel.
    pub open spec fn px(self) -> Option<i64> {
        match self {
            ValueView::Length(n, Unit::Px) => Some(n),
            _ => None,
        }
    }

    /// Whether this is the keyword `auto`.
    pub open spec fn is_auto(self) -> bool {
        self == ValueView::Keyword("auto"@)
    }
}

impl Value {
    /// The size of a length, in thousandths of a pixel; nothing for a value
    /// that is no length.
    pub fn to_px(&self) -> (r: Option<i64>)
        ensures
            r == self@.px(),
    {
        match self {
            Value::Length(n, Unit::Px) => Some(*n),
            _ => None,
        }
    }

    /// Whether this is the keyword `auto`.
    pub fn is_auto(&self) -> (r: bool)
        ensures
            r == self@.is_auto(),
    {
        match self {
            Value::Keyword(k) => crate::text::str_eq(k.as_str(), "auto"),
            _ => false,
        }
    }
}

/// One `name: value;` pair.
#[derive(Debug, PartialEq, Eq)]
pub struct Declaration {
    pub name: String,
    pub value: Value,
}

/// A declaration as contracts see it.
pub ghost struct DeclarationView {
    pub name: Seq<char>,
    pub value: ValueView,
}

impl View for Declaration {
    type V = DeclarationView;

    open spec fn view(&self) -> DeclarationView {
        DeclarationView { name: self.name@, value: self.value@ }
    }
}

/// A selector without combinators: an optional tag name, an optional id
/// and any number of class names.
#[derive(Debug, PartialEq, Eq)]
pub struct SimpleSelector {
    pub tag_name: Option<String>,
    pub id: Option<String>,
    pub class: Vec<String>,
}

/// A simple selector as contracts see it.
pub ghost struct SimpleSelectorView {
    pub tag_name: Option<Seq<char>>,
    pub id: Option<Seq<char>>,
    pub class: Seq<Seq<char>>,
}

/// The text of an optional string.
pub open spec fn option_text(s: Option<String>) -> Option<Seq<char>> {
    match s {
        Some(t) => Some(t@),
        None => None,
    }
}

impl View for SimpleSelector {
    type V = SimpleSelectorView;

    open spec fn view(&self) -> SimpleSelectorView {
        SimpleSelectorView {
            tag_name: option_text(self.tag_name),
            id: option_text(self.id),
            class: string_views(self.class@),
        }
    }
}

/// A selector. Simple selectors are the only kind.
#[derive(Debug, PartialEq, Eq)]
pub enum Selector {
    Simple(SimpleSelector),
}

/// A selector as contracts see it.
pub ghost enum SelectorView {
    Simple(SimpleSelectorView),
}

impl View for Selector {
    type V = SelectorView;

    open spec fn view(&self) -> SelectorView {
        match self {
            Selector::Simple(s) => SelectorView::Simple(s@),
        }
    }
}

/// How specific a selector is: the number of ids, of classes and of tag
/// names in it, compared in that order.
pub type Specificity = (usize, usize, usize);

impl SelectorView {
    /// The specificity: one for an id, the number of classes, one for a tag
    /// name.
    pub open spec fn specificity(self) -> Rank {
        let SelectorView::Simple(s) = self;
        (
            if s.id is Some { 1nat } else { 0nat },
            s.class.len(),
            if s.tag_name is Some { 1nat } else { 0nat },
        )
    }
}

/// Whether `a` is strictly less specific than `b`.
pub fn less_specific(a: Specificity, b: Specificity) -> (r: bool)
    ensures
        r == rank_lt((a.0 as nat, a.1 as nat, a.2 as nat), (b.0 as nat, b.1 as nat, b.2 as nat)),
{
    a.0 < b.0 || (a.0 == b.0 && (a.1 < b.1 || (a.1 == b.1 && a.2 < b.2)))
}

impl Selector {
    /// The specificity: one for an id, the number of classes, one for a tag
    /// name.
    pub fn specificity(&self) -> (r: Specificity)
        ensures
            (r.0 as nat, r.1 as nat, r.2 as nat) == self@.specificity(),
    {
        let Selector::Simple(simple) = self;
        let a: usize = if simple.id.is_some() { 1 } else { 0 };
        let b: usize = simple.class.len();
        let c: usize = if simple.tag_name.is_some() { 1 } else { 0 };
        (a, b, c)
    }
}

/// Selectors, most specific first, with the declarations that apply where
/// one of them matches.
#[derive(Debug, PartialEq, Eq)]
pub struct Rule {
    pub selectors: Vec<Selector>,
    pub declarations: Vec<Declaration>,
}

/// A rule as contracts see it.
pub ghost struct RuleView {
    pub selectors: Seq<SelectorView>,
    pub declarations: Seq<DeclarationView>,
}

impl View for Rule {
    type V = RuleView;

    open spec fn view(&self) -> RuleView {
        RuleView {
            selectors: selector_views(self.selectors@),
            declarations: declaration_views(self.declarations@),
        }
    }
}

/// A style sheet: its rules, in the order in which they are written.
#[derive(Debug, PartialEq, Eq)]
pub struct Stylesheet {
    pub rules: Vec<Rule>,
}

/// A style sheet as contracts see it.
pub ghost struct StylesheetView {
    pub rules: Seq<RuleView>,
}

impl View for Stylesheet {
    type V = StylesheetView;

    open spec fn view(&self) -> StylesheetView {
        StylesheetView { rules: rule_views(self.rules@) }
    }
}


/// The rank by which selectors are sorted.
pub open spec fn selector_rank() -> spec_fn(SelectorView) -> Rank {
    |x: SelectorView| x.specificity()
}

/// The selector without any component, which matches every element.
pub open spec fn universal() -> SimpleSelectorView {
    SimpleSelectorView { tag_name: None, id: None, class: Seq::empty() }
}

/// A simple selector: what follows from `pos`, as long as it is made of
/// `#` with an identifier, which sets the id; `.` with an identifier, which
/// adds a class; `*`, which adds nothing; or an identifier, which sets the
/// tag name. `sel` holds what was read before `pos`.
pub open spec fn simple_selector_from(s: Seq<char>, pos: int, sel: SimpleSelectorView) -> (
    SimpleSelectorView,
    nat,
)
    decreases remaining(s, pos),
{
    if !(0 <= pos < s.len()) {
        (sel, 0)
    } else if s[pos] == '#' {
        let n = run_len(s, pos + 1, CharClass::Identifier);
        let id = s.subrange(pos + 1, pos + 1 + n);
        let (r, m) = simple_selector_from(
            s,
            pos + 1 + n,
            SimpleSelectorView { id: Some(id), ..sel },
        );
        (r, 1 + n + m)
    } else if s[pos] == '.' {
        let n = run_len(s, pos + 1, CharClass::Identifier);
        let class = s.subrange(pos + 1, pos + 1 + n);
        let (r, m) = simple_selector_from(
            s,
            pos + 1 + n,
            SimpleSelectorView { class: sel.class.push(class), ..sel },
        );
        (r, 1 + n + m)
    } else if s[pos] == '*' {
        let (r, m) = simple_selector_from(s, pos + 1, sel);
        (r, 1 + m)
    } else if identifier_char(s[pos]) {
        let n = run_len(s, pos + 1, CharClass::Identifier);
        let tag = s.subrange(pos, pos + 1 + n);
        let (r, m) = simple_selector_from(
            s,
            pos + 1 + n,
            SimpleSelectorView { tag_name: Some(tag), ..sel },
        );
        (r, 1 + n + m)
    } else {
        (sel, 0)
    }
}

/// A list of simple selectors separated by commas, up to the `{` that
/// follows it, in the order in which they are written. White space may
/// stand before and after a comma and before the `{`. `acc` holds the
/// selectors read before `pos`.
pub open spec fn selectors_from(s: Seq<char>, pos: int, acc: Seq<SelectorView>) -> Parsed<
    Seq<SelectorView>,
>
    decreases remaining(s, pos),
{
    let (sel, n) = simple_selector_from(s, pos, universal());
    let list = acc.push(SelectorView::Simple(sel));
    let w = run_len(s, pos + n, CharClass::Whitespace);
    let p = pos + n + w;
    if !(0 <= p < s.len()) {
        Err(error_at(s, p, ParseErrorKind::UnexpectedCharacter))
    } else if s[p] == ',' {
        let w2 = run_len(s, p + 1, CharClass::Whitespace);
        match selectors_from(s, p + 1 + w2, list) {
            Ok((all, m)) => Ok((all, n + w + 1 + w2 + m)),
            Err(e) => Err(e),
        }
    } else if s[p] == '{' {
        Ok((list, n + w))
    } else {
        Err(error_at(s, p, ParseErrorKind::UnexpectedCharacter))
    }
}

/// The selectors of a rule: the list as written, sorted with the most
/// specific selector first.
pub open spec fn selectors_at(s: Seq<char>, pos: int) -> Parsed<Seq<SelectorView>> {
    match selectors_from(s, pos, Seq::empty()) {
        Ok((list, n)) => Ok((stable_sort(list, selector_rank(), true), n)),
        Err(e) => Err(e),
    }
}

/// The number that a sequence of decimal digits denotes.
pub open spec fn decimal(digits: Seq<char>) -> nat
    decreases digits.len(),
{
    if digits.len() == 0 {
        0
    } else {
        (decimal(digits.drop_last()) * 10 + digit_value(digits.last())) as nat
    }
}

/// The thousandths that the digits behind a decimal point denote: the
/// first three count, and what follows them is dropped.
pub open spec fn thousandths(frac: Seq<char>) -> nat {
    let d0 = if frac.len() > 0 {
        digit_value(frac[0])
    } else {
        0
    };
    let d1 = if frac.len() > 1 {
        digit_value(frac[1])
    } else {
        0
    };
    let d2 = if frac.len() > 2 {
        digit_value(frac[2])
    } else {
        0
    };
    (d0 * 100 + d1 * 10 + d2) as nat
}

/// A number: digits, and optionally a point with digits behind it. Its
/// value is in thousandths. A second point is an error, and so is a value
/// that is too large to be stored.
pub open spec fn number_at(s: Seq<char>, pos: int) -> Parsed<i64> {
    let i = run_len(s, pos, CharClass::Digit);
    let whole = decimal(s.subrange(pos, pos + i));
    let point = 0 <= pos + i < s.len() && s[pos + i] == '.';
    let k = if point {
        run_len(s, pos + i + 1, CharClass::Digit)
    } else {
        0
    };
    let frac = if point {
        thousandths(s.subrange(pos + i + 1, pos + i + 1 + k))
    } else {
        0
    };
    let n = if point {
        i + 1 + k
    } else {
        i
    };
    let value = whole * UNITS_PER_PX + frac;
    if 0 <= pos + n < s.len() && s[pos + n] == '.' {
        Err(error_at(s, pos + n, ParseErrorKind::UnexpectedCharacter))
    } else if value > i64::MAX {
        Err(error_at(s, pos, ParseErrorKind::LengthOutOfRange))
    } else {
        Ok((value as i64, n))
    }
}

/// A unit: an identifier that reads `px`, in either case.
pub open spec fn unit_at(s: Seq<char>, pos: int) -> Parsed<Unit> {
    let n = run_len(s, pos, CharClass::Identifier);
    if n == 2 && (s[pos] == 'p' || s[pos] == 'P') && (s[pos + 1] == 'x' || s[pos + 1] == 'X') {
        Ok((Unit::Px, n))
    } else {
        Err(error_at(s, pos, ParseErrorKind::UnrecognizedUnit))
    }
}

/// A length: a number and a unit.
pub open spec fn length_at(s: Seq<char>, pos: int) -> Parsed<ValueView> {
    match number_at(s, pos) {
        Err(e) => Err(e),
        Ok((value, n)) => match unit_at(s, pos + n) {
            Err(e) => Err(e),
            Ok((unit, m)) => Ok((ValueView::Length(value, unit), n + m)),
        },
    }
}

/// Two hexadecimal digits, as one byte.
pub open spec fn hex_pair_at(s: Seq<char>, pos: int) -> Parsed<u8> {
    if !(0 <= pos < s.len() && hex_digit(s[pos])) {
        Err(error_at(s, pos, ParseErrorKind::MalformedColor))
    } else if !(pos + 1 < s.len() && hex_digit(s[pos + 1])) {
        Err(error_at(s, pos + 1, ParseErrorKind::MalformedColor))
    } else {
        Ok(((hex_value(s[pos]) * 16 + hex_value(s[pos + 1])) as u8, 2))
    }
}

/// A colour: `#` and three pairs of hexadecimal digits for red, green and
/// blue. The colour is opaque.
pub open spec fn color_at(s: Seq<char>, pos: int) -> Parsed<ValueView> {
    if !(0 <= pos < s.len() && s[pos] == '#') {
        Err(error_at(s, pos, ParseErrorKind::ExpectedLiteral))
    } else {
        match hex_pair_at(s, pos + 1) {
            Err(e) => Err(e),
            Ok((r, _)) => match hex_pair_at(s, pos + 3) {
                Err(e) => Err(e),
                Ok((g, _)) => match hex_pair_at(s, pos + 5) {
                    Err(e) => Err(e),
                    Ok((b, _)) => Ok((ValueView::Color(r, g, b, 255), 7)),
                },
            },
        }
    }
}

/// A value: a length where a digit stands, a colour where `#` stands, and
/// a keyword, which is an identifier, anywhere else.
#[verifier::opaque]
pub open spec fn value_at(s: Seq<char>, pos: int) -> Parsed<ValueView> {
    if !(0 <= pos < s.len()) {
        Err(error_at(s, pos, ParseErrorKind::UnexpectedCharacter))
    } else if digit(s[pos]) {
        length_at(s, pos)
    } else if s[pos] == '#' {
        color_at(s, pos)
    } else {
        let n = run_len(s, pos, CharClass::Identifier);
        Ok((ValueView::Keyword(s.subrange(pos, pos + n)), n))
    }
}

/// A declaration: an identifier, `:`, a value and `;`, with white space
/// allowed around the `:` and before the `;`.
pub open spec fn declaration_at(s: Seq<char>, pos: int) -> Parsed<DeclarationView> {
    let n = run_len(s, pos, CharClass::Identifier);
    let name = s.subrange(pos, pos + n);
    let w1 = run_len(s, pos + n, CharClass::Whitespace);
    let colon = pos + n + w1;
    if !(0 <= colon < s.len() && s[colon] == ':') {
        Err(error_at(s, colon, ParseErrorKind::ExpectedLiteral))
    } else {
        let w2 = run_len(s, colon + 1, CharClass::Whitespace);
        let begin = colon + 1 + w2;
        match value_at(s, begin) {
            Err(e) => Err(e),
            Ok((value, m)) => {
                let w3 = run_len(s, begin + m, CharClass::Whitespace);
                let semi = begin + m + w3;
                if !(semi < s.len() && s[semi] == ';') {
                    Err(error_at(s, semi, ParseErrorKind::ExpectedLiteral))
                } else {
                    Ok((DeclarationView { name, value }, n + w1 + 1 + w2 + m + w3 + 1))
                }
            },
        }
    }
}

/// The declarations of a rule, from behind the `{` up to and including the
/// `}`. White space may stand before each declaration and before the `}`.
/// `acc` holds the declarations read before `pos`.
pub open spec fn declarations_from(s: Seq<char>, pos: int, acc: Seq<DeclarationView>) -> Parsed<
    Seq<DeclarationView>,
>
    decreases remaining(s, pos),
{
    let w = run_len(s, pos, CharClass::Whitespace);
    let p = pos + w;
    if !(0 <= p < s.len()) {
        Err(error_at(s, p, ParseErrorKind::UnexpectedCharacter))
    } else if s[p] == '}' {
        Ok((acc, w + 1))
    } else {
        match declaration_at(s, p) {
            Err(e) => Err(e),
            Ok((d, n)) => match declarations_from(s, p + n, acc.push(d)) {
                Err(e) => Err(e),
                Ok((all, m)) => Ok((all, w + n + m)),
            },
        }
    }
}

/// The declarations of a rule, enclosed in `{` and `}`.
pub open spec fn declarations_at(s: Seq<char>, pos: int) -> Parsed<Seq<DeclarationView>> {
    if !(0 <= pos < s.len() && s[pos] == '{') {
        Err(error_at(s, pos, ParseErrorKind::ExpectedLiteral))
    } else {
        match declarations_from(s, pos + 1, Seq::empty()) {
            Err(e) => Err(e),
            Ok((all, n)) => Ok((all, 1 + n)),
        }
    }
}

/// A rule: selectors and declarations.
pub open spec fn rule_at(s: Seq<char>, pos: int) -> Parsed<RuleView> {
    match selectors_at(s, pos) {
        Err(e) => Err(e),
        Ok((selectors, n)) => match declarations_at(s, pos + n) {
            Err(e) => Err(e),
            Ok((declarations, m)) => Ok((RuleView { selectors, declarations }, n + m)),
        },
    }
}

/// The rules from `pos` to the end of the input, each with white space
/// allowed before it. `acc` holds the rules read before `pos`.
pub open spec fn rules_from(s: Seq<char>, pos: int, acc: Seq<RuleView>) -> Result<
    Seq<RuleView>,
    ParseError,
>
    decreases remaining(s, pos),
{
    let w = run_len(s, pos, CharClass::Whitespace);
    let p = pos + w;
    if !(0 <= p < s.len()) {
        Ok(acc)
    } else {
        match rule_at(s, p) {
            Err(e) => Err(e),
            Ok((rule, n)) => rules_from(s, p + n, acc.push(rule)),
        }
    }
}

/// The style sheet that a source text denotes.
pub open spec fn stylesheet_of(source: Seq<char>) -> Result<StylesheetView, ParseError> {
    match rules_from(source, 0, Seq::empty()) {
        Err(e) => Err(e),
        Ok(rules) => Ok(StylesheetView { rules }),
    }
}


/// The views of a sequence of selectors.
pub open spec fn selector_views(v: Seq<Selector>) -> Seq<SelectorView> {
    v.map_values(|s: Selector| s@)
}

/// The views of a sequence of declarations.
pub open spec fn declaration_views(v: Seq<Declaration>) -> Seq<DeclarationView> {
    v.map_values(|d: Declaration| d@)
}

/// The views of a sequence of rules.
pub open spec fn rule_views(v: Seq<Rule>) -> Seq<RuleView> {
    v.map_values(|r: Rule| r@)
}

/// Sorts selectors so that the most specific comes first; selectors that
/// are equally specific keep their order.
pub fn sort_selectors(selectors: Vec<Selector>) -> (sorted: Vec<Selector>)
    ensures
        selector_views(sorted@) == stable_sort(selector_views(selectors@), selector_rank(), true),
{
    let ghost all = selector_views(selectors@);
    let mut sorted: Vec<Selector> = Vec::new();
    assert(all.take(0) =~= Seq::empty());
    assert(selector_views(sorted@) =~= Seq::empty());
    for x in it: selectors
        invariant
            it.seq() == selectors@,
            all == selector_views(selectors@),
            selector_views(sorted@) == stable_sort(all.take(it.index()), selector_rank(), true),
    {
        let ghost before = selector_views(sorted@);
        let ghost i = it.index();
        proof {
            assert(all.take(i + 1).drop_last() =~= all.take(i));
            assert(all.take(i + 1).last() == x@);
        }
        let key = x.specificity();
        let mut k: usize = sorted.len();
        while k > 0 && less_specific(sorted[k - 1].specificity(), key)
            invariant
                k <= sorted.len(),
                before == selector_views(sorted@),
                (key.0 as nat, key.1 as nat, key.2 as nat) == x@.specificity(),
                forall|j: int|
                    k <= j < sorted.len() ==> crate::order::precedes(
                        x@.specificity(),
                        (#[trigger] before[j]).specificity(),
                        true,
                    ),
            decreases k,
        {
            k -= 1;
        }
        proof {
            lemma_insert_position(before, x@, selector_rank(), true, k as int);
            assert(selector_views(sorted@.insert(k as int, x)) =~= before.insert(k as int, x@));
        }
        sorted.insert(k, x);
    }
    assert(all.take(all.len() as int) =~= all);
    sorted
}

/// A reader of style sheets.
struct Parser {
    cursor: Cursor,
}

impl Parser {
    /// The input, as the grammar sees it.
    spec fn text(&self) -> Seq<char> {
        self.cursor.input@
    }

    /// The position, as the grammar sees it.
    spec fn at(&self) -> int {
        self.cursor.pos as int
    }

    /// Whether the reader is as it was in `before` but `n` characters
    /// further on.
    spec fn moved(&self, before: &Parser, n: nat) -> bool {
        &&& self.cursor.wf()
        &&& self.cursor.input == before.cursor.input
        &&& self.cursor.pos == before.cursor.pos + n
    }

    /// Whether the reader has the input that it had in `before`.
    spec fn same_input(&self, before: &Parser) -> bool {
        self.cursor.wf() && self.cursor.input == before.cursor.input
    }

    /// Parses a property name or keyword.
    fn parse_identifier(&mut self) -> (r: String)
        requires
            old(self).cursor.wf(),
        ensures
            final(self).moved(
                old(self),
                run_len(old(self).text(), old(self).at(), CharClass::Identifier),
            ),
            r@ == old(self).text().subrange(old(self).at(), final(self).at()),
    {
        self.cursor.consume_while(CharClass::Identifier)
    }

    /// Consumes and discards white space.
    fn consume_whitespace(&mut self)
        requires
            old(self).cursor.wf(),
        ensures
            final(self).moved(
                old(self),
                run_len(old(self).text(), old(self).at(), CharClass::Whitespace),
            ),
    {
        self.cursor.consume_whitespace();
    }

    /// Parses one simple selector, such as `type#id.class1.class2`.
    fn parse_simple_selector(&mut self) -> (r: SimpleSelector)
        requires
            old(self).cursor.wf(),
        ensures
            final(self).moved(
                old(self),
                simple_selector_from(old(self).text(), old(self).at(), universal()).1,
            ),
            r@ == simple_selector_from(old(self).text(), old(self).at(), universal()).0,
    {
        let mut selector = SimpleSelector { tag_name: None, id: None, class: Vec::new() };
        let ghost s = self.text();
        let ghost start = self.at();
        let ghost goal = simple_selector_from(s, start, universal());
        assert(selector@.class =~= Seq::empty());
        loop
            invariant
                self.same_input(old(self)),
                s == self.text(),
                start == old(self).at(),
                start <= self.at(),
                goal == simple_selector_from(s, start, universal()),
                goal.0 == simple_selector_from(s, self.at(), selector@).0,
                goal.1 == simple_selector_from(s, self.at(), selector@).1 + (self.at() - start),
            ensures
                self.same_input(old(self)),
                self.at() == start + goal.1,
                selector@ == goal.0,
            decreases s.len() - self.at(),
        {
            match self.cursor.next_char() {
                Some('#') => {
                    self.cursor.consume_char();
                    selector.id = Some(self.parse_identifier());
                },
                Some('.') => {
                    self.cursor.consume_char();
                    let ghost before = selector.class@;
                    let name = self.parse_identifier();
                    proof {
                        assert(string_views(before.push(name)) =~= string_views(before).push(name@));
                    }
                    selector.class.push(name);
                },
                Some('*') => {
                    // The universal selector adds nothing.
                    self.cursor.consume_char();
                },
                Some(c) => {
                    if valid_identifier_char(c) {
                        selector.tag_name = Some(self.parse_identifier());
                    } else {
                        break ;
                    }
                },
                None => {
                    break ;
                },
            }
        }
        selector
    }
}

impl Parser {
    /// Parses a comma-separated list of selectors, up to the `{` that
    /// follows it, and sorts it with the most specific selector first.
    fn parse_selectors(&mut self) -> (r: Result<Vec<Selector>, ParseError>)
        requires
            old(self).cursor.wf(),
        ensures
            final(self).same_input(old(self)),
            match selectors_at(old(self).text(), old(self).at()) {
                Ok((v, n)) => r matches Ok(x) && selector_views(x@) == v && final(self).at()
                    == old(self).at() + n,
                Err(e) => r matches Err(x) && x == e,
            },
    {
        let mut selectors: Vec<Selector> = Vec::new();
        let ghost s = self.text();
        let ghost start = self.at();
        let ghost goal = selectors_from(s, start, Seq::empty());
        assert(selector_views(selectors@) =~= Seq::empty());
        loop
            invariant_except_break
                goal == later(
                    selectors_from(s, self.at(), selector_views(selectors@)),
                    self.at() - start,
                ),
            invariant
                self.same_input(old(self)),
                s == self.text(),
                start == old(self).at(),
                start <= self.at(),
                goal == selectors_from(s, start, Seq::empty()),
            ensures
                self.same_input(old(self)),
                goal == Ok::<(Seq<SelectorView>, nat), ParseError>(
                    (selector_views(selectors@), (self.at() - start) as nat),
                ),
            decreases s.len() - self.at(),
        {
            let ghost before = selectors@;
            let simple = self.parse_simple_selector();
            proof {
                assert(selector_views(before.push(Selector::Simple(simple))) =~= selector_views(
                    before,
                ).push(SelectorView::Simple(simple@)));
            }
            selectors.push(Selector::Simple(simple));
            self.consume_whitespace();
            match self.cursor.next_char() {
                Some(',') => {
                    self.cursor.consume_char();
                    self.consume_whitespace();
                },
                Some('{') => {
                    break ;
                },
                _ => {
                    return Err(self.cursor.error(ParseErrorKind::UnexpectedCharacter));
                },
            }
        }
        // The most specific selector comes first, for use in matching.
        Ok(sort_selectors(selectors))
    }

    /// Parses the digits and the optional decimal point of a length; the
    /// result is in thousandths.
    fn parse_float(&mut self) -> (r: Result<i64, ParseError>)
        requires
            old(self).cursor.wf(),
        ensures
            final(self).same_input(old(self)),
            match number_at(old(self).text(), old(self).at()) {
                Ok((v, n)) => r == Ok::<i64, ParseError>(v) && final(self).at() == old(self).at()
                    + n,
                Err(e) => r == Err::<i64, ParseError>(e),
            },
    {
        let ghost s = self.text();
        let start = self.cursor.pos;
        let len = self.cursor.input.len();
        let mut whole: i128 = 0;
        let mut big = false;
        let mut pos = start;
        assert(s.subrange(start as int, start as int) =~= Seq::empty());
        while pos < len && is_digit(self.cursor.input[pos])
            invariant
                start <= pos <= len == s.len(),
                s == self.text(),
                self.cursor.pos == start,
                self.same_input(old(self)),
                forall|i: int| start <= i < pos ==> CharClass::Digit.holds(#[trigger] s[i]),
                !big ==> whole == decimal(s.subrange(start as int, pos as int)) && whole
                    <= i64::MAX,
                big ==> decimal(s.subrange(start as int, pos as int)) > i64::MAX,
            decreases len - pos,
        {
            let d = digit_of(self.cursor.input[pos]);
            proof {
                assert(s.subrange(start as int, pos + 1).drop_last() =~= s.subrange(
                    start as int,
                    pos as int,
                ));
                assert(s.subrange(start as int, pos + 1).last() == s[pos as int]);
            }
            if !big {
                whole = whole * 10 + d as i128;
                if whole > i64::MAX as i128 {
                    big = true;
                }
            }
            pos += 1;
        }
        proof {
            lemma_run_end_step(s, start as int, pos as int, CharClass::Digit);
        }
        let ghost i = (pos - start) as nat;
        assert(i == run_len(s, start as int, CharClass::Digit));
        let mut frac: i128 = 0;
        if pos < len && self.cursor.input[pos] == '.' {
            pos += 1;
            let first = pos;
            assert(s.subrange(first as int, first as int) =~= Seq::empty());
            while pos < len && is_digit(self.cursor.input[pos])
                invariant
                    start < first <= pos <= len == s.len(),
                    s == self.text(),
                    self.cursor.pos == start,
                    self.same_input(old(self)),
                    forall|i: int| first <= i < pos ==> CharClass::Digit.holds(#[trigger] s[i]),
                    frac == thousandths(s.subrange(first as int, pos as int)),
                    0 <= frac <= 999,
                decreases len - pos,
            {
                let d = digit_of(self.cursor.input[pos]);
                proof {
                    let a = s.subrange(first as int, pos as int);
                    let b = s.subrange(first as int, pos + 1);
                    assert(b.len() == a.len() + 1);
                    assert(forall|j: int| 0 <= j < a.len() ==> a[j] == b[j]);
                    assert(b[a.len() as int] == s[pos as int]);
                }
                let k = pos - first;
                if k == 0 {
                    frac = d as i128 * 100;
                } else if k == 1 {
                    frac = frac + d as i128 * 10;
                } else if k == 2 {
                    frac = frac + d as i128;
                }
                pos += 1;
            }
            proof {
                lemma_run_end_step(s, first as int, pos as int, CharClass::Digit);
            }
        }
        if pos < len && self.cursor.input[pos] == '.' {
            return Err(self.cursor.error_at(pos, ParseErrorKind::UnexpectedCharacter));
        }
        if big {
            return Err(self.cursor.error_at(start, ParseErrorKind::LengthOutOfRange));
        }
        let value = whole * (UNITS_PER_PX as i128) + frac;
        if value > i64::MAX as i128 {
            return Err(self.cursor.error_at(start, ParseErrorKind::LengthOutOfRange));
        }
        self.cursor.pos = pos;
        Ok(value as i64)
    }

    /// Parses the unit of a length.
    fn parse_unit(&mut self) -> (r: Result<Unit, ParseError>)
        requires
            old(self).cursor.wf(),
        ensures
            final(self).same_input(old(self)),
            match unit_at(old(self).text(), old(self).at()) {
                Ok((v, n)) => r == Ok::<Unit, ParseError>(v) && final(self).at() == old(self).at()
                    + n,
                Err(e) => r == Err::<Unit, ParseError>(e),
            },
    {
        let start = self.cursor.pos;
        proof {
            lemma_run_end(self.text(), start as int, CharClass::Identifier);
        }
        self.parse_identifier();
        let n = self.cursor.pos - start;
        if n == 2 {
            let a = self.cursor.input[start];
            let b = self.cursor.input[start + 1];
            if (a == 'p' || a == 'P') && (b == 'x' || b == 'X') {
                return Ok(Unit::Px);
            }
        }
        Err(self.cursor.error_at(start, ParseErrorKind::UnrecognizedUnit))
    }

    /// Parses a length: a number with a unit.
    fn parse_length(&mut self) -> (r: Result<Value, ParseError>)
        requires
            old(self).cursor.wf(),
        ensures
            final(self).same_input(old(self)),
            match length_at(old(self).text(), old(self).at()) {
                Ok((v, n)) => r matches Ok(x) && x@ == v && final(self).at() == old(self).at() + n,
                Err(e) => r matches Err(x) && x == e,
            },
    {
        let value = self.parse_float()?;
        let unit = self.parse_unit()?;
        Ok(Value::Length(value, unit))
    }

    /// Parses two hexadecimal digits.
    fn parse_hex_pair(&mut self) -> (r: Result<u8, ParseError>)
        requires
            old(self).cursor.wf(),
        ensures
            final(self).same_input(old(self)),
            match hex_pair_at(old(self).text(), old(self).at()) {
                Ok((v, n)) => r == Ok::<u8, ParseError>(v) && final(self).at() == old(self).at()
                    + n,
                Err(e) => r == Err::<u8, ParseError>(e),
            },
    {
        let high = match self.cursor.next_char() {
            Some(c) => match hex_of(c) {
                Some(h) => h,
                None => {
                    return Err(self.cursor.error(ParseErrorKind::MalformedColor));
                },
            },
            None => {
                return Err(self.cursor.error(ParseErrorKind::MalformedColor));
            },
        };
        let pos = self.cursor.pos;
        let low = if pos + 1 < self.cursor.input.len() {
            match hex_of(self.cursor.input[pos + 1]) {
                Some(l) => l,
                None => {
                    return Err(self.cursor.error_at(pos + 1, ParseErrorKind::MalformedColor));
                },
            }
        } else {
            return Err(self.cursor.error_at(pos + 1, ParseErrorKind::MalformedColor));
        };
        self.cursor.pos = pos + 2;
        Ok(high * 16 + low)
    }

    /// Parses a colour: `#` and six hexadecimal digits.
    fn parse_color(&mut self) -> (r: Result<Value, ParseError>)
        requires
            old(self).cursor.wf(),
        ensures
            final(self).same_input(old(self)),
            match color_at(old(self).text(), old(self).at()) {
                Ok((v, n)) => r matches Ok(x) && x@ == v && final(self).at() == old(self).at() + n,
                Err(e) => r matches Err(x) && x == e,
            },
    {
        match self.cursor.next_char() {
            Some('#') => {
                self.cursor.consume_char();
            },
            _ => {
                return Err(self.cursor.error(ParseErrorKind::ExpectedLiteral));
            },
        }
        let r = self.parse_hex_pair()?;
        let g = self.parse_hex_pair()?;
        let b = self.parse_hex_pair()?;
        Ok(Value::Color(r, g, b, 255))
    }

    /// Parses a value: a length, a colour or a keyword.
    fn parse_value(&mut self) -> (r: Result<Value, ParseError>)
        requires
            old(self).cursor.wf(),
        ensures
            final(self).same_input(old(self)),
            match value_at(old(self).text(), old(self).at()) {
                Ok((v, n)) => r matches Ok(x) && x@ == v && final(self).at() == old(self).at() + n,
                Err(e) => r matches Err(x) && x == e,
            },
    {
        reveal(value_at);
        match self.cursor.next_char() {
            None => Err(self.cursor.error(ParseErrorKind::UnexpectedCharacter)),
            Some(c) => {
                if is_digit(c) {
                    self.parse_length()
                } else if c == '#' {
                    self.parse_color()
                } else {
                    Ok(Value::Keyword(self.parse_identifier()))
                }
            },
        }
    }

    /// Parses one `<property>: <value>;` declaration.
    fn parse_declaration(&mut self) -> (r: Result<Declaration, ParseError>)
        requires
            old(self).cursor.wf(),
        ensures
            final(self).same_input(old(self)),
            match declaration_at(old(self).text(), old(self).at()) {
                Ok((v, n)) => r matches Ok(x) && x@ == v && final(self).at() == old(self).at() + n,
                Err(e) => r matches Err(x) && x == e,
            },
    {
        let property_name = self.parse_identifier();
        self.consume_whitespace();
        self.cursor.expect_char(':')?;
        self.consume_whitespace();
        let value = self.parse_value()?;
        self.consume_whitespace();
        self.cursor.expect_char(';')?;
        Ok(Declaration { name: property_name, value: value })
    }

    /// Parses a list of declarations enclosed in `{ ... }`.
    fn parse_declarations(&mut self) -> (r: Result<Vec<Declaration>, ParseError>)
        requires
            old(self).cursor.wf(),
        ensures
            final(self).same_input(old(self)),
            match declarations_at(old(self).text(), old(self).at()) {
                Ok((v, n)) => r matches Ok(x) && declaration_views(x@) == v && final(self).at()
                    == old(self).at() + n,
                Err(e) => r matches Err(x) && x == e,
            },
    {
        self.cursor.expect_char('{')?;
        let mut declarations: Vec<Declaration> = Vec::new();
        let ghost s = self.text();
        let ghost start = self.at();
        let ghost goal = declarations_from(s, start, Seq::empty());
        assert(declaration_views(declarations@) =~= Seq::empty());
        loop
            invariant_except_break
                goal == later(
                    declarations_from(s, self.at(), declaration_views(declarations@)),
                    self.at() - start,
                ),
            invariant
                self.same_input(old(self)),
                s == self.text(),
                start == old(self).at() + 1,
                start <= self.at(),
                old(self).at() < s.len() && s[old(self).at()] == '{',
                goal == declarations_from(s, start, Seq::empty()),
            ensures
                self.same_input(old(self)),
                goal == Ok::<(Seq<DeclarationView>, nat), ParseError>(
                    (declaration_views(declarations@), (self.at() - start) as nat),
                ),
            decreases s.len() - self.at(),
        {
            self.consume_whitespace();
            match self.cursor.next_char() {
                None => {
                    return Err(self.cursor.error(ParseErrorKind::UnexpectedCharacter));
                },
                Some('}') => {
                    self.cursor.consume_char();
                    break ;
                },
                Some(_) => {
                    let ghost before = declarations@;
                    let d = self.parse_declaration()?;
                    proof {
                        assert(declaration_views(before.push(d)) =~= declaration_views(before).push(
                            d@,
                        ));
                    }
                    declarations.push(d);
                },
            }
        }
        Ok(declarations)
    }

    /// Parses a rule: `<selectors> { <declarations> }`.
    fn parse_rule(&mut self) -> (r: Result<Rule, ParseError>)
        requires
            old(self).cursor.wf(),
        ensures
            final(self).same_input(old(self)),
            match rule_at(old(self).text(), old(self).at()) {
                Ok((v, n)) => r matches Ok(x) && x@ == v && final(self).at() == old(self).at() + n,
                Err(e) => r matches Err(x) && x == e,
            },
    {
        let selectors = self.parse_selectors()?;
        let declarations = self.parse_declarations()?;
        Ok(Rule { selectors, declarations })
    }

    /// Parses the rules up to the end of the input.
    fn parse_rules(&mut self) -> (r: Result<Vec<Rule>, ParseError>)
        requires
            old(self).cursor.wf(),
        ensures
            final(self).same_input(old(self)),
            match rules_from(old(self).text(), old(self).at(), Seq::empty()) {
                Ok(v) => r matches Ok(x) && rule_views(x@) == v,
                Err(e) => r matches Err(x) && x == e,
            },
    {
        let mut rules: Vec<Rule> = Vec::new();
        let ghost s = self.text();
        let ghost goal = rules_from(s, self.at(), Seq::empty());
        assert(rule_views(rules@) =~= Seq::empty());
        loop
            invariant_except_break
                goal == rules_from(s, self.at(), rule_views(rules@)),
            invariant
                self.same_input(old(self)),
                s == self.text(),
                goal == rules_from(old(self).text(), old(self).at(), Seq::empty()),
            ensures
                self.same_input(old(self)),
                goal == Ok::<Seq<RuleView>, ParseError>(rule_views(rules@)),
            decreases s.len() - self.at(),
        {
            self.consume_whitespace();
            if self.cursor.eof() {
                break ;
            }
            let ghost before = rules@;
            let rule = self.parse_rule()?;
            proof {
                assert(rule_views(before.push(rule)) =~= rule_views(before).push(rule@));
            }
            rules.push(rule);
        }
        Ok(rules)
    }
}

/// Parses a whole style sheet.
pub fn parse(source: String) -> (r: Result<Stylesheet, ParseError>)
    ensures
        match stylesheet_of(source@) {
            Ok(v) => r matches Ok(x) && x@ == v,
            Err(e) => r matches Err(x) && x == e,
        },
{
    let mut parser = Parser { cursor: Cursor::new(source.as_str()) };
    let rules = parser.parse_rules()?;
    Ok(Stylesheet { rules })
}

/// Whether `c` may stand in an identifier.
pub fn valid_identifier_char(c: char) -> (r: bool)
    ensures
        r == identifier_char(c),
{
    CharClass::Identifier.test(c)
}


/// Whether the selectors of every rule stand in order of specificity, the
/// most specific first.
pub open spec fn selectors_ordered(rules: Seq<RuleView>) -> bool {
    forall|i: int|
        0 <= i < rules.len() ==> ordered((#[trigger] rules[i]).selectors, selector_rank(), true)
}

proof fn lemma_rules_ordered(s: Seq<char>, pos: int, acc: Seq<RuleView>)
    requires
        selectors_ordered(acc),
        rules_from(s, pos, acc) is Ok,
    ensures
        selectors_ordered(rules_from(s, pos, acc)->Ok_0),
    decreases remaining(s, pos),
{
    let p = pos + run_len(s, pos, CharClass::Whitespace);
    if 0 <= p < s.len() {
        let (rule, n) = rule_at(s, p)->Ok_0;
        let list = selectors_from(s, p, Seq::empty())->Ok_0.0;
        lemma_stable_sort_ordered(list, selector_rank(), true);
        let next = acc.push(rule);
        assert forall|i: int| 0 <= i < next.len() implies ordered(
            (#[trigger] next[i]).selectors,
            selector_rank(),
            true,
        ) by {
            if i < acc.len() {
                assert(next[i] == acc[i]);
            }
        }
        lemma_rules_ordered(s, p + n, next);
    }
}

/// Specificity ordering: in every rule of a parsed style sheet, no
/// selector is less specific than one that stands behind it.
pub proof fn lemma_parsed_selectors_ordered(source: Seq<char>, r: int, i: int, j: int)
    requires
        stylesheet_of(source) is Ok,
        0 <= r < stylesheet_of(source)->Ok_0.rules.len(),
        0 <= i < j < stylesheet_of(source)->Ok_0.rules[r].selectors.len(),
    ensures
        ({
            let selectors = stylesheet_of(source)->Ok_0.rules[r].selectors;
            !rank_lt(selectors[i].specificity(), selectors[j].specificity())
        }),
{
    lemma_rules_ordered(source, 0, Seq::empty());
    let rules = stylesheet_of(source)->Ok_0.rules;
    assert(ordered(rules[r].selectors, selector_rank(), true));
}

} // verus!
