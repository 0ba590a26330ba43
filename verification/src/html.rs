//! A strict parser for a small subset of markup: elements with quoted
//! attributes, and text.

use crate::assoc::StrMap;
use crate::dom::{
    elem, node_views, text, AttrMap, ElementDataView, Node, NodeType, NodeTypeView, NodeView,
};
use crate::text::{
    error_at, has_prefix_at, later, lemma_run_end, lemma_run_end_step, name_char, remaining,
    run_end, run_len, whitespace, CharClass, Cursor, ParseError, ParseErrorKind, Parsed,
};
use vstd::prelude::*;

verus! {

/// The view of a text node.
pub open spec fn text_node(data: Seq<char>) -> NodeView {
    NodeView { children: Seq::empty(), node_type: NodeTypeView::Text(data) }
}

/// The view of an element node.
pub open spec fn element_node(
    name: Seq<char>,
    attributes: Map<Seq<char>, Seq<char>>,
    children: Seq<NodeView>,
) -> NodeView {
    NodeView {
        children,
        node_type: NodeTypeView::Element(ElementDataView { tag_name: name, attributes }),
    }
}

/// Whether a closing tag starts at `pos`.
pub open spec fn closing_at(s: Seq<char>, pos: int) -> bool {
    0 <= pos && pos + 1 < s.len() && s[pos] == '<' && s[pos + 1] == '/'
}

/// A quoted attribute value: a quotation mark of either kind, and all
/// that stands before the next mark of the same kind.
pub open spec fn attr_value_at(s: Seq<char>, pos: int) -> Parsed<Seq<char>> {
    if !(0 <= pos < s.len() && (s[pos] == '"' || s[pos] == '\'')) {
        Err(error_at(s, pos, ParseErrorKind::UnexpectedCharacter))
    } else {
        let n = run_len(s, pos + 1, CharClass::Except(s[pos]));
        if !(pos + 1 + n < s.len()) {
            Err(error_at(s, pos + 1 + n, ParseErrorKind::UnexpectedCharacter))
        } else {
            Ok((s.subrange(pos + 1, pos + 1 + n), n + 2))
        }
    }
}

/// An attribute: a name, which is one or more letters and digits, `=` and
/// a quoted value.
pub open spec fn attr_at(s: Seq<char>, pos: int) -> Parsed<(Seq<char>, Seq<char>)> {
    let n = run_len(s, pos, CharClass::Name);
    if n == 0 {
        Err(error_at(s, pos, ParseErrorKind::UnexpectedCharacter))
    } else if !(0 <= pos + n < s.len() && s[pos + n] == '=') {
        Err(error_at(s, pos + n, ParseErrorKind::ExpectedLiteral))
    } else {
        match attr_value_at(s, pos + n + 1) {
            Err(e) => Err(e),
            Ok((value, m)) => Ok(((s.subrange(pos, pos + n), value), n + 1 + m)),
        }
    }
}

/// The attributes of an opening tag, up to the `>` that ends it. White
/// space stands before each attribute and may stand before the `>`. A
/// name that occurs again overwrites what it was bound to. `acc` holds the
/// attributes read before `pos`.
pub open spec fn attributes_from(s: Seq<char>, pos: int, acc: Map<Seq<char>, Seq<char>>) -> Parsed<
    Map<Seq<char>, Seq<char>>,
>
    decreases remaining(s, pos),
{
    let w = run_len(s, pos, CharClass::Whitespace);
    let p = pos + w;
    if !(0 <= p < s.len()) {
        Err(error_at(s, p, ParseErrorKind::UnexpectedCharacter))
    } else if s[p] == '>' {
        Ok((acc, w))
    } else {
        match attr_at(s, p) {
            Err(e) => Err(e),
            Ok(((name, value), n)) => match attributes_from(s, p + n, acc.insert(name, value)) {
                Err(e) => Err(e),
                Ok((all, m)) => Ok((all, w + n + m)),
            },
        }
    }
}

/// A sequence of sibling nodes, each with white space allowed before it,
/// up to the end of the input or to a closing tag. A `<` starts an
/// element; anything else starts a text, which runs up to the next `<`.
/// `acc` holds the nodes read before `pos`.
pub open spec fn nodes_from(s: Seq<char>, pos: int, acc: Seq<NodeView>) -> Parsed<Seq<NodeView>>
    decreases remaining(s, pos), 1int,
{
    let w = run_len(s, pos, CharClass::Whitespace);
    let p = pos + w;
    if !(0 <= p < s.len()) || closing_at(s, p) {
        Ok((acc, w))
    } else if s[p] == '<' {
        match element_body(s, p + 1) {
            Err(e) => Err(e),
            Ok((node, n)) => match nodes_from(s, p + 1 + n, acc.push(node)) {
                Err(e) => Err(e),
                Ok((all, m)) => Ok((all, w + 1 + n + m)),
            },
        }
    } else {
        let n = run_len(s, p + 1, CharClass::Except('<'));
        let node = text_node(s.subrange(p, p + 1 + n));
        match nodes_from(s, p + 1 + n, acc.push(node)) {
            Err(e) => Err(e),
            Ok((all, m)) => Ok((all, w + 1 + n + m)),
        }
    }
}

/// An element, from behind the `<` of its opening tag: a name, which is
/// one or more letters and digits, the attributes, `>`, the children, and
/// a closing tag of the same name.
pub open spec fn element_body(s: Seq<char>, pos: int) -> Parsed<NodeView>
    decreases remaining(s, pos), 0int,
{
    let n = run_len(s, pos, CharClass::Name);
    let name = s.subrange(pos, pos + n);
    match (if n == 0 {
        Err(error_at(s, pos, ParseErrorKind::UnexpectedCharacter))
    } else {
        attributes_from(s, pos + n, Map::empty())
    }) {
        Err(e) => Err(e),
        Ok((attributes, a)) => {
            let gt = pos + n + a;
            if !(0 <= pos && gt < s.len() && s[gt] == '>') {
                Err(error_at(s, gt, ParseErrorKind::ExpectedLiteral))
            } else {
                match nodes_from(s, gt + 1, Seq::empty()) {
                    Err(e) => Err(e),
                    Ok((children, c)) => {
                        let end = gt + 1 + c;
                        if !closing_at(s, end) {
                            Err(error_at(s, end, ParseErrorKind::ExpectedLiteral))
                        } else if !has_prefix_at(s, end + 2, name) {
                            Err(error_at(s, end + 2, ParseErrorKind::ExpectedLiteral))
                        } else if !(end + 2 + n < s.len() && s[end + 2 + n] == '>') {
                            Err(error_at(s, end + 2 + n, ParseErrorKind::ExpectedLiteral))
                        } else {
                            Ok((element_node(name, attributes, children), n + a + 1 + c + 2 + n + 1))
                        }
                    },
                }
            }
        },
    }
}

/// One node, at a position where there is a character: an element where
/// `<` stands, and a text anywhere else.
pub open spec fn node_at(s: Seq<char>, pos: int) -> Parsed<NodeView> {
    if s[pos] == '<' {
        later(element_body(s, pos + 1), 1)
    } else {
        let n = run_len(s, pos + 1, CharClass::Except('<'));
        Ok((text_node(s.subrange(pos, pos + 1 + n)), 1 + n))
    }
}

/// The document that a source text denotes: the element at the top, where
/// exactly one node stands there and is an element; else an `html`
/// element around the nodes at the top.
pub open spec fn document_of(source: Seq<char>) -> Result<NodeView, ParseError> {
    match nodes_from(source, 0, Seq::empty()) {
        Err(e) => Err(e),
        Ok((nodes, _)) => if nodes.len() == 1 && nodes[0].node_type is Element {
            Ok(nodes[0])
        } else {
            Ok(element_node("html"@, Map::empty(), nodes))
        },
    }
}


/// A reader of markup.
struct Parser {
    cursor: Cursor,
}

impl Parser {
    /// The input, as the grammar sees it.
    spec fn text(&self) -> Seq<char> {
        self.cursor.input@
    }

    /// The position, as the grammar sees it.
    spec fn at(&self) -> int {
        self.cursor.pos as int
    }

    /// Whether the reader has the input that it had in `before`.
    spec fn same_input(&self, before: &Parser) -> bool {
        self.cursor.wf() && self.cursor.input == before.cursor.input
    }

    /// Whether the reader is as it was in `before` but `n` characters
    /// further on.
    spec fn moved(&self, before: &Parser, n: nat) -> bool {
        self.same_input(before) && self.cursor.pos == before.cursor.pos + n
    }

    /// Whether a closing tag starts at the current position.
    fn at_closing(&self) -> (r: bool)
        requires
            self.cursor.wf(),
        ensures
            r == closing_at(self.text(), self.at()),
    {
        let pos = self.cursor.pos;
        let len = self.cursor.input.len();
        pos < len && len - pos > 1 && self.cursor.input[pos] == '<' && self.cursor.input[pos + 1]
            == '/'
    }

    /// Parses a tag or attribute name.
    fn parse_name(&mut self) -> (r: String)
        requires
            old(self).cursor.wf(),
        ensures
            final(self).moved(old(self), run_len(old(self).text(), old(self).at(), CharClass::Name)),
            r@ == old(self).text().subrange(old(self).at(), final(self).at()),
    {
        self.cursor.consume_while(CharClass::Name)
    }

    /// Parses a quoted value.
    fn parse_attr_value(&mut self) -> (r: Result<String, ParseError>)
        requires
            old(self).cursor.wf(),
        ensures
            final(self).same_input(old(self)),
            match attr_value_at(old(self).text(), old(self).at()) {
                Ok((v, n)) => r matches Ok(x) && x@ == v && final(self).at() == old(self).at() + n,
                Err(e) => r matches Err(x) && x == e,
            },
    {
        let open_quote = match self.cursor.next_char() {
            Some(c) => c,
            None => {
                return Err(self.cursor.error(ParseErrorKind::UnexpectedCharacter));
            },
        };
        if !(open_quote == '"' || open_quote == '\'') {
            return Err(self.cursor.error(ParseErrorKind::UnexpectedCharacter));
        }
        self.cursor.consume_char();
        let value = self.cursor.consume_while(CharClass::Except(open_quote));
        // What stands here, if anything does, is the closing quote.
        proof {
            crate::text::lemma_run_end(
                self.text(),
                old(self).at() + 1,
                CharClass::Except(open_quote),
            );
        }
        match self.cursor.consume_char() {
            Some(_) => Ok(value),
            None => Err(self.cursor.error(ParseErrorKind::UnexpectedCharacter)),
        }
    }

    /// Parses a single `name="value"` pair.
    fn parse_attr(&mut self) -> (r: Result<(String, String), ParseError>)
        requires
            old(self).cursor.wf(),
        ensures
            final(self).same_input(old(self)),
            match attr_at(old(self).text(), old(self).at()) {
                Ok((v, n)) => r matches Ok(x) && (x.0@, x.1@) == v && final(self).at() == old(self).at() + n,
                Err(e) => r matches Err(x) && x == e,
            },
    {
        let start = self.cursor.pos;
        let name = self.parse_name();
        if self.cursor.pos == start {
            return Err(self.cursor.error(ParseErrorKind::UnexpectedCharacter));
        }
        self.cursor.expect_char('=')?;
        let value = self.parse_attr_value()?;
        Ok((name, value))
    }

    /// Parses a list of `name="value"` pairs, separated by white space, up
    /// to the `>` behind them.
    fn parse_attributes(&mut self) -> (r: Result<AttrMap, ParseError>)
        requires
            old(self).cursor.wf(),
        ensures
            final(self).same_input(old(self)),
            match attributes_from(old(self).text(), old(self).at(), Map::empty()) {
                Ok((v, n)) => r matches Ok(x) && x@ == v && final(self).at() == old(self).at() + n,
                Err(e) => r matches Err(x) && x == e,
            },
    {
        let mut attributes: AttrMap = StrMap::new();
        let ghost s = self.text();
        let ghost start = self.at();
        let ghost goal = attributes_from(s, start, Map::empty());
        loop
            invariant_except_break
                goal == later(attributes_from(s, self.at(), attributes@), self.at() - start),
            invariant
                self.same_input(old(self)),
                s == self.text(),
                start == old(self).at(),
                start <= self.at(),
                goal == attributes_from(s, start, Map::empty()),
            ensures
                self.same_input(old(self)),
                goal == Ok::<(Map<Seq<char>, Seq<char>>, nat), ParseError>(
                    (attributes@, (self.at() - start) as nat),
                ),
            decreases s.len() - self.at(),
        {
            self.cursor.consume_whitespace();
            match self.cursor.next_char() {
                None => {
                    return Err(self.cursor.error(ParseErrorKind::UnexpectedCharacter));
                },
                Some('>') => {
                    break ;
                },
                Some(_) => {
                    let (name, value) = self.parse_attr()?;
                    attributes.insert(name, value);
                },
            }
        }
        Ok(attributes)
    }

    /// Parses a text node.
    fn parse_text(&mut self) -> (r: Node)
        requires
            old(self).cursor.wf(),
            old(self).at() < old(self).text().len(),
            old(self).text()[old(self).at()] != '<',
        ensures
            final(self).moved(
                old(self),
                1 + run_len(old(self).text(), old(self).at() + 1, CharClass::Except('<')),
            ),
            r@ == text_node(old(self).text().subrange(old(self).at(), final(self).at())),
    {
        text(self.cursor.consume_while(CharClass::Except('<')))
    }

    /// Parses a single element: its opening tag, its contents and its
    /// closing tag.
    fn parse_element(&mut self) -> (r: Result<Node, ParseError>)
        requires
            old(self).cursor.wf(),
            old(self).at() < old(self).text().len(),
            old(self).text()[old(self).at()] == '<',
        ensures
            final(self).same_input(old(self)),
            match element_body(old(self).text(), old(self).at() + 1) {
                Ok((v, n)) => r matches Ok(x) && x@ == v && final(self).at() == old(self).at() + 1
                    + n,
                Err(e) => r matches Err(x) && x == e,
            },
        decreases old(self).text().len() - old(self).at(), 0int,
    {
        // Opening tag.
        self.cursor.expect_char('<')?;
        let start = self.cursor.pos;
        let tag_name = self.parse_name();
        if self.cursor.pos == start {
            return Err(self.cursor.error(ParseErrorKind::UnexpectedCharacter));
        }
        let attrs = self.parse_attributes()?;
        self.cursor.expect_char('>')?;

        // Contents.
        let children = self.parse_nodes()?;

        // Closing tag.
        if !self.at_closing() {
            return Err(self.cursor.error(ParseErrorKind::ExpectedLiteral));
        }
        self.cursor.consume_char();
        self.cursor.consume_char();
        self.cursor.expect(tag_name.as_str())?;
        self.cursor.expect_char('>')?;

        Ok(elem(tag_name, attrs, children))
    }

    /// Parses a single node.
    fn parse_node(&mut self) -> (r: Result<Node, ParseError>)
        requires
            old(self).cursor.wf(),
            old(self).at() < old(self).text().len(),
        ensures
            final(self).same_input(old(self)),
            match node_at(old(self).text(), old(self).at()) {
                Ok((v, n)) => r matches Ok(x) && x@ == v && final(self).at() == old(self).at() + n,
                Err(e) => r matches Err(x) && x == e,
            },
        decreases old(self).text().len() - old(self).at(), 1int,
    {
        if self.cursor.input[self.cursor.pos] == '<' {
            self.parse_element()
        } else {
            Ok(self.parse_text())
        }
    }

    /// Parses a sequence of sibling nodes.
    fn parse_nodes(&mut self) -> (r: Result<Vec<Node>, ParseError>)
        requires
            old(self).cursor.wf(),
        ensures
            final(self).same_input(old(self)),
            match nodes_from(old(self).text(), old(self).at(), Seq::empty()) {
                Ok((v, n)) => r matches Ok(x) && node_views(x@) == v && final(self).at() == old(self).at() + n,
                Err(e) => r matches Err(x) && x == e,
            },
        decreases old(self).text().len() - old(self).at(), 2int,
    {
        let mut nodes: Vec<Node> = Vec::new();
        let ghost s = self.text();
        let ghost start = self.at();
        let ghost goal = nodes_from(s, start, Seq::empty());
        assert(node_views(nodes@) =~= Seq::empty());
        loop
            invariant_except_break
                goal == later(nodes_from(s, self.at(), node_views(nodes@)), self.at() - start),
            invariant
                self.same_input(old(self)),
                s == self.text(),
                start == old(self).at(),
                start <= self.at(),
                goal == nodes_from(s, start, Seq::empty()),
            ensures
                self.same_input(old(self)),
                goal == Ok::<(Seq<NodeView>, nat), ParseError>(
                    (node_views(nodes@), (self.at() - start) as nat),
                ),
            decreases s.len() - self.at(),
        {
            self.cursor.consume_whitespace();
            if self.cursor.eof() || self.at_closing() {
                break ;
            }
            let ghost before = nodes@;
            let node = self.parse_node()?;
            proof {
                assert(node_views(before.push(node)) =~= node_views(before).push(node@));
            }
            nodes.push(node);
        }
        Ok(nodes)
    }
}

/// Parses a document and returns its root: the element at the top, if
/// exactly one node stands there and is an element, and an `html` element
/// around the nodes at the top otherwise.
pub fn parse(source: String) -> (r: Result<Node, ParseError>)
    ensures
        match document_of(source@) {
            Ok(v) => r matches Ok(x) && x@ == v,
            Err(e) => r matches Err(x) && x == e,
        },
{
    let mut parser = Parser { cursor: Cursor::new(source.as_str()) };
    let mut nodes = parser.parse_nodes()?;
    // If the document contains a root element, just return it. Otherwise,
    // create one.
    let single = nodes.len() == 1 && match &nodes[0].node_type {
        NodeType::Element(_) => true,
        NodeType::Text(_) => false,
    };
    if single {
        Ok(nodes.remove(0))
    } else {
        Ok(elem("html".to_string(), StrMap::new(), nodes))
    }
}


/// One attribute as it is written.
pub ghost struct Attribute {
    /// The white space before the name.
    pub lead: Seq<char>,
    pub name: Seq<char>,
    /// The quotation mark on both sides of the value.
    pub quote: char,
    pub value: Seq<char>,
}

/// Markup as it is written, with the white space that the reader passes
/// over: an element with its attributes in the order in which they stand,
/// or a text. `lead` is the white space before the node, `close` that
/// before the `>` of an opening tag, and `end` that between the last child
/// of an element and its closing tag.
pub ghost enum Markup {
    Element {
        lead: Seq<char>,
        name: Seq<char>,
        attributes: Seq<Attribute>,
        close: Seq<char>,
        children: Seq<Markup>,
        end: Seq<char>,
    },
    Text { lead: Seq<char>, data: Seq<char> },
}

/// Whether `x` is made of white space alone.
pub open spec fn spaces(x: Seq<char>) -> bool {
    forall|i: int| 0 <= i < x.len() ==> whitespace(#[trigger] x[i])
}

/// The white space before a piece of markup.
pub open spec fn lead_of(m: Markup) -> Seq<char> {
    match m {
        Markup::Element { lead, .. } => lead,
        Markup::Text { lead, .. } => lead,
    }
}

/// One attribute as it is written: white space, the name, `=` and the
/// value between two quotation marks.
pub open spec fn attr_text(a: Attribute) -> Seq<char> {
    a.lead + a.name + seq!['=', a.quote] + a.value + seq![a.quote]
}

/// Attributes as they are written, one after the other.
pub open spec fn attrs_text(attrs: Seq<Attribute>) -> Seq<char>
    decreases attrs.len(),
{
    if attrs.len() == 0 {
        Seq::empty()
    } else {
        attr_text(attrs[0]) + attrs_text(attrs.drop_first())
    }
}

/// An opening tag as it is written.
pub open spec fn open_tag(name: Seq<char>, attrs: Seq<Attribute>, close: Seq<char>) -> Seq<char> {
    seq!['<'] + name + attrs_text(attrs) + close + seq!['>']
}

/// A closing tag as it is written.
pub open spec fn close_tag(name: Seq<char>) -> Seq<char> {
    seq!['<', '/'] + name + seq!['>']
}

/// A piece of markup as it is written behind its leading white space.
pub open spec fn body(m: Markup) -> Seq<char>
    decreases m, 1int,
{
    match m {
        Markup::Element { name, attributes, close, children, end, .. } => open_tag(
            name,
            attributes,
            close,
        ) + render_all(children) + end + close_tag(name),
        Markup::Text { data, .. } => data,
    }
}

/// The source text of a piece of markup.
pub open spec fn render(m: Markup) -> Seq<char>
    decreases m, 2int,
{
    lead_of(m) + body(m)
}

/// The source text of pieces of markup that follow one another.
pub open spec fn render_all(ms: Seq<Markup>) -> Seq<char>
    decreases ms, 0int,
{
    if ms.len() == 0 {
        Seq::empty()
    } else {
        render(ms[0]) + render_all(ms.drop_first())
    }
}

/// The attributes bound in order over what `acc` binds: a name that
/// occurs again overwrites what it was bound to.
pub open spec fn bind_all(acc: Map<Seq<char>, Seq<char>>, attrs: Seq<Attribute>) -> Map<
    Seq<char>,
    Seq<char>,
>
    decreases attrs.len(),
{
    if attrs.len() == 0 {
        acc
    } else {
        bind_all(acc.insert(attrs[0].name, attrs[0].value), attrs.drop_first())
    }
}

/// The node that a piece of markup stands for.
pub open spec fn node_of(m: Markup) -> NodeView
    decreases m, 1int,
{
    match m {
        Markup::Element { name, attributes, children, .. } => element_node(
            name,
            bind_all(Map::empty(), attributes),
            nodes_of(children),
        ),
        Markup::Text { data, .. } => text_node(data),
    }
}

/// The nodes that pieces of markup stand for.
pub open spec fn nodes_of(ms: Seq<Markup>) -> Seq<NodeView>
    decreases ms, 0int,
{
    if ms.len() == 0 {
        Seq::empty()
    } else {
        seq![node_of(ms[0])] + nodes_of(ms.drop_first())
    }
}

/// Whether a name is one: one or more letters and digits.
pub open spec fn is_name(name: Seq<char>) -> bool {
    name.len() > 0 && forall|i: int| 0 <= i < name.len() ==> name_char(#[trigger] name[i])
}

/// Whether an attribute can be written: what stands before it is white
/// space, its name is a name, its quotation mark is one of the two, and
/// its value does not hold that mark.
pub open spec fn attr_writable(a: Attribute) -> bool {
    &&& spaces(a.lead)
    &&& is_name(a.name)
    &&& (a.quote == '"' || a.quote == '\'')
    &&& forall|j: int| 0 <= j < a.value.len() ==> a.value[j] != a.quote
}

/// Whether each of the attributes can be written.
pub open spec fn attrs_writable(attrs: Seq<Attribute>) -> bool {
    forall|i: int| 0 <= i < attrs.len() ==> attr_writable(#[trigger] attrs[i])
}

/// Whether the attributes can stand behind a name: each can be written,
/// and there is white space before the first, which would else read as
/// part of the name. Behind the closing quotation mark of a value the next
/// attribute may follow at once.
pub open spec fn attrs_follow_name(attrs: Seq<Attribute>) -> bool {
    attrs_writable(attrs) && (attrs.len() > 0 ==> attrs[0].lead.len() > 0)
}

/// Whether a piece of markup is read back as it is written. What stands
/// for white space is white space. The name of an element is a name, and
/// its attributes can stand behind it. A text is not empty, holds no `<` and
/// does not start with white space: white space before it is its lead.
pub open spec fn writable(m: Markup) -> bool
    decreases m, 1int,
{
    match m {
        Markup::Element { lead, name, attributes, close, children, end } => spaces(lead)
            && is_name(name) && attrs_follow_name(attributes) && spaces(close) && all_writable(
            children,
            end,
        ),
        Markup::Text { lead, data } => spaces(lead) && data.len() > 0 && !whitespace(data[0])
            && forall|i: int| 0 <= i < data.len() ==> data[i] != '<',
    }
}

/// Whether pieces of markup that follow one another, and the white space
/// `end` behind them, are read back as they are written: each is, and
/// what follows a text directly is an element without white space before
/// it, or an empty `end`. A text runs up to the next `<`, so white space
/// behind a text belongs to the text, and a second text would read as one
/// with the first.
pub open spec fn all_writable(ms: Seq<Markup>, end: Seq<char>) -> bool
    decreases ms, 0int,
{
    if ms.len() == 0 {
        spaces(end)
    } else {
        &&& writable(ms[0])
        &&& all_writable(ms.drop_first(), end)
        &&& ms[0] is Text ==> if ms.len() > 1 {
            ms[1] is Element && lead_of(ms[1]).len() == 0
        } else {
            end.len() == 0
        }
    }
}

proof fn lemma_split(s: Seq<char>, p: int, a: Seq<char>, b: Seq<char>)
    requires
        has_prefix_at(s, p, a + b),
    ensures
        has_prefix_at(s, p, a),
        has_prefix_at(s, p + a.len(), b),
{
    let whole = s.subrange(p, p + (a + b).len());
    assert(s.subrange(p, p + a.len()) =~= whole.subrange(0, a.len() as int));
    assert((a + b).subrange(0, a.len() as int) =~= a);
    assert(s.subrange(p + a.len(), p + a.len() + b.len()) =~= whole.subrange(
        a.len() as int,
        (a + b).len() as int,
    ));
    assert((a + b).subrange(a.len() as int, (a + b).len() as int) =~= b);
}

proof fn lemma_char_at(s: Seq<char>, p: int, x: Seq<char>, i: int)
    requires
        has_prefix_at(s, p, x),
        0 <= i < x.len(),
    ensures
        s[p + i] == x[i],
{
    assert(s.subrange(p, p + x.len())[i] == x[i]);
}

/// A run of exactly `x`: `x` stands at `p`, is made of the class, and is
/// followed by the end or by a character outside the class.
proof fn lemma_run_exact(s: Seq<char>, p: int, x: Seq<char>, class: CharClass)
    requires
        has_prefix_at(s, p, x),
        forall|i: int| 0 <= i < x.len() ==> class.holds(#[trigger] x[i]),
        p + x.len() == s.len() || !class.holds(s[p + x.len()]),
    ensures
        run_len(s, p, class) == x.len(),
        s.subrange(p, p + run_len(s, p, class)) == x,
{
    assert forall|i: int| p <= i < p + x.len() implies class.holds(#[trigger] s[i]) by {
        lemma_char_at(s, p, x, i - p);
        assert(class.holds(x[i - p]));
    }
    lemma_run_end_step(s, p, p + x.len(), class);
}

/// White space that stands at `p` before something else is the run of
/// white space there.
proof fn lemma_lead(s: Seq<char>, p: int, lead: Seq<char>)
    requires
        has_prefix_at(s, p, lead),
        spaces(lead),
        p + lead.len() == s.len() || !whitespace(s[p + lead.len()]),
    ensures
        run_len(s, p, CharClass::Whitespace) == lead.len(),
{
    assert forall|i: int| 0 <= i < lead.len() implies CharClass::Whitespace.holds(
        #[trigger] lead[i],
    ) by {}
    lemma_run_exact(s, p, lead, CharClass::Whitespace);
}

proof fn lemma_attribute_reads_back(s: Seq<char>, p: int, a: Attribute)
    requires
        attr_writable(a),
        has_prefix_at(s, p, attr_text(a)),
    ensures
        run_len(s, p, CharClass::Whitespace) == a.lead.len(),
        p + a.lead.len() < s.len(),
        s[p + a.lead.len()] != '>',
        attr_at(s, p + a.lead.len()) == Ok::<((Seq<char>, Seq<char>), nat), ParseError>(
            ((a.name, a.value), (attr_text(a).len() - a.lead.len()) as nat),
        ),
{
    let mark = seq![a.quote];
    let sign = seq!['=', a.quote];
    assert(attr_text(a) =~= a.lead + (a.name + (sign + (a.value + mark))));
    lemma_split(s, p, a.lead, a.name + (sign + (a.value + mark)));
    let p_name = p + a.lead.len();
    lemma_split(s, p_name, a.name, sign + (a.value + mark));
    let q = p_name + a.name.len();
    lemma_split(s, q, sign, a.value + mark);
    lemma_char_at(s, q, sign, 0);
    lemma_char_at(s, q, sign, 1);
    lemma_split(s, q + 2, a.value, mark);
    lemma_char_at(s, q + 2 + a.value.len(), mark, 0);
    lemma_char_at(s, p_name, a.name, 0);
    assert(name_char(a.name[0]));
    lemma_lead(s, p, a.lead);
    assert forall|i: int| 0 <= i < a.name.len() implies CharClass::Name.holds(
        #[trigger] a.name[i],
    ) by {}
    lemma_run_exact(s, p_name, a.name, CharClass::Name);
    assert forall|i: int| 0 <= i < a.value.len() implies CharClass::Except(a.quote).holds(
        #[trigger] a.value[i],
    ) by {
        assert(a.value[i] != a.quote);
    }
    lemma_run_exact(s, q + 2, a.value, CharClass::Except(a.quote));
    assert(attr_value_at(s, q + 1) == Ok::<(Seq<char>, nat), ParseError>(
        (a.value, (a.value.len() + 2) as nat),
    ));
}

proof fn lemma_attributes_read_back(
    s: Seq<char>,
    p: int,
    attrs: Seq<Attribute>,
    close: Seq<char>,
    acc: Map<Seq<char>, Seq<char>>,
)
    requires
        attrs_writable(attrs),
        spaces(close),
        has_prefix_at(s, p, attrs_text(attrs) + close),
        p + attrs_text(attrs).len() + close.len() < s.len(),
        s[p + attrs_text(attrs).len() + close.len()] == '>',
    ensures
        attributes_from(s, p, acc) == Ok::<(Map<Seq<char>, Seq<char>>, nat), ParseError>(
            (bind_all(acc, attrs), attrs_text(attrs).len() + close.len()),
        ),
    decreases attrs.len(),
{
    if attrs.len() == 0 {
        assert(attrs_text(attrs) + close =~= close);
        lemma_lead(s, p, close);
    } else {
        let a = attrs[0];
        let rest = attrs.drop_first();
        let here = attr_text(a);
        assert(attrs_text(attrs) + close =~= here + (attrs_text(rest) + close));
        lemma_split(s, p, here, attrs_text(rest) + close);
        assert(attr_writable(a));
        lemma_attribute_reads_back(s, p, a);
        assert forall|i: int| 0 <= i < rest.len() implies attr_writable(#[trigger] rest[i]) by {
            assert(rest[i] == attrs[i + 1]);
        }
        lemma_attributes_read_back(s, p + here.len(), rest, close, acc.insert(a.name, a.value));
    }
}

/// An element as it is written starts with `<` and a character of its
/// name, so it is no closing tag.
proof fn lemma_element_start(s: Seq<char>, p: int, m: Markup)
    requires
        m is Element,
        writable(m),
        has_prefix_at(s, p, body(m)),
    ensures
        p + 1 < s.len(),
        s[p] == '<',
        s[p + 1] != '/',
        !whitespace(s[p]),
{
    let text = body(m);
    let name = m->name;
    assert(text[0] == '<');
    assert(text[1] == name[0]);
    assert(name_char(name[0]));
    lemma_char_at(s, p, text, 0);
    lemma_char_at(s, p, text, 1);
}

proof fn lemma_element_reads_back(s: Seq<char>, p: int, m: Markup)
    requires
        m is Element,
        writable(m),
        has_prefix_at(s, p, body(m)),
    ensures
        element_body(s, p + 1) == Ok::<(NodeView, nat), ParseError>(
            (node_of(m), (body(m).len() - 1) as nat),
        ),
    decreases m, 1int,
{
    let name = m->name;
    let attrs = m->attributes;
    let close = m->close;
    let children = m->children;
    let end = m->end;
    let open = open_tag(name, attrs, close);
    let inner = render_all(children) + end;
    let shut = close_tag(name);
    assert(body(m) =~= open + (inner + shut));
    lemma_split(s, p, open, inner + shut);
    let p_in = p + open.len();
    lemma_split(s, p_in, inner, shut);
    let p_shut = p_in + inner.len();
    // the opening tag
    let gt = seq!['>'];
    let tail = attrs_text(attrs) + close;
    assert(open =~= seq!['<'] + (name + (tail + gt)));
    lemma_split(s, p, seq!['<'], name + (tail + gt));
    lemma_split(s, p + 1, name, tail + gt);
    let p_attrs = p + 1 + name.len();
    lemma_split(s, p_attrs, tail, gt);
    let p_gt = p_attrs + tail.len();
    lemma_char_at(s, p_gt, gt, 0);
    // the name ends where white space or the `>` begins
    if tail.len() > 0 {
        lemma_char_at(s, p_attrs, tail, 0);
        if attrs.len() > 0 {
            assert(attr_writable(attrs[0]));
            assert(whitespace(attrs[0].lead[0]));
            assert(attr_text(attrs[0])[0] == attrs[0].lead[0]);
            assert(tail[0] == attrs[0].lead[0]);
        } else {
            assert(tail =~= close);
            assert(whitespace(close[0]));
        }
        assert(whitespace(s[p_attrs]));
    }
    assert(!name_char(s[p_attrs]));
    assert forall|i: int| 0 <= i < name.len() implies CharClass::Name.holds(#[trigger] name[i]) by {}
    lemma_run_exact(s, p + 1, name, CharClass::Name);
    lemma_attributes_read_back(s, p_attrs, attrs, close, Map::empty());
    assert(p_gt + 1 == p_in);
    // the closing tag
    assert(shut =~= seq!['<', '/'] + (name + gt));
    lemma_split(s, p_shut, seq!['<', '/'], name + gt);
    lemma_char_at(s, p_shut, seq!['<', '/'], 0);
    lemma_char_at(s, p_shut, seq!['<', '/'], 1);
    lemma_split(s, p_shut + 2, name, gt);
    lemma_char_at(s, p_shut + 2 + name.len(), gt, 0);
    assert(closing_at(s, p_shut));
    // the children
    lemma_nodes_read_back(s, p_in, children, end, Seq::empty());
    assert(Seq::<NodeView>::empty() + nodes_of(children) =~= nodes_of(children));
}

proof fn lemma_nodes_read_back(
    s: Seq<char>,
    p: int,
    ms: Seq<Markup>,
    end: Seq<char>,
    acc: Seq<NodeView>,
)
    requires
        all_writable(ms, end),
        has_prefix_at(s, p, render_all(ms) + end),
        p + render_all(ms).len() + end.len() == s.len() || closing_at(
            s,
            p + render_all(ms).len() + end.len(),
        ),
    ensures
        nodes_from(s, p, acc) == Ok::<(Seq<NodeView>, nat), ParseError>(
            (acc + nodes_of(ms), render_all(ms).len() + end.len()),
        ),
    decreases ms, 0int,
{
    if ms.len() == 0 {
        assert(render_all(ms) + end =~= end);
        lemma_lead(s, p, end);
        assert(acc + nodes_of(ms) =~= acc);
    } else {
        let first = ms[0];
        let rest = ms.drop_first();
        assert(writable(first) && all_writable(rest, end));
        let lead = lead_of(first);
        let here = body(first);
        let after = render_all(rest) + end;
        assert(render_all(ms) == render(first) + render_all(rest));
        assert(render(first) == lead + here);
        assert(render_all(ms) + end =~= lead + (here + after));
        lemma_split(s, p, lead, here + after);
        let at = p + lead.len();
        lemma_split(s, at, here, after);
        let q = at + here.len();
        assert(acc.push(node_of(first)) + nodes_of(rest) =~= acc + nodes_of(ms));
        assert(spaces(lead));
        match first {
            Markup::Element { .. } => {
                lemma_element_start(s, at, first);
                lemma_lead(s, p, lead);
                lemma_element_reads_back(s, at, first);
                lemma_nodes_read_back(s, q, rest, end, acc.push(node_of(first)));
            },
            Markup::Text { data, .. } => {
                lemma_char_at(s, at, data, 0);
                lemma_lead(s, p, lead);
                assert(!closing_at(s, at));
                // what follows the text, if anything does, is a `<`
                if rest.len() > 0 {
                    assert(rest[0] == ms[1]);
                    let next = rest[0];
                    assert(writable(next));
                    assert(render_all(rest) == render(next) + render_all(rest.drop_first()));
                    assert(render(next) =~= body(next));
                    assert(after =~= body(next) + (render_all(rest.drop_first()) + end));
                    lemma_split(s, q, body(next), render_all(rest.drop_first()) + end);
                    lemma_element_start(s, q, next);
                } else {
                    assert(after.len() == 0);
                }
                assert(q == s.len() || s[q] == '<');
                let tail = data.subrange(1, data.len() as int);
                assert(data =~= seq![data[0]] + tail);
                lemma_split(s, at, seq![data[0]], tail);
                assert forall|i: int| 0 <= i < tail.len() implies CharClass::Except('<').holds(
                    #[trigger] tail[i],
                ) by {
                    assert(tail[i] == data[i + 1]);
                }
                lemma_run_exact(s, at + 1, tail, CharClass::Except('<'));
                assert(s.subrange(at, at + 1 + tail.len()) =~= data);
                lemma_nodes_read_back(s, q, rest, end, acc.push(node_of(first)));
            },
        }
    }
}

/// Round trip: markup that is written and parsed gives the tree that it
/// stands for, with every element and every text in its place, whatever
/// white space stands between the nodes and in the opening tags, and
/// whichever quotation mark each attribute value stands in. A single
/// element at the top is the root; anything else at the top comes under
/// an `html` element.
pub proof fn lemma_markup_reads_back(ms: Seq<Markup>, end: Seq<char>)
    requires
        all_writable(ms, end),
    ensures
        document_of(render_all(ms) + end) == Ok::<NodeView, ParseError>(
            if ms.len() == 1 && ms[0] is Element {
                node_of(ms[0])
            } else {
                element_node("html"@, Map::empty(), nodes_of(ms))
            },
        ),
{
    let s = render_all(ms) + end;
    assert(s.subrange(0, s.len() as int) =~= s);
    lemma_nodes_read_back(s, 0, ms, end, Seq::empty());
    assert(Seq::<NodeView>::empty() + nodes_of(ms) =~= nodes_of(ms));
    lemma_nodes_count(ms);
    if ms.len() == 1 {
        assert(nodes_of(ms)[0] == node_of(ms[0]));
    }
}

/// Each piece of markup stands for one node.
proof fn lemma_nodes_count(ms: Seq<Markup>)
    ensures
        nodes_of(ms).len() == ms.len(),
    decreases ms.len(),
{
    if ms.len() > 0 {
        lemma_nodes_count(ms.drop_first());
    }
}

/// Whether a text is read to its end as a sequence of nodes.
pub open spec fn read_whole(s: Seq<char>) -> bool {
    match nodes_from(s, 0, Seq::empty()) {
        Ok((_, n)) => n == s.len(),
        Err(_) => false,
    }
}

/// Whether `ms` and `end` are what is written in `s` at `pos`.
pub open spec fn written_at(s: Seq<char>, pos: int, n: nat, ms: Seq<Markup>, end: Seq<char>) -> bool {
    &&& all_writable(ms, end)
    &&& render_all(ms) + end == s.subrange(pos, pos + n)
    &&& starts_as(s, pos, ms)
    &&& ms.len() == 0 ==> n == run_len(s, pos, CharClass::Whitespace)
}

/// Whether `ms` starts as the nodes at `pos` do: there is none where the
/// input or the element ends behind the white space, and else the first
/// has that white space before it and is an element where a `<` stands.
pub open spec fn starts_as(s: Seq<char>, pos: int, ms: Seq<Markup>) -> bool {
    let p = run_end(s, pos, CharClass::Whitespace);
    if p >= s.len() || closing_at(s, p) {
        ms.len() == 0
    } else {
        ms.len() > 0 && lead_of(ms[0]).len() == p - pos && (ms[0] is Element <==> s[p] == '<')
    }
}

/// Whether `attrs` and `close` are what is written in `s` at `pos`.
pub open spec fn attrs_written_at(
    s: Seq<char>,
    pos: int,
    n: nat,
    attrs: Seq<Attribute>,
    close: Seq<char>,
) -> bool {
    &&& attrs_writable(attrs)
    &&& spaces(close)
    &&& attrs_text(attrs) + close == s.subrange(pos, pos + n)
    &&& attrs.len() > 0 ==> attrs[0].lead.len() == run_len(s, pos, CharClass::Whitespace) && s[run_end(
        s,
        pos,
        CharClass::Whitespace,
    )] != '>'
}

/// Whether `m` is the element written in `s` from the `<` before `pos`,
/// with `lead` before it.
pub open spec fn element_written_at(s: Seq<char>, pos: int, n: nat, lead: Seq<char>, m: Markup) -> bool {
    &&& m is Element
    &&& lead_of(m) == lead
    &&& writable(m)
    &&& body(m) == s.subrange(pos - 1, pos + n)
}

proof fn lemma_attributes_written(s: Seq<char>, pos: int, acc: Map<Seq<char>, Seq<char>>)
    requires
        0 <= pos <= s.len(),
        attributes_from(s, pos, acc) is Ok,
    ensures
        ({
            let n = attributes_from(s, pos, acc)->Ok_0.1;
            &&& pos + n < s.len()
            &&& s[pos + n] == '>'
            &&& exists|attrs: Seq<Attribute>, close: Seq<char>| #[trigger]
                attrs_written_at(s, pos, n, attrs, close)
        }),
    decreases remaining(s, pos),
{
    let w = run_len(s, pos, CharClass::Whitespace);
    let p = pos + w;
    lemma_run_end(s, pos, CharClass::Whitespace);
    let lead = s.subrange(pos, p);
    assert(spaces(lead)) by {
        assert forall|i: int| 0 <= i < lead.len() implies whitespace(#[trigger] lead[i]) by {
            assert(CharClass::Whitespace.holds(s[pos + i]));
        }
    }
    if s[p] == '>' {
        let none = Seq::<Attribute>::empty();
        assert(attrs_text(none) + lead =~= s.subrange(pos, pos + w));
        assert(attrs_written_at(s, pos, w, none, lead));
    } else {
        let k = run_len(s, p, CharClass::Name);
        lemma_run_end(s, p, CharClass::Name);
        let name = s.subrange(p, p + k);
        let quote = s[p + k + 1];
        let from = p + k + 2;
        let v = run_len(s, from, CharClass::Except(quote));
        lemma_run_end(s, from, CharClass::Except(quote));
        let value = s.subrange(from, from + v);
        assert(attr_at(s, p) == Ok::<((Seq<char>, Seq<char>), nat), ParseError>(
            ((name, value), (k + 1 + v + 2) as nat),
        ));
        let a = Attribute { lead, name, quote, value };
        let next = from + v + 1;
        assert(s[next - 1] == quote);
        assert(attr_writable(a)) by {
            assert forall|i: int| 0 <= i < name.len() implies name_char(#[trigger] name[i]) by {
                assert(CharClass::Name.holds(s[p + i]));
            }
            assert forall|j: int| 0 <= j < value.len() implies value[j] != quote by {
                assert(CharClass::Except(quote).holds(s[from + j]));
            }
        }
        assert(attr_text(a) =~= s.subrange(pos, next));
        lemma_attributes_written(s, next, acc.insert(name, value));
        let m = attributes_from(s, next, acc.insert(name, value))->Ok_0.1;
        let (rest, close) = choose|rest: Seq<Attribute>, close: Seq<char>| #[trigger]
            attrs_written_at(s, next, m, rest, close);
        let attrs = seq![a] + rest;
        assert(attrs[0] == a);
        assert(attrs.drop_first() =~= rest);
        assert(attrs_text(attrs) == attr_text(a) + attrs_text(rest));
        assert(attr_text(a) + attrs_text(rest) + close =~= s.subrange(pos, next) + (attrs_text(rest)
            + close));
        assert(s.subrange(pos, next) + s.subrange(next, next + m) =~= s.subrange(pos, next + m));
        assert forall|i: int| 0 <= i < attrs.len() implies attr_writable(#[trigger] attrs[i]) by {
            if i > 0 {
                assert(attrs[i] == rest[i - 1]);
            }
        }
        assert(attrs_written_at(s, pos, (next - pos + m) as nat, attrs, close));
    }
}

/// An element put together from its parts as they stand in `s`.
proof fn lemma_element_assembled(
    s: Seq<char>,
    pos: int,
    gt: int,
    shut: int,
    m: Markup,
)
    requires
        m is Element,
        1 <= pos,
        pos + m->name.len() <= gt < shut,
        s[pos - 1] == '<',
        spaces(lead_of(m)),
        is_name(m->name),
        m->name == s.subrange(pos, pos + m->name.len()),
        gt < s.len() && s[gt] == '>',
        attrs_follow_name(m->attributes),
        spaces(m->close),
        m->attributes.len() > 0 ==> m->attributes[0].lead.len() > 0,
        attrs_text(m->attributes) + m->close == s.subrange(pos + m->name.len(), gt),
        all_writable(m->children, m->end),
        render_all(m->children) + m->end == s.subrange(gt + 1, shut),
        closing_at(s, shut),
        has_prefix_at(s, shut + 2, m->name),
        shut + 2 + m->name.len() < s.len(),
        s[shut + 2 + m->name.len()] == '>',
    ensures
        writable(m),
        body(m) == s.subrange(pos - 1, shut + 2 + m->name.len() + 1),
{
    let name = m->name;
    let k = name.len() as int;
    let tail = attrs_text(m->attributes) + m->close;
    let inner = render_all(m->children) + m->end;
    let open = open_tag(name, m->attributes, m->close);
    let mark = seq!['>'];
    assert(open =~= seq!['<'] + name + tail + mark);
    assert(seq!['<'] =~= s.subrange(pos - 1, pos));
    assert(mark =~= s.subrange(gt, gt + 1));
    assert(s.subrange(pos - 1, pos) + s.subrange(pos, pos + k) =~= s.subrange(pos - 1, pos + k));
    assert(s.subrange(pos - 1, pos + k) + s.subrange(pos + k, gt) =~= s.subrange(pos - 1, gt));
    assert(s.subrange(pos - 1, gt) + s.subrange(gt, gt + 1) =~= s.subrange(pos - 1, gt + 1));
    assert(open =~= s.subrange(pos - 1, gt + 1));
    assert(close_tag(name) =~= s.subrange(shut, shut + 2 + k + 1)) by {
        assert forall|i: int| 0 <= i < k implies s[shut + 2 + i] == name[i] by {
            assert(s.subrange(shut + 2, shut + 2 + k)[i] == name[i]);
        }
    }
    assert(body(m) =~= open + inner + close_tag(name));
    assert(body(m) =~= s.subrange(pos - 1, shut + 2 + k + 1));
}

proof fn lemma_element_written(s: Seq<char>, pos: int, lead: Seq<char>)
    requires
        1 <= pos <= s.len(),
        s[pos - 1] == '<',
        spaces(lead),
        element_body(s, pos) is Ok,
    ensures
        ({
            let n = element_body(s, pos)->Ok_0.1;
            &&& pos + n <= s.len()
            &&& exists|m: Markup| #[trigger] element_written_at(s, pos, n, lead, m)
        }),
    decreases remaining(s, pos), 0int,
{
    let k = run_len(s, pos, CharClass::Name);
    lemma_run_end(s, pos, CharClass::Name);
    let name = s.subrange(pos, pos + k);
    assert(is_name(name)) by {
        assert forall|i: int| 0 <= i < name.len() implies name_char(#[trigger] name[i]) by {
            assert(CharClass::Name.holds(s[pos + i]));
        }
    }
    let p_attrs = pos + k;
    let none = Map::<Seq<char>, Seq<char>>::empty();
    assert(attributes_from(s, p_attrs, none) is Ok);
    lemma_attributes_written(s, p_attrs, none);
    let a = attributes_from(s, p_attrs, none)->Ok_0.1;
    let (attrs, close) = choose|attrs: Seq<Attribute>, close: Seq<char>| #[trigger]
        attrs_written_at(s, p_attrs, a, attrs, close);
    let gt = p_attrs + a;
    // there is white space between the name and the first attribute
    if attrs.len() > 0 && run_len(s, p_attrs, CharClass::Whitespace) == 0 {
        assert(!name_char(s[p_attrs]));
        assert(run_len(s, p_attrs, CharClass::Name) == 0);
        assert(attr_at(s, p_attrs) is Err);
    }
    assert(nodes_from(s, gt + 1, Seq::empty()) is Ok);
    lemma_nodes_written(s, gt + 1, Seq::empty());
    let c = nodes_from(s, gt + 1, Seq::empty())->Ok_0.1;
    let (children, end) = choose|children: Seq<Markup>, end: Seq<char>| #[trigger]
        written_at(s, gt + 1, c, children, end);
    let shut = gt + 1 + c;
    let n = element_body(s, pos)->Ok_0.1;
    assert(n == k + a + 1 + c + 2 + k + 1);
    let m = Markup::Element { lead, name, attributes: attrs, close, children, end };
    lemma_element_assembled(s, pos, gt, shut, m);
    assert(element_written_at(s, pos, n, lead, m));
}

/// The run of white space at `pos` is white space, and none follows it.
proof fn lemma_lead_written(s: Seq<char>, pos: int)
    requires
        0 <= pos <= s.len(),
    ensures
        ({
            let p = run_end(s, pos, CharClass::Whitespace);
            &&& pos <= p <= s.len()
            &&& spaces(s.subrange(pos, p))
            &&& p < s.len() ==> !whitespace(s[p])
        }),
{
    lemma_run_end(s, pos, CharClass::Whitespace);
    let p = run_end(s, pos, CharClass::Whitespace);
    let lead = s.subrange(pos, p);
    assert forall|i: int| 0 <= i < lead.len() implies whitespace(#[trigger] lead[i]) by {
        assert(CharClass::Whitespace.holds(s[pos + i]));
    }
    if p < s.len() {
        assert(!CharClass::Whitespace.holds(s[p]));
    }
}

/// A text as it stands in `s` at `p`, where there is neither white space
/// nor a `<`.
proof fn lemma_text_written(s: Seq<char>, p: int, lead: Seq<char>)
    requires
        0 <= p < s.len(),
        spaces(lead),
        !whitespace(s[p]),
        s[p] != '<',
    ensures
        ({
            let q = run_end(s, p + 1, CharClass::Except('<'));
            &&& p < q <= s.len()
            &&& q == s.len() || s[q] == '<'
            &&& writable(Markup::Text { lead, data: s.subrange(p, q) })
        }),
{
    lemma_run_end(s, p + 1, CharClass::Except('<'));
    let q = run_end(s, p + 1, CharClass::Except('<'));
    let data = s.subrange(p, q);
    assert forall|i: int| 0 <= i < data.len() implies data[i] != '<' by {
        if i > 0 {
            assert(CharClass::Except('<').holds(s[p + i]));
        }
    }
}

/// Nodes put together from the first and the rest as they stand in `s`.
proof fn lemma_nodes_assembled(
    s: Seq<char>,
    pos: int,
    q: int,
    m: nat,
    first: Markup,
    rest: Seq<Markup>,
    end: Seq<char>,
)
    requires
        0 <= pos,
        run_end(s, pos, CharClass::Whitespace) < q <= s.len(),
        !closing_at(s, run_end(s, pos, CharClass::Whitespace)),
        writable(first),
        lead_of(first) == s.subrange(pos, run_end(s, pos, CharClass::Whitespace)),
        body(first) == s.subrange(run_end(s, pos, CharClass::Whitespace), q),
        first is Element <==> s[run_end(s, pos, CharClass::Whitespace)] == '<',
        first is Text ==> q == s.len() || s[q] == '<',
        q + m <= s.len(),
        written_at(s, q, m, rest, end),
    ensures
        written_at(s, pos, (q - pos + m) as nat, seq![first] + rest, end),
{
    let p = run_end(s, pos, CharClass::Whitespace);
    let ms = seq![first] + rest;
    assert(ms[0] == first);
    assert(ms.drop_first() =~= rest);
    assert(starts_as(s, q, rest));
    if first is Text {
        assert(run_len(s, q, CharClass::Whitespace) == 0);
        assert(run_end(s, q, CharClass::Whitespace) == q);
        if rest.len() > 0 {
            assert(ms[1] == rest[0]);
            assert(lead_of(rest[0]).len() == 0);
            assert(rest[0] is Element);
        } else {
            assert(m == 0);
            assert(end =~= render_all(rest) + end);
            assert(end.len() == 0);
        }
    }
    assert(all_writable(rest, end));
    assert(all_writable(ms, end));
    assert(render_all(ms) == render(first) + render_all(rest));
    assert(render_all(ms) + end =~= s.subrange(pos, p) + s.subrange(p, q) + (render_all(rest)
        + end));
    assert(render_all(ms) + end =~= s.subrange(pos, q + m));
}

proof fn lemma_nodes_written(s: Seq<char>, pos: int, acc: Seq<NodeView>)
    requires
        0 <= pos <= s.len(),
        nodes_from(s, pos, acc) is Ok,
    ensures
        ({
            let n = nodes_from(s, pos, acc)->Ok_0.1;
            &&& pos + n <= s.len()
            &&& pos + n == s.len() || closing_at(s, pos + n)
            &&& exists|ms: Seq<Markup>, end: Seq<char>| #[trigger] written_at(s, pos, n, ms, end)
        }),
    decreases remaining(s, pos), 1int,
{
    let w = run_len(s, pos, CharClass::Whitespace);
    let p = pos + w;
    let lead = s.subrange(pos, p);
    lemma_lead_written(s, pos);
    if p >= s.len() || closing_at(s, p) {
        let none = Seq::<Markup>::empty();
        assert(render_all(none) + lead =~= s.subrange(pos, pos + w));
        assert(written_at(s, pos, w, none, lead));
    } else if s[p] == '<' {
        assert(element_body(s, p + 1) is Ok);
        lemma_element_written(s, p + 1, lead);
        let k = element_body(s, p + 1)->Ok_0.1;
        let node = element_body(s, p + 1)->Ok_0.0;
        let first = choose|m: Markup| #[trigger] element_written_at(s, p + 1, k, lead, m);
        let q = p + 1 + k;
        assert(nodes_from(s, q, acc.push(node)) is Ok);
        lemma_nodes_written(s, q, acc.push(node));
        let m = nodes_from(s, q, acc.push(node))->Ok_0.1;
        let (rest, end) = choose|rest: Seq<Markup>, end: Seq<char>| #[trigger]
            written_at(s, q, m, rest, end);
        lemma_nodes_assembled(s, pos, q, m, first, rest, end);
    } else {
        let k = run_len(s, p + 1, CharClass::Except('<'));
        lemma_run_end(s, p + 1, CharClass::Except('<'));
        let q = p + 1 + k;
        let data = s.subrange(p, q);
        let first = Markup::Text { lead, data };
        lemma_text_written(s, p, lead);
        let node = text_node(data);
        assert(nodes_from(s, q, acc.push(node)) is Ok);
        lemma_nodes_written(s, q, acc.push(node));
        let m = nodes_from(s, q, acc.push(node))->Ok_0.1;
        let (rest, end) = choose|rest: Seq<Markup>, end: Seq<char>| #[trigger]
            written_at(s, q, m, rest, end);
        lemma_nodes_assembled(s, pos, q, m, first, rest, end);
    }
}

/// The converse of the round trip: every text that is read to its end is
/// written markup, so the tree that it is read as is the tree that this
/// markup stands for.
pub proof fn lemma_read_is_written(s: Seq<char>)
    requires
        read_whole(s),
    ensures
        exists|ms: Seq<Markup>, end: Seq<char>|
            #![trigger all_writable(ms, end)]
            all_writable(ms, end) && render_all(ms) + end == s && document_of(s) == Ok::<
                NodeView,
                ParseError,
            >(
                if ms.len() == 1 && ms[0] is Element {
                    node_of(ms[0])
                } else {
                    element_node("html"@, Map::empty(), nodes_of(ms))
                },
            ),
{
    lemma_nodes_written(s, 0, Seq::empty());
    let (ms, end) = choose|ms: Seq<Markup>, end: Seq<char>| #[trigger]
        written_at(s, 0, s.len(), ms, end);
    assert(s.subrange(0, s.len() as int) =~= s);
    lemma_markup_reads_back(ms, end);
    assert(all_writable(ms, end));
}

} // verus!
