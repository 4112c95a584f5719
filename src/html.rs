//! The markup parser: text in, document tree out.

use vstd::prelude::*;
use crate::chars::{chars_of, string_of};
use crate::cursor::{char_at, expect, lemma_scan, scan, CharClass, Cursor};
use crate::dom::{children_model, elem, node_model, text, AttrMap, Node, NodeModel};
use crate::ParseError;

verus! {

broadcast use vstd::std_specs::vec::axiom_vec_index_decreases;

/// Whether a closing tag starts at `i`.
pub open spec fn closing_ahead(s: Seq<char>, i: int) -> bool {
    char_at(s, i, '<') && char_at(s, i + 1, '/')
}

pub open spec fn html_tag() -> Seq<char> {
    seq!['h', 't', 'm', 'l']
}

/// The attribute list from `i` up to its `>`, whose pairs are added to `acc`
/// in order, and the position of the `>`.
pub open spec fn attributes_from(s: Seq<char>, i: int, acc: Map<Seq<char>, Seq<char>>) -> Result<
    (Map<Seq<char>, Seq<char>>, int),
    ParseError,
>
    decreases s.len() - i,
{
    let j = scan(s, i, CharClass::Whitespace);
    if j < 0 || j >= s.len() {
        Err(ParseError::UnexpectedEnd)
    } else if s[j] == '>' {
        Ok((acc, j))
    } else {
        let n = scan(s, j, CharClass::Alphanumeric);
        match expect(s, n, '=') {
            Err(e) => Err(e),
            Ok(a) => if a >= s.len() {
                Err(ParseError::UnexpectedEnd)
            } else if s[a] != '"' && s[a] != '\'' {
                Err(ParseError::UnexpectedChar)
            } else {
                let v = scan(s, a + 1, CharClass::Except(s[a]));
                match expect(s, v, s[a]) {
                    Err(e) => Err(e),
                    // An attribute consumes input, so this first branch is never taken.
                    Ok(e) => if e <= i {
                        Err(ParseError::UnexpectedEnd)
                    } else {
                        attributes_from(s, e, acc.insert(s.subrange(j, n), s.subrange(a + 1, v)))
                    },
                }
            },
        }
    }
}

/// The sibling nodes from `i` on, appended to `acc`, and the position where
/// they end: the end of input or a closing tag.
pub open spec fn nodes_from(s: Seq<char>, i: int, acc: Seq<NodeModel>) -> Result<
    (Seq<NodeModel>, int),
    ParseError,
>
    decreases s.len() - i, 1int,
{
    if i < 0 || i > s.len() {
        Err(ParseError::UnexpectedEnd)
    } else {
        let j = scan(s, i, CharClass::Whitespace);
        proof {
            lemma_scan(s, i, CharClass::Whitespace);
        }
        if j >= s.len() || closing_ahead(s, j) {
            Ok((acc, j))
        } else {
            let r = if s[j] == '<' {
                element_at(s, j)
            } else {
                let k = scan(s, j, CharClass::Except('<'));
                Ok((NodeModel::Text { text: s.subrange(j, k), children: Seq::empty() }, k))
            };
            match r {
                Err(e) => Err(e),
                // Each node consumes input, so this first branch is never taken.
                Ok((n, k)) => if k <= i || k > s.len() {
                    Err(ParseError::UnexpectedEnd)
                } else {
                    nodes_from(s, k, acc.push(n))
                },
            }
        }
    }
}

/// The element whose opening tag starts at `i`, and the position after its
/// closing tag.
pub open spec fn element_at(s: Seq<char>, i: int) -> Result<(NodeModel, int), ParseError>
    decreases s.len() - i, 0int,
{
    match expect(s, i, '<') {
        Err(e) => Err(e),
        Ok(a) => {
            let t = scan(s, a, CharClass::Alphanumeric);
            match attributes_from(s, t, Map::empty()) {
                Err(e) => Err(e),
                Ok((attrs, g)) => match expect(s, g, '>') {
                    Err(e) => Err(e),
                    // The tag consumed `<` and `>`, so this first branch is never taken.
                    Ok(b) => if b <= i || b > s.len() {
                        Err(ParseError::UnexpectedEnd)
                    } else {
                        match nodes_from(s, b, Seq::empty()) {
                            Err(e) => Err(e),
                            Ok((children, c)) => match expect(s, c, '<') {
                                Err(e) => Err(e),
                                Ok(c1) => match expect(s, c1, '/') {
                                    Err(e) => Err(e),
                                    Ok(c2) => {
                                        let t2 = scan(s, c2, CharClass::Alphanumeric);
                                        if s.subrange(c2, t2) != s.subrange(a, t) {
                                            Err(ParseError::TagMismatch)
                                        } else {
                                            match expect(s, t2, '>') {
                                                Err(e) => Err(e),
                                                Ok(end) => Ok(
                                                    (
                                                        NodeModel::Element {
                                                            tag: s.subrange(a, t),
                                                            attrs,
                                                            children,
                                                        },
                                                        end,
                                                    ),
                                                ),
                                            }
                                        }
                                    },
                                },
                            },
                        }
                    },
                },
            }
        },
    }
}

/// The node that starts at `i`: an element at a `<`, else a run of text.
pub open spec fn node_at(s: Seq<char>, i: int) -> Result<(NodeModel, int), ParseError> {
    if char_at(s, i, '<') {
        element_at(s, i)
    } else {
        let k = scan(s, i, CharClass::Except('<'));
        Ok((NodeModel::Text { text: s.subrange(i, k), children: Seq::empty() }, k))
    }
}

/// The document that markup `s` describes: its one top-level node, or an
/// `html` element around all of them.
pub open spec fn document(s: Seq<char>) -> Result<NodeModel, ParseError> {
    match nodes_from(s, 0, Seq::empty()) {
        Err(e) => Err(e),
        Ok((nodes, _)) => if nodes.len() == 1 {
            Ok(nodes[0])
        } else {
            Ok(NodeModel::Element { tag: html_tag(), attrs: Map::empty(), children: nodes })
        },
    }
}

/// A document with exactly one top-level node is that node; any other
/// number of top-level nodes is wrapped, in order, in an `html` element
/// without attributes.
pub proof fn lemma_root_wrapping(s: Seq<char>)
    ensures
        match nodes_from(s, 0, Seq::empty()) {
            Ok((nodes, _)) => if nodes.len() == 1 {
                document(s) == Ok::<NodeModel, ParseError>(nodes[0])
            } else {
                document(s) == Ok::<NodeModel, ParseError>(
                    NodeModel::Element { tag: html_tag(), attrs: Map::empty(), children: nodes },
                )
            },
            Err(e) => document(s) == Err::<NodeModel, ParseError>(e),
        },
{
}

/// Parses a markup document and returns its root.
pub fn parse(source: String) -> (r: Result<Node, ParseError>)
    ensures
        match document(source@) {
            Ok(m) => r is Ok && node_model(r->Ok_0) == m,
            Err(e) => r == Err::<Node, ParseError>(e),
        },
{
    let mut parser = Parser { cur: Cursor::new(chars_of(source.as_str())) };
    let mut nodes = match parser.parse_nodes() {
        Ok(n) => n,
        Err(e) => return Err(e),
    };
    if nodes.len() == 1 {
        let n = nodes.swap_remove(0);
        Ok(n)
    } else {
        let name = string_of(&vec!['h', 't', 'm', 'l']);
        assert(name@ =~= html_tag());
        Ok(elem(name, AttrMap::new(), nodes))
    }
}

struct Parser {
    cur: Cursor,
}

impl Parser {
    spec fn input(&self) -> Seq<char> {
        self.cur.input@
    }

    spec fn pos(&self) -> int {
        self.cur.pos as int
    }

    /// Parses a sequence of sibling nodes.
    fn parse_nodes(&mut self) -> (r: Result<Vec<Node>, ParseError>)
        requires
            old(self).cur.wf(),
        ensures
            final(self).cur.wf(),
            final(self).input() == old(self).input(),
            match nodes_from(old(self).input(), old(self).pos(), Seq::empty()) {
                Ok((ns, k)) => r is Ok && children_model(r->Ok_0@) == ns && final(self).pos() == k,
                Err(e) => r == Err::<Vec<Node>, ParseError>(e),
            },
            r is Ok ==> final(self).pos() >= old(self).pos(),
        decreases old(self).cur.input@.len() - old(self).cur.pos, 2int,
    {
        let ghost s = self.input();
        let ghost start = self.pos();
        let mut nodes: Vec<Node> = Vec::new();
        assert(children_model(nodes@) =~= Seq::empty());
        loop
            invariant
                self.cur.wf(),
                self.input() == s,
                s == old(self).input(),
                start == old(self).pos(),
                start <= self.pos(),
                nodes_from(s, self.pos(), children_model(nodes@)) == nodes_from(s, start, Seq::empty()),
            decreases s.len() - self.pos(),
        {
            let ghost i = self.pos();
            self.cur.consume_whitespace();
            proof {
                lemma_scan(s, i, CharClass::Whitespace);
            }
            if self.cur.eof() || (self.cur.at('<') && self.starts_with_close()) {
                return Ok(nodes);
            }
            let n = match self.parse_node() {
                Ok(n) => n,
                Err(e) => return Err(e),
            };
            let ghost nodes0 = nodes@;
            nodes.push(n);
            assert(children_model(nodes@) =~= children_model(nodes0).push(node_model(n)));
        }
    }

    /// Whether a `/` follows the current character.
    fn starts_with_close(&self) -> (r: bool)
        requires
            self.cur.wf(),
            self.pos() < self.input().len(),
        ensures
            r == char_at(self.input(), self.pos() + 1, '/'),
    {
        self.cur.pos + 1 < self.cur.input.len() && self.cur.input[self.cur.pos + 1] == '/'
    }

    /// Parses a single node.
    fn parse_node(&mut self) -> (r: Result<Node, ParseError>)
        requires
            old(self).cur.wf(),
            old(self).pos() < old(self).input().len(),
        ensures
            final(self).cur.wf(),
            final(self).input() == old(self).input(),
            match node_at(old(self).input(), old(self).pos()) {
                Ok((n, k)) => r is Ok && node_model(r->Ok_0) == n && final(self).pos() == k,
                Err(e) => r == Err::<Node, ParseError>(e),
            },
            r is Ok ==> final(self).pos() > old(self).pos(),
        decreases old(self).cur.input@.len() - old(self).cur.pos, 1int,
    {
        if self.cur.at('<') {
            self.parse_element()
        } else {
            Ok(self.parse_text())
        }
    }

    /// Parses a text node.
    fn parse_text(&mut self) -> (r: Node)
        requires
            old(self).cur.wf(),
            old(self).pos() < old(self).input().len(),
            old(self).input()[old(self).pos()] != '<',
        ensures
            final(self).cur.wf(),
            final(self).input() == old(self).input(),
            final(self).pos() == scan(old(self).input(), old(self).pos(), CharClass::Except('<')),
            final(self).pos() > old(self).pos(),
            node_model(r) == (NodeModel::Text {
                text: old(self).input().subrange(old(self).pos(), final(self).pos()),
                children: Seq::empty(),
            }),
    {
        proof {
            lemma_scan(self.input(), self.pos(), CharClass::Except('<'));
        }
        text(self.cur.consume_while(CharClass::Except('<')))
    }

    /// Parses one element: its opening tag, its contents and its closing tag.
    fn parse_element(&mut self) -> (r: Result<Node, ParseError>)
        requires
            old(self).cur.wf(),
        ensures
            final(self).cur.wf(),
            final(self).input() == old(self).input(),
            match element_at(old(self).input(), old(self).pos()) {
                Ok((n, k)) => r is Ok && node_model(r->Ok_0) == n && final(self).pos() == k,
                Err(e) => r == Err::<Node, ParseError>(e),
            },
            r is Ok ==> final(self).pos() > old(self).pos(),
        decreases old(self).cur.input@.len() - old(self).cur.pos, 0int,
    {
        if let Err(e) = self.cur.expect('<') {
            return Err(e);
        }
        let tag_name = self.parse_tag_name();
        let attrs = match self.parse_attributes() {
            Ok(m) => m,
            Err(e) => return Err(e),
        };
        if let Err(e) = self.cur.expect('>') {
            return Err(e);
        }
        let children = match self.parse_nodes() {
            Ok(c) => c,
            Err(e) => return Err(e),
        };
        if let Err(e) = self.cur.expect('<') {
            return Err(e);
        }
        if let Err(e) = self.cur.expect('/') {
            return Err(e);
        }
        let closing = self.parse_tag_name();
        if closing != tag_name {
            return Err(ParseError::TagMismatch);
        }
        if let Err(e) = self.cur.expect('>') {
            return Err(e);
        }
        Ok(elem(tag_name, attrs, children))
    }

    /// Parses one `name="value"` pair.
    fn parse_attr(&mut self) -> (r: Result<(String, String), ParseError>)
        requires
            old(self).cur.wf(),
        ensures
            final(self).cur.wf(),
            final(self).input() == old(self).input(),
            ({
                let s = old(self).input();
                let j = old(self).pos();
                let n = scan(s, j, CharClass::Alphanumeric);
                match expect(s, n, '=') {
                    Err(e) => r == Err::<(String, String), ParseError>(e),
                    Ok(a) => if a >= s.len() {
                        r == Err::<(String, String), ParseError>(ParseError::UnexpectedEnd)
                    } else if s[a] != '"' && s[a] != '\'' {
                        r == Err::<(String, String), ParseError>(ParseError::UnexpectedChar)
                    } else {
                        let v = scan(s, a + 1, CharClass::Except(s[a]));
                        match expect(s, v, s[a]) {
                            Err(e) => r == Err::<(String, String), ParseError>(e),
                            Ok(e) => r is Ok && r->Ok_0.0@ == s.subrange(j, n) && r->Ok_0.1@
                                == s.subrange(a + 1, v) && final(self).pos() == e,
                        }
                    },
                }
            }),
            r is Ok ==> final(self).pos() > old(self).pos(),
    {
        proof {
            lemma_scan(self.input(), self.pos(), CharClass::Alphanumeric);
        }
        let name = self.parse_tag_name();
        if let Err(e) = self.cur.expect('=') {
            return Err(e);
        }
        let value = match self.parse_attr_value() {
            Ok(v) => v,
            Err(e) => return Err(e),
        };
        Ok((name, value))
    }

    /// Parses a value in matching single or double quotes.
    fn parse_attr_value(&mut self) -> (r: Result<String, ParseError>)
        requires
            old(self).cur.wf(),
        ensures
            final(self).cur.wf(),
            final(self).input() == old(self).input(),
            ({
                let s = old(self).input();
                let a = old(self).pos();
                if a >= s.len() {
                    r == Err::<String, ParseError>(ParseError::UnexpectedEnd)
                } else if s[a] != '"' && s[a] != '\'' {
                    r == Err::<String, ParseError>(ParseError::UnexpectedChar)
                } else {
                    let v = scan(s, a + 1, CharClass::Except(s[a]));
                    match expect(s, v, s[a]) {
                        Err(e) => r == Err::<String, ParseError>(e),
                        Ok(e) => r is Ok && r->Ok_0@ == s.subrange(a + 1, v) && final(self).pos()
                            == e,
                    }
                }
            }),
            r is Ok ==> final(self).pos() > old(self).pos(),
    {
        let open_quote = match self.cur.consume_char() {
            Ok(c) => c,
            Err(e) => return Err(e),
        };
        if open_quote != '"' && open_quote != '\'' {
            return Err(ParseError::UnexpectedChar);
        }
        let value = self.cur.consume_while(CharClass::Except(open_quote));
        if let Err(e) = self.cur.expect(open_quote) {
            return Err(e);
        }
        Ok(value)
    }

    /// Parses whitespace-separated `name="value"` pairs up to the `>` that
    /// ends the tag.
    fn parse_attributes(&mut self) -> (r: Result<AttrMap, ParseError>)
        requires
            old(self).cur.wf(),
        ensures
            final(self).cur.wf(),
            final(self).input() == old(self).input(),
            match attributes_from(old(self).input(), old(self).pos(), Map::empty()) {
                Ok((m, k)) => r is Ok && r->Ok_0.view() == m && final(self).pos() == k,
                Err(e) => r == Err::<AttrMap, ParseError>(e),
            },
            r is Ok ==> final(self).pos() >= old(self).pos(),
    {
        let ghost s = self.input();
        let ghost start = self.pos();
        let mut attributes = AttrMap::new();
        loop
            invariant
                self.cur.wf(),
                self.input() == s,
                s == old(self).input(),
                start == old(self).pos(),
                start <= self.pos(),
                attributes_from(s, self.pos(), attributes.view()) == attributes_from(
                    s,
                    start,
                    Map::empty(),
                ),
            decreases s.len() - self.pos(),
        {
            let ghost i = self.pos();
            self.cur.consume_whitespace();
            proof {
                lemma_scan(s, i, CharClass::Whitespace);
            }
            let ghost j = self.pos();
            assert(j == scan(s, i, CharClass::Whitespace));
            match self.cur.next_char() {
                Err(e) => {
                    assert(attributes_from(s, i, attributes.view()) == Err::<(Map<Seq<char>, Seq<char>>, int), ParseError>(e));
                    return Err(e);
                },
                Ok(c) => if c == '>' {
                    assert(attributes_from(s, i, attributes.view()) == Ok::<(Map<Seq<char>, Seq<char>>, int), ParseError>((attributes.view(), j)));
                    return Ok(attributes);
                },
            }
            let (name, value) = match self.parse_attr() {
                Ok(p) => p,
                Err(e) => {
                    assert(attributes_from(s, i, attributes.view()) == Err::<(Map<Seq<char>, Seq<char>>, int), ParseError>(e));
                    return Err(e);
                },
            };
            attributes.insert(name, value);
        }
    }

    /// Parses a tag or attribute name.
    fn parse_tag_name(&mut self) -> (r: String)
        requires
            old(self).cur.wf(),
        ensures
            final(self).cur.wf(),
            final(self).input() == old(self).input(),
            final(self).pos() == scan(old(self).input(), old(self).pos(), CharClass::Alphanumeric),
            old(self).pos() <= final(self).pos(),
            r@ == old(self).input().subrange(old(self).pos(), final(self).pos()),
    {
        self.cur.consume_while(CharClass::Alphanumeric)
    }
}

} // verus!
