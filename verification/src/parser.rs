//! Recursive-descent parser over the token stream, with one token of
//! lookahead. A statement is a name, its arguments, and either `;`
//! (directive) or a braced list of nested statements (block). The parser is
//! proved equal to a functional specification of the grammar.

use vstd::prelude::*;

use crate::ast::{nodes_view, Node, SpecNode};
use crate::lexer::{tokens_view, SpecToken, Token, TokenType};
use vstd::slice::slice_index_get;
use vstd::string::StringExecFns;

verus! {

/// A grammar violation, with a human-readable description.
#[derive(Debug, Clone, PartialEq, Eq)]
pub struct ParseError {
    pub message: String,
}

/// Cursor over a borrowed token stream.
#[derive(Debug)]
pub struct Parser<'a> {
    tokens: &'a [Token],
    pos: usize,
}

/// Greedily reads the argument identifiers from `pos` on: their lexemes, and
/// the position of the first non-identifier token.
pub open spec fn sp_args(toks: Seq<SpecToken>, pos: int) -> (Seq<Seq<char>>, int)
    decreases toks.len() - pos,
{
    if 0 <= pos < toks.len() && toks[pos].kind == TokenType::Ident {
        let r = sp_args(toks, pos + 1);
        (seq![toks[pos].lexeme] + r.0, r.1)
    } else {
        (Seq::<Seq<char>>::empty(), pos)
    }
}

/// Parses one statement at `pos`: a directive through its `;`, or a block
/// through its closing `}`. `None` is a grammar violation.
pub open spec fn sp_stmt(toks: Seq<SpecToken>, pos: int) -> Option<(SpecNode, int)>
    decreases toks.len() - pos, 0int,
{
    if !(0 <= pos < toks.len()) {
        None
    } else if toks[pos].kind != TokenType::Ident {
        None
    } else {
        let name = toks[pos].lexeme;
        let ar = sp_args(toks, pos + 1);
        let args = ar.0;
        let p = ar.1;
        if !(pos + 1 <= p <= toks.len()) {
            None
        } else if p < toks.len() && toks[p].kind == TokenType::Semicolon {
            Some((SpecNode::Directive { name, args }, p + 1))
        } else if p < toks.len() && toks[p].kind == TokenType::LBrace {
            match sp_items(toks, p + 1, true) {
                Some((children, q)) => {
                    if q < toks.len() && toks[q].kind == TokenType::RBrace {
                        Some((SpecNode::Block { name, args, children }, q + 1))
                    } else {
                        None
                    }
                },
                None => None,
            }
        } else {
            None
        }
    }
}

/// Parses statements from `pos` until the end of input, or until a `}` when
/// `until_rbrace` is set. A stray `}` at top level, or a missing `}` inside a
/// block, is a grammar violation.
pub open spec fn sp_items(toks: Seq<SpecToken>, pos: int, until_rbrace: bool) -> Option<
    (Seq<SpecNode>, int),
>
    decreases toks.len() - pos, 1int,
{
    if !(0 <= pos) {
        None
    } else if pos >= toks.len() {
        if until_rbrace {
            None
        } else {
            Some((Seq::<SpecNode>::empty(), pos))
        }
    } else if toks[pos].kind == TokenType::RBrace {
        if until_rbrace {
            Some((Seq::<SpecNode>::empty(), pos))
        } else {
            None
        }
    } else {
        match sp_stmt(toks, pos) {
            Some((node, p)) => {
                if pos < p <= toks.len() {
                    match sp_items(toks, p, until_rbrace) {
                        Some((rest, q)) => Some((seq![node] + rest, q)),
                        None => None,
                    }
                } else {
                    None
                }
            },
            None => None,
        }
    }
}

/// The syntax tree of a whole token stream, when it is grammatical.
pub open spec fn spec_parse(toks: Seq<SpecToken>) -> Option<Seq<SpecNode>> {
    match sp_items(toks, 0, false) {
        Some((items, _)) => Some(items),
        None => None,
    }
}

/// The argument scan stays within the token stream.
pub proof fn lemma_sp_args_bounds(toks: Seq<SpecToken>, pos: int)
    requires
        0 <= pos <= toks.len(),
    ensures
        pos <= sp_args(toks, pos).1 <= toks.len(),
    decreases toks.len() - pos,
{
    if pos < toks.len() && toks[pos].kind == TokenType::Ident {
        lemma_sp_args_bounds(toks, pos + 1);
    }
}

/// A parsed statement consumes at least one token and stays within the
/// stream.
pub proof fn lemma_sp_stmt_bounds(toks: Seq<SpecToken>, pos: int)
    requires
        0 <= pos <= toks.len(),
    ensures
        match sp_stmt(toks, pos) {
            Some((n, q)) => pos < q <= toks.len(),
            None => true,
        },
    decreases toks.len() - pos, 0int,
{
    if 0 <= pos < toks.len() && toks[pos].kind == TokenType::Ident {
        lemma_sp_args_bounds(toks, pos + 1);
        let p = sp_args(toks, pos + 1).1;
        if p < toks.len() && toks[p].kind == TokenType::LBrace {
            lemma_sp_items_bounds(toks, p + 1, true);
        }
    }
}

/// A parsed statement list stops at the end of input, or exactly on the `}`
/// it was asked to stop at.
pub proof fn lemma_sp_items_bounds(toks: Seq<SpecToken>, pos: int, until_rbrace: bool)
    requires
        0 <= pos <= toks.len(),
    ensures
        match sp_items(toks, pos, until_rbrace) {
            Some((ns, q)) => pos <= q <= toks.len() && (until_rbrace ==> q < toks.len()
                && toks[q].kind == TokenType::RBrace) && (!until_rbrace ==> q == toks.len()),
            None => true,
        },
    decreases toks.len() - pos, 1int,
{
    if pos < toks.len() && toks[pos].kind != TokenType::RBrace {
        lemma_sp_stmt_bounds(toks, pos);
        match sp_stmt(toks, pos) {
            Some((node, p)) => {
                if pos < p <= toks.len() {
                    lemma_sp_items_bounds(toks, p, until_rbrace);
                }
            },
            None => {},
        }
    }
}

fn kind_str(kind: TokenType) -> &'static str {
    match kind {
        TokenType::LBrace => "LBrace",
        TokenType::RBrace => "RBrace",
        TokenType::Semicolon => "Semicolon",
        TokenType::Ident => "Ident",
    }
}

impl<'a> Parser<'a> {
    /// The views of the tokens this parser reads.
    pub closed spec fn toks(&self) -> Seq<SpecToken> {
        tokens_view(self.tokens@)
    }

    /// The current cursor position.
    pub closed spec fn position(&self) -> int {
        self.pos as int
    }

    /// The cursor never passes the end of the stream.
    pub closed spec fn wf(&self) -> bool {
        self.pos <= self.tokens@.len()
    }

    /// A parser at the start of `tokens`.
    pub fn new(tokens: &'a [Token]) -> (r: Self)
        ensures
            r.toks() == tokens_view(tokens@),
            r.position() == 0,
            r.wf(),
    {
        Self { tokens, pos: 0 }
    }

    fn peek(&self) -> (r: Option<&'a Token>)
        ensures
            match r {
                Some(t) => self.position() < self.toks().len() && t@ == self.toks()[
                    self.position()
                ],
                None => self.position() >= self.toks().len(),
            },
    {
        if self.pos < self.tokens.len() {
            Some(slice_index_get(self.tokens, self.pos))
        } else {
            None
        }
    }

    fn next(&mut self) -> (r: Option<&'a Token>)
        requires
            old(self).wf(),
        ensures
            final(self).wf(),
            final(self).toks() == old(self).toks(),
            match r {
                Some(t) => old(self).position() < old(self).toks().len() && t@ == old(
                    self,
                ).toks()[old(self).position()] && final(self).position() == old(self).position()
                    + 1,
                None => old(self).position() >= old(self).toks().len() && final(self).position()
                    == old(self).position(),
            },
    {
        if self.pos < self.tokens.len() {
            let t = slice_index_get(self.tokens, self.pos);
            self.pos = self.pos + 1;
            Some(t)
        } else {
            None
        }
    }

    fn expect(&mut self, kind: TokenType) -> (r: Result<(), ParseError>)
        requires
            old(self).wf(),
        ensures
            final(self).wf(),
            final(self).toks() == old(self).toks(),
            match r {
                Ok(_) => old(self).position() < old(self).toks().len() && old(self).toks()[old(
                    self,
                ).position()].kind == kind && final(self).position() == old(self).position() + 1,
                Err(_) => old(self).position() >= old(self).toks().len() || old(self).toks()[old(
                    self,
                ).position()].kind != kind,
            },
    {
        let tok = match self.next() {
            Some(t) => t,
            None => {
                return Err(ParseError { message: "unexpected EOF".to_owned() });
            },
        };
        if tok.kind == kind {
            Ok(())
        } else {
            let mut m = "expected ".to_owned();
            m.append(kind_str(kind));
            m.append(", got ");
            m.append(kind_str(tok.kind));
            Err(ParseError { message: m })
        }
    }

    /// Parses statements up to the end of input (`until_rbrace` false) or up
    /// to, but not consuming, a closing `}` (`until_rbrace` true).
    pub fn parse_items(&mut self, until_rbrace: bool) -> (r: Result<Vec<Node>, ParseError>)
        requires
            old(self).wf(),
        ensures
            final(self).wf(),
            final(self).toks() == old(self).toks(),
            match r {
                Ok(items) => sp_items(old(self).toks(), old(self).position(), until_rbrace)
                    == Some((nodes_view(items@), final(self).position())) && old(self).position()
                    <= final(self).position(),
                Err(_) => sp_items(old(self).toks(), old(self).position(), until_rbrace) is None,
            },
        decreases self.toks().len() - self.position(), 1int,
    {
        let ghost toks = self.toks();
        let ghost pos0 = self.position();
        proof {
            assert(toks == old(self).toks());
            assert(pos0 == old(self).position());
        }
        let mut items: Vec<Node> = Vec::new();
        proof {
            assert(nodes_view(items@) =~= Seq::<SpecNode>::empty());
        }
        loop
            invariant
                toks == old(self).toks(),
                pos0 == old(self).position(),
                self.wf(),
                self.toks() == toks,
                pos0 <= self.position() <= toks.len(),
                match sp_items(toks, self.position(), until_rbrace) {
                    Some((rest, q)) => sp_items(toks, pos0, until_rbrace) == Some(
                        (nodes_view(items@) + rest, q),
                    ),
                    None => sp_items(toks, pos0, until_rbrace) is None,
                },
            ensures
                toks == old(self).toks(),
                pos0 == old(self).position(),
                self.wf(),
                self.toks() == toks,
                pos0 <= self.position() <= toks.len(),
                match sp_items(toks, self.position(), until_rbrace) {
                    Some((rest, q)) => sp_items(toks, pos0, until_rbrace) == Some(
                        (nodes_view(items@) + rest, q),
                    ),
                    None => sp_items(toks, pos0, until_rbrace) is None,
                },
                self.position() >= toks.len() || (self.position() < toks.len() && toks[
                    self.position()
                ].kind == TokenType::RBrace && until_rbrace),
            decreases toks.len() - self.position(),
        {
            let tok = match self.peek() {
                Some(t) => t,
                None => {
                    break ;
                },
            };
            if tok.kind == TokenType::RBrace {
                if until_rbrace {
                    break ;
                }
                proof {
                    assert(sp_items(toks, self.position(), until_rbrace) is None);
                }
                return Err(ParseError { message: "unexpected '}'".to_owned() });
            }
            let ghost cur = self.position();
            let node = match self.parse_stmt() {
                Ok(n) => n,
                Err(e) => {
                    proof {
                        assert(sp_items(toks, cur, until_rbrace) is None);
                    }
                    return Err(e);
                },
            };
            proof {
                lemma_sp_stmt_bounds(toks, cur);
                assert(nodes_view(items@.push(node)) =~~= nodes_view(items@) + seq![node@]);
                match sp_items(toks, self.position(), until_rbrace) {
                    Some((rest, q)) => {
                        assert((nodes_view(items@) + seq![node@]) + rest =~= nodes_view(items@) + (
                        seq![node@] + rest));
                    },
                    None => {},
                }
            }
            items.push(node);
        }
        if until_rbrace {
            match self.peek() {
                Some(_) => {},
                None => {
                    return Err(
                        ParseError { message: "unexpected EOF: expected '}'".to_owned() },
                    );
                },
            }
        }
        proof {
            assert(nodes_view(items@) + Seq::<SpecNode>::empty() =~= nodes_view(items@));
        }
        Ok(items)
    }

    /// Parses one statement: a directive or a block.
    fn parse_stmt(&mut self) -> (r: Result<Node, ParseError>)
        requires
            old(self).wf(),
        ensures
            final(self).wf(),
            final(self).toks() == old(self).toks(),
            match r {
                Ok(node) => sp_stmt(old(self).toks(), old(self).position()) == Some(
                    (node@, final(self).position()),
                ) && old(self).position() < final(self).position() <= old(self).toks().len(),
                Err(_) => sp_stmt(old(self).toks(), old(self).position()) is None,
            },
        decreases self.toks().len() - self.position(), 0int,
    {
        let ghost toks = self.toks();
        let ghost pos0 = self.position();
        proof {
            assert(toks == old(self).toks());
            assert(pos0 == old(self).position());
        }
        let name_tok = match self.next() {
            Some(t) => t,
            None => {
                return Err(ParseError { message: "unexpected EOF".to_owned() });
            },
        };
        if name_tok.kind != TokenType::Ident {
            let mut m = "expected Ident, got ".to_owned();
            m.append(kind_str(name_tok.kind));
            return Err(ParseError { message: m });
        }
        let name = name_tok.lexeme.clone();
        let mut args: Vec<String> = Vec::new();
        proof {
            assert(args.deep_view() =~= Seq::<Seq<char>>::empty());
            assert(Seq::<Seq<char>>::empty() + sp_args(toks, pos0 + 1).0 =~= sp_args(
                toks,
                pos0 + 1,
            ).0);
        }
        loop
            invariant
                toks == old(self).toks(),
                pos0 == old(self).position(),
                self.wf(),
                self.toks() == toks,
                pos0 + 1 <= self.position() <= toks.len(),
                sp_args(toks, pos0 + 1).0 == args.deep_view() + sp_args(toks, self.position()).0,
                sp_args(toks, pos0 + 1).1 == sp_args(toks, self.position()).1,
            ensures
                toks == old(self).toks(),
                pos0 == old(self).position(),
                self.wf(),
                self.toks() == toks,
                pos0 + 1 <= self.position() <= toks.len(),
                sp_args(toks, pos0 + 1) == (args.deep_view(), self.position()),
            decreases toks.len() - self.position(),
        {
            let more = match self.peek() {
                Some(t) => t.kind == TokenType::Ident,
                None => false,
            };
            if !more {
                proof {
                    assert(sp_args(toks, self.position()).0 =~= Seq::<Seq<char>>::empty());
                    assert(args.deep_view() + Seq::<Seq<char>>::empty() =~= args.deep_view());
                    assert(sp_args(toks, pos0 + 1).0 =~~= args.deep_view());
                }
                break ;
            }
            let tok = match self.next() {
                Some(t) => t,
                None => {
                    proof {
                        assert(false);
                    }
                    return Err(ParseError { message: "unexpected EOF".to_owned() });
                },
            };
            let ghost args0 = args.deep_view();
            args.push(tok.lexeme.clone());
            proof {
                assert(args.deep_view() =~~= args0 + seq![tok.lexeme@]);
                assert((args0 + seq![tok.lexeme@]) + sp_args(toks, self.position()).0 =~= args0 + (
                seq![tok.lexeme@] + sp_args(toks, self.position()).0));
            }
        }
        let ghost p = self.position();
        match self.peek() {
            Some(t) => {
                if t.kind == TokenType::Semicolon {
                    self.next();
                    let node = Node::directive(name, args);
                    proof {
                        assert(node@ =~~= SpecNode::Directive {
                            name: toks[pos0].lexeme,
                            args: sp_args(toks, pos0 + 1).0,
                        });
                    }
                    Ok(node)
                } else if t.kind == TokenType::LBrace {
                    self.next();
                    let children = match self.parse_items(true) {
                        Ok(c) => c,
                        Err(e) => {
                            return Err(e);
                        },
                    };
                    let ghost q = self.position();
                    proof {
                        lemma_sp_items_bounds(toks, p + 1, true);
                    }
                    match self.expect(TokenType::RBrace) {
                        Ok(_) => {},
                        Err(e) => {
                            proof {
                                assert(false);
                            }
                            return Err(e);
                        },
                    }
                    let node = Node::block(name, args, children);
                    proof {
                        assert(node@ =~~= SpecNode::Block {
                            name: toks[pos0].lexeme,
                            args: sp_args(toks, pos0 + 1).0,
                            children: nodes_view(children@),
                        });
                    }
                    Ok(node)
                } else {
                    let mut m = "expected ';' or '{', got ".to_owned();
                    m.append(kind_str(t.kind));
                    Err(ParseError { message: m })
                }
            },
            None => {
                Err(ParseError { message: "unexpected EOF after directive".to_owned() })
            },
        }
    }
}

} // verus!
