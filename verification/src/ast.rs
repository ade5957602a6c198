//! Generic syntax tree of the configuration grammar: a sequence of
//! directives (`name args ;`) and blocks (`name args { ... }`).

use vstd::prelude::*;

use crate::lexer::Token;
use crate::parser::{spec_parse, ParseError, Parser};

verus! {

/// Mathematical image of a syntax-tree node.
#[verifier::ext_equal]
pub ghost enum SpecNode {
    Directive { name: Seq<char>, args: Seq<Seq<char>> },
    Block { name: Seq<char>, args: Seq<Seq<char>>, children: Seq<SpecNode> },
}

/// A directive: a name and its arguments, as written before the `;`.
#[derive(Debug, PartialEq, Eq)]
pub struct Directive {
    pub name: String,
    pub args: Vec<String>,
}

/// A block: a name, its arguments, and the nodes between `{` and `}`.
#[derive(Debug, PartialEq, Eq)]
pub struct Block {
    pub name: String,
    pub args: Vec<String>,
    pub children: Vec<Node>,
}

/// One syntax-tree node.
#[derive(Debug, PartialEq, Eq)]
pub enum Node {
    Directive(Directive),
    Block(Block),
}

/// A whole configuration: the top-level nodes in order.
#[derive(Debug, PartialEq, Eq)]
pub struct Ast {
    pub items: Vec<Node>,
}

/// Mathematical image of one node.
pub open spec fn node_view(n: Node) -> SpecNode
    decreases n,
{
    match n {
        Node::Directive(d) => SpecNode::Directive { name: d.name@, args: d.args.deep_view() },
        Node::Block(b) => {
            proof {
                vstd::std_specs::vec::axiom_vec_decreases_to_view(b.children);
            }
            SpecNode::Block {
                name: b.name@,
                args: b.args.deep_view(),
                children: nodes_view_rec(b.children@),
            }
        },
    }
}

/// Mathematical image of a node sequence, element by element.
pub open spec fn nodes_view_rec(ns: Seq<Node>) -> Seq<SpecNode>
    decreases ns,
{
    if ns.len() == 0 {
        Seq::<SpecNode>::empty()
    } else {
        proof {
            vstd::seq::axiom_seq_index_decreases(ns, 0);
            vstd::seq::axiom_seq_subrange_decreases(ns, 1, ns.len() as int);
        }
        seq![node_view(ns[0])] + nodes_view_rec(ns.subrange(1, ns.len() as int))
    }
}

impl View for Node {
    type V = SpecNode;

    open spec fn view(&self) -> SpecNode {
        node_view(*self)
    }
}

/// The views of a node sequence.
pub open spec fn nodes_view(ns: Seq<Node>) -> Seq<SpecNode> {
    Seq::new(ns.len(), |i: int| node_view(ns[i]))
}

/// The two images of a node sequence agree.
pub broadcast proof fn lemma_nodes_view_rec(ns: Seq<Node>)
    ensures
        #[trigger] nodes_view_rec(ns) == nodes_view(ns),
    decreases ns.len(),
{
    if ns.len() > 0 {
        lemma_nodes_view_rec(ns.subrange(1, ns.len() as int));
        assert(nodes_view_rec(ns) =~= nodes_view(ns));
    } else {
        assert(nodes_view_rec(ns) =~= nodes_view(ns));
    }
}

impl View for Ast {
    type V = Seq<SpecNode>;

    open spec fn view(&self) -> Seq<SpecNode> {
        nodes_view(self.items@)
    }
}

impl Node {
    /// Builds a directive node.
    pub fn directive(name: String, args: Vec<String>) -> (r: Self)
        ensures
            r@ == (SpecNode::Directive { name: name@, args: args.deep_view() }),
    {
        Node::Directive(Directive { name, args })
    }

    /// Builds a block node.
    pub fn block(name: String, args: Vec<String>, children: Vec<Node>) -> (r: Self)
        ensures
            r@ == (SpecNode::Block {
                name: name@,
                args: args.deep_view(),
                children: nodes_view(children@),
            }),
    {
        let r = Node::Block(Block { name, args, children });
        proof {
            lemma_nodes_view_rec(children@);
            assert(r@ =~~= (SpecNode::Block {
                name: name@,
                args: args.deep_view(),
                children: nodes_view(children@),
            }));
        }
        r
    }
}

impl Ast {
    /// Parses configuration text: the token stream of `input` must form a
    /// well-bracketed sequence of directives and blocks.
    pub fn parse_config(input: &str) -> (r: Result<Self, ParseError>)
        requires
            input@.len() < usize::MAX,
        ensures
            match r {
                Ok(ast) => spec_parse(crate::lexer::spec_tokenize(input@)) == Some(ast@),
                Err(_) => spec_parse(crate::lexer::spec_tokenize(input@)) is None,
            },
    {
        let tokens = Token::tokenize(input);
        Self::parse_tokens(&tokens)
    }

    /// Parses a token stream into a syntax tree.
    pub fn parse_tokens(tokens: &[Token]) -> (r: Result<Self, ParseError>)
        ensures
            match r {
                Ok(ast) => spec_parse(crate::lexer::tokens_view(tokens@)) == Some(ast@),
                Err(_) => spec_parse(crate::lexer::tokens_view(tokens@)) is None,
            },
    {
        let mut parser = Parser::new(tokens);
        match parser.parse_items(false) {
            Ok(items) => Ok(Ast { items }),
            Err(e) => Err(e),
        }
    }
}

} // verus!
