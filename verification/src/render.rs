//! Rendering a syntax tree back to configuration text, and the round-trip
//! law: lexing and parsing the rendered text of any well-formed tree yields
//! the tree again. Rendering writes every token followed by one space, all
//! on one line.

use vstd::prelude::*;

use crate::ast::{nodes_view, Ast, Node, SpecNode};
use crate::lexer::{
    flush_word, is_word_char, spec_punct, spec_tokenize, spec_tokenize_at, SpecToken, TokenType,
};
use crate::parser::{sp_args, sp_items, sp_stmt, spec_parse};
use vstd::string::StringExecFns;

verus! {

/// A word that renders as one identifier token: non-empty, made of
/// identifier characters only.
pub open spec fn wf_word(s: Seq<char>) -> bool {
    s.len() > 0 && forall|i: int| 0 <= i < s.len() ==> is_word_char(#[trigger] s[i])
}

/// Every word of `ws` is well formed.
pub open spec fn wf_words(ws: Seq<Seq<char>>) -> bool {
    forall|i: int| 0 <= i < ws.len() ==> wf_word(#[trigger] ws[i])
}

/// A tree whose names and arguments all render as single identifier tokens.
pub open spec fn wf_node(n: SpecNode) -> bool
    decreases n,
{
    match n {
        SpecNode::Directive { name, args } => wf_word(name) && wf_words(args),
        SpecNode::Block { name, args, children } => wf_word(name) && wf_words(args) && wf_nodes(
            children,
        ),
    }
}

/// A well-formed node sequence.
pub open spec fn wf_nodes(ns: Seq<SpecNode>) -> bool
    decreases ns,
{
    if ns.len() == 0 {
        true
    } else {
        proof {
            vstd::seq::axiom_seq_index_decreases(ns, 0);
            vstd::seq::axiom_seq_subrange_decreases(ns, 1, ns.len() as int);
        }
        wf_node(ns[0]) && wf_nodes(ns.subrange(1, ns.len() as int))
    }
}

/// One rendered token: its text followed by a single space.
pub open spec fn chunk(s: Seq<char>) -> Seq<char> {
    s + seq![' ']
}

/// The rendered arguments, one chunk each.
pub open spec fn render_args(args: Seq<Seq<char>>) -> Seq<char>
    decreases args.len(),
{
    if args.len() == 0 {
        Seq::<char>::empty()
    } else {
        chunk(args[0]) + render_args(args.drop_first())
    }
}

/// The rendered text of one node.
pub open spec fn render_node(n: SpecNode) -> Seq<char>
    decreases n,
{
    match n {
        SpecNode::Directive { name, args } => chunk(name) + render_args(args) + chunk(seq![';']),
        SpecNode::Block { name, args, children } => chunk(name) + render_args(args) + chunk(
            seq!['{'],
        ) + render_nodes(children) + chunk(seq!['}']),
    }
}

/// The rendered text of a node sequence.
pub open spec fn render_nodes(ns: Seq<SpecNode>) -> Seq<char>
    decreases ns,
{
    if ns.len() == 0 {
        Seq::<char>::empty()
    } else {
        proof {
            vstd::seq::axiom_seq_index_decreases(ns, 0);
            vstd::seq::axiom_seq_subrange_decreases(ns, 1, ns.len() as int);
        }
        render_node(ns[0]) + render_nodes(ns.subrange(1, ns.len() as int))
    }
}

/// An identifier token on the given line.
pub open spec fn ident_token(s: Seq<char>, line: int) -> SpecToken {
    SpecToken { kind: TokenType::Ident, len: s.len() as int, lexeme: s, line }
}

/// A punctuation token on the given line.
pub open spec fn punct_token(c: char, line: int) -> SpecToken {
    SpecToken { kind: spec_punct(c)->0, len: 1, lexeme: seq![c], line }
}

/// The identifier tokens of an argument list.
pub open spec fn args_tokens(args: Seq<Seq<char>>, line: int) -> Seq<SpecToken>
    decreases args.len(),
{
    if args.len() == 0 {
        Seq::<SpecToken>::empty()
    } else {
        seq![ident_token(args[0], line)] + args_tokens(args.drop_first(), line)
    }
}

/// The token image of one node.
pub open spec fn node_tokens(n: SpecNode, line: int) -> Seq<SpecToken>
    decreases n,
{
    match n {
        SpecNode::Directive { name, args } => seq![ident_token(name, line)] + args_tokens(
            args,
            line,
        ) + seq![punct_token(';', line)],
        SpecNode::Block { name, args, children } => seq![ident_token(name, line)] + args_tokens(
            args,
            line,
        ) + seq![punct_token('{', line)] + nodes_tokens(children, line) + seq![
            punct_token('}', line),
        ],
    }
}

/// The token image of a node sequence.
pub open spec fn nodes_tokens(ns: Seq<SpecNode>, line: int) -> Seq<SpecToken>
    decreases ns,
{
    if ns.len() == 0 {
        Seq::<SpecToken>::empty()
    } else {
        proof {
            vstd::seq::axiom_seq_index_decreases(ns, 0);
            vstd::seq::axiom_seq_subrange_decreases(ns, 1, ns.len() as int);
        }
        node_tokens(ns[0], line) + nodes_tokens(ns.subrange(1, ns.len() as int), line)
    }
}

/// Argument tokens are all identifiers, so the argument scan consumes
/// exactly them and stops on whatever follows.
proof fn lemma_parse_args(toks: Seq<SpecToken>, pos: int, args: Seq<Seq<char>>)
    requires
        0 <= pos,
        pos + args_tokens(args, 1).len() <= toks.len(),
        toks.subrange(pos, pos + args_tokens(args, 1).len() as int) == args_tokens(args, 1),
        pos + args_tokens(args, 1).len() < toks.len() ==> toks[pos + args_tokens(
            args,
            1,
        ).len()].kind != TokenType::Ident,
        pos + args_tokens(args, 1).len() == toks.len() ==> true,
    ensures
        args_tokens(args, 1).len() == args.len(),
        sp_args(toks, pos) == (args, pos + args.len()),
    decreases args.len(),
{
    lemma_args_tokens_len(args);
    if args.len() == 0 {
        if pos < toks.len() && toks[pos].kind == TokenType::Ident {
            assert(false);
        }
        assert(sp_args(toks, pos).0 =~= args);
    } else {
        let at = args_tokens(args, 1);
        assert(toks.subrange(pos, pos + at.len() as int)[0] == toks[pos]);
        assert(toks[pos] == ident_token(args[0], 1));
        let rest = args.drop_first();
        lemma_args_tokens_len(rest);
        assert(toks.subrange(pos + 1, pos + 1 + args_tokens(rest, 1).len() as int) =~= args_tokens(
            rest,
            1,
        )) by {
            assert forall|q: int| 0 <= q < args_tokens(rest, 1).len() implies toks.subrange(
                pos + 1,
                pos + 1 + args_tokens(rest, 1).len() as int,
            )[q] == args_tokens(rest, 1)[q] by {
                assert(toks.subrange(pos, pos + at.len() as int)[q + 1] == toks[pos + 1 + q]);
                assert(at[q + 1] == args_tokens(rest, 1)[q]);
            }
        }
        lemma_parse_args(toks, pos + 1, rest);
        assert(sp_args(toks, pos).0 =~= args);
    }
}

/// An argument list has one token per argument.
proof fn lemma_args_tokens_len(args: Seq<Seq<char>>)
    ensures
        args_tokens(args, 1).len() == args.len(),
        forall|q: int| 0 <= q < args.len() ==> args_tokens(args, 1)[q] == ident_token(
            #[trigger] args[q],
            1,
        ),
    decreases args.len(),
{
    if args.len() > 0 {
        lemma_args_tokens_len(args.drop_first());
        assert forall|q: int| 0 <= q < args.len() implies args_tokens(args, 1)[q] == ident_token(
            #[trigger] args[q],
            1,
        ) by {
            if q > 0 {
                assert(args.drop_first()[q - 1] == args[q]);
            }
        }
    }
}

/// Parsing the token image of a node sequence yields that sequence and
/// consumes exactly its tokens, provided what follows is the end of input
/// (top level) or the closing `}` of the surrounding block.
proof fn lemma_parse_nodes(toks: Seq<SpecToken>, pos: int, ns: Seq<SpecNode>, until: bool)
    requires
        0 <= pos,
        pos + nodes_tokens(ns, 1).len() <= toks.len(),
        toks.subrange(pos, pos + nodes_tokens(ns, 1).len() as int) == nodes_tokens(ns, 1),
        until ==> pos + nodes_tokens(ns, 1).len() < toks.len() && toks[pos + nodes_tokens(
            ns,
            1,
        ).len()].kind == TokenType::RBrace,
        !until ==> pos + nodes_tokens(ns, 1).len() == toks.len(),
    ensures
        sp_items(toks, pos, until) == Some((ns, pos + nodes_tokens(ns, 1).len())),
    decreases crate::resolve::size_nodes(ns), 1int,
{
    let nt = nodes_tokens(ns, 1);
    if ns.len() == 0 {
        assert(nt.len() == 0);
        if until {
            assert(sp_items(toks, pos, until) == Some((Seq::<SpecNode>::empty(), pos)));
        } else {
            assert(pos == toks.len());
        }
        assert(sp_items(toks, pos, until) matches Some((out, q)) && out =~= ns && q == pos);
    } else {
        let head = ns[0];
        let rest = ns.subrange(1, ns.len() as int);
        let ht = node_tokens(head, 1);
        let rt = nodes_tokens(rest, 1);
        assert(nt == ht + rt);
        lemma_node_tokens_len(head);
        crate::resolve::lemma_size_nodes_member(ns, 0);
        assert(crate::resolve::size_nodes(rest) < crate::resolve::size_nodes(ns));
        assert(toks.subrange(pos, pos + ht.len() as int) =~= ht) by {
            assert forall|q: int| 0 <= q < ht.len() implies toks.subrange(
                pos,
                pos + ht.len() as int,
            )[q] == ht[q] by {
                assert(toks.subrange(pos, pos + nt.len() as int)[q] == toks[pos + q]);
                assert(nt[q] == ht[q]);
            }
        }
        assert(toks.subrange(pos + ht.len(), pos + nt.len() as int) =~= rt) by {
            assert forall|q: int| 0 <= q < rt.len() implies toks.subrange(
                pos + ht.len(),
                pos + nt.len() as int,
            )[q] == rt[q] by {
                assert(toks.subrange(pos, pos + nt.len() as int)[ht.len() + q] == toks[pos
                    + ht.len() + q]);
                assert(nt[ht.len() + q] == rt[q]);
            }
        }
        let after_head = pos + ht.len();
        assert(nt.len() == ht.len() + rt.len());
        assert(seq![head].subrange(1, 1).len() == 0);
        assert(crate::resolve::size_nodes(seq![head].subrange(1, 1)) == 0);
        assert(seq![head][0] == head);
        assert(crate::resolve::size_nodes(seq![head]) == crate::resolve::size_node(head));
        lemma_parse_stmt(toks, pos, head);
        lemma_parse_nodes(toks, after_head, rest, until);
        assert(sp_items(toks, pos, until) matches Some((out, q)) && out =~= ns && q == pos
            + nt.len());
    }
}

/// A node's token image is non-empty and starts with an identifier.
proof fn lemma_node_tokens_len(n: SpecNode)
    ensures
        node_tokens(n, 1).len() >= 2,
        node_tokens(n, 1)[0].kind == TokenType::Ident,
{
    match n {
        SpecNode::Directive { name, args } => {
            lemma_args_tokens_len(args);
        },
        SpecNode::Block { name, args, children } => {
            lemma_args_tokens_len(args);
        },
    }
}

/// The token image of a non-empty node sequence starts with an identifier.
proof fn lemma_nodes_tokens_first(ns: Seq<SpecNode>)
    requires
        ns.len() > 0,
    ensures
        nodes_tokens(ns, 1).len() >= 2,
        nodes_tokens(ns, 1)[0].kind == TokenType::Ident,
{
    lemma_node_tokens_len(ns[0]);
}

/// Parsing the token image of one node at `pos` yields that node, stopping
/// right after its tokens. The token after the image must not be an
/// identifier (or the input must end there), so that the argument scan
/// stops correctly.
proof fn lemma_parse_stmt(toks: Seq<SpecToken>, pos: int, n: SpecNode)
    requires
        0 <= pos,
        pos + node_tokens(n, 1).len() <= toks.len(),
        toks.subrange(pos, pos + node_tokens(n, 1).len() as int) == node_tokens(n, 1),
    ensures
        sp_stmt(toks, pos) == Some((n, pos + node_tokens(n, 1).len())),
    decreases crate::resolve::size_nodes(seq![n]), 0int,
{
    let nt = node_tokens(n, 1);
    match n {
        SpecNode::Directive { name, args } => {
            lemma_args_tokens_len(args);
            assert(toks.subrange(pos, pos + nt.len() as int)[0] == toks[pos]);
            assert(toks[pos] == ident_token(name, 1));
            assert(toks.subrange(pos + 1, pos + 1 + args.len()) =~= args_tokens(args, 1)) by {
                assert forall|q: int| 0 <= q < args.len() implies toks.subrange(
                    pos + 1,
                    pos + 1 + args.len(),
                )[q] == args_tokens(args, 1)[q] by {
                    assert(toks.subrange(pos, pos + nt.len() as int)[q + 1] == toks[pos + 1 + q]);
                    assert(nt[q + 1] == args_tokens(args, 1)[q]);
                }
            }
            assert(toks.subrange(pos, pos + nt.len() as int)[nt.len() - 1] == toks[pos + nt.len()
                - 1]);
            assert(toks[pos + 1 + args.len() as int] == punct_token(';', 1));
            lemma_parse_args(toks, pos + 1, args);
            assert(sp_stmt(toks, pos) == Some(
                (SpecNode::Directive { name, args }, pos + nt.len()),
            ));
        },
        SpecNode::Block { name, args, children } => {
            lemma_args_tokens_len(args);
            let ct = nodes_tokens(children, 1);
            assert(toks.subrange(pos, pos + nt.len() as int)[0] == toks[pos]);
            assert(toks[pos] == ident_token(name, 1));
            assert(toks.subrange(pos + 1, pos + 1 + args.len()) =~= args_tokens(args, 1)) by {
                assert forall|q: int| 0 <= q < args.len() implies toks.subrange(
                    pos + 1,
                    pos + 1 + args.len(),
                )[q] == args_tokens(args, 1)[q] by {
                    assert(toks.subrange(pos, pos + nt.len() as int)[q + 1] == toks[pos + 1 + q]);
                    assert(nt[q + 1] == args_tokens(args, 1)[q]);
                }
            }
            let p_brace = pos + 1 + args.len() as int;
            assert(toks.subrange(pos, pos + nt.len() as int)[1 + args.len() as int] == toks[
                p_brace
            ]);
            assert(nt[1 + args.len() as int] == punct_token('{', 1));
            assert(toks[p_brace] == punct_token('{', 1));
            lemma_parse_args(toks, pos + 1, args);
            assert(toks.subrange(p_brace + 1, p_brace + 1 + ct.len() as int) =~= ct) by {
                assert forall|q: int| 0 <= q < ct.len() implies toks.subrange(
                    p_brace + 1,
                    p_brace + 1 + ct.len() as int,
                )[q] == ct[q] by {
                    assert(toks.subrange(pos, pos + nt.len() as int)[2 + args.len() as int + q]
                        == toks[p_brace + 1 + q]);
                    assert(nt[2 + args.len() as int + q] == ct[q]);
                }
            }
            let p_rbrace = p_brace + 1 + ct.len();
            assert(toks.subrange(pos, pos + nt.len() as int)[nt.len() - 1] == toks[p_rbrace]);
            assert(nt[nt.len() - 1] == punct_token('}', 1));
            assert(toks[p_rbrace] == punct_token('}', 1));
            assert(crate::resolve::size_nodes(children) < crate::resolve::size_nodes(seq![n])) by {
                assert(crate::resolve::size_nodes(seq![n]) == crate::resolve::size_node(n)
                    + crate::resolve::size_nodes(seq![n].subrange(1, 1)));
                assert(seq![n].subrange(1, 1).len() == 0);
            }
            lemma_parse_nodes_from_stmt(toks, p_brace + 1, children);
            assert(sp_stmt(toks, pos) == Some(
                (SpecNode::Block { name, args, children }, pos + nt.len()),
            ));
        },
    }
}

/// Helper for `lemma_parse_stmt`: the children of a block parse under
/// `until_rbrace`, since the block's own `}` follows them.
proof fn lemma_parse_nodes_from_stmt(toks: Seq<SpecToken>, pos: int, ns: Seq<SpecNode>)
    requires
        0 <= pos,
        pos + nodes_tokens(ns, 1).len() < toks.len(),
        toks.subrange(pos, pos + nodes_tokens(ns, 1).len() as int) == nodes_tokens(ns, 1),
        toks[pos + nodes_tokens(ns, 1).len()].kind == TokenType::RBrace,
    ensures
        sp_items(toks, pos, true) == Some((ns, pos + nodes_tokens(ns, 1).len())),
    decreases crate::resolve::size_nodes(ns), 2int,
{
    lemma_parse_nodes(toks, pos, ns, true);
}


/// Scanning a run of identifier characters only extends the pending word.
proof fn lemma_scan_word(text: Seq<char>, i: int, j: int, line: int, acc: Seq<char>)
    requires
        0 <= i <= j <= text.len(),
        forall|k: int| i <= k < j ==> is_word_char(#[trigger] text[k]),
    ensures
        spec_tokenize_at(text, i, line, acc) == spec_tokenize_at(
            text,
            j,
            line,
            acc + text.subrange(i, j),
        ),
    decreases j - i,
{
    if i == j {
        assert(acc + text.subrange(i, j) =~= acc);
    } else {
        assert(is_word_char(text[i]));
        assert(text[i] != '\n');
        lemma_scan_word(text, i + 1, j, line, acc.push(text[i]));
        assert(acc.push(text[i]) + text.subrange(i + 1, j) =~= acc + text.subrange(i, j));
    }
}

/// Lexing one rendered word chunk emits one identifier token.
proof fn lemma_lex_chunk_word(text: Seq<char>, i: int, line: int, w: Seq<char>)
    requires
        wf_word(w),
        0 <= i,
        i + w.len() + 1 <= text.len(),
        text.subrange(i, i + w.len() + 1) == chunk(w),
    ensures
        spec_tokenize_at(text, i, line, Seq::<char>::empty()) == seq![ident_token(w, line)]
            + spec_tokenize_at(text, i + w.len() + 1, line, Seq::<char>::empty()),
{
    assert forall|k: int| i <= k < i + w.len() implies is_word_char(#[trigger] text[k]) by {
        assert(text.subrange(i, i + w.len() + 1)[k - i] == text[k]);
        assert(chunk(w)[k - i] == w[k - i]);
    }
    lemma_scan_word(text, i, i + w.len(), line, Seq::<char>::empty());
    assert(Seq::<char>::empty() + text.subrange(i, i + w.len()) =~= text.subrange(
        i,
        i + w.len(),
    ));
    assert(text.subrange(i, i + w.len()) =~= w) by {
        assert forall|k: int| 0 <= k < w.len() implies text.subrange(i, i + w.len())[k]
            == w[k] by {
            assert(text.subrange(i, i + w.len() + 1)[k] == text[i + k]);
            assert(chunk(w)[k] == w[k]);
        }
    }
    assert(text[i + w.len()] == ' ') by {
        assert(text.subrange(i, i + w.len() + 1)[w.len() as int] == text[i + w.len()]);
        assert(chunk(w)[w.len() as int] == ' ');
    }
    assert(spec_tokenize_at(text, i + w.len(), line, w) == flush_word(w, line) + spec_tokenize_at(
        text,
        i + w.len() + 1,
        line,
        Seq::<char>::empty(),
    ));
    assert(flush_word(w, line) =~~= seq![ident_token(w, line)]);
}

/// Lexing one rendered punctuation chunk emits one punctuation token.
proof fn lemma_lex_chunk_punct(text: Seq<char>, i: int, line: int, c: char)
    requires
        spec_punct(c) is Some,
        0 <= i,
        i + 2 <= text.len(),
        text.subrange(i, i + 2) == chunk(seq![c]),
    ensures
        spec_tokenize_at(text, i, line, Seq::<char>::empty()) == seq![punct_token(c, line)]
            + spec_tokenize_at(text, i + 2, line, Seq::<char>::empty()),
{
    assert(text[i] == c) by {
        assert(text.subrange(i, i + 2)[0] == text[i]);
        assert(chunk(seq![c])[0] == c);
    }
    assert(text[i + 1] == ' ') by {
        assert(text.subrange(i, i + 2)[1] == text[i + 1]);
        assert(chunk(seq![c])[1] == ' ');
    }
    assert(c == '{' || c == '}' || c == ';');
    assert(!crate::lexer::is_space_char(c));
    assert(c != '\n' && c != '#');
    assert(!is_word_char(c));
    assert(flush_word(Seq::<char>::empty(), line) =~= Seq::<SpecToken>::empty());
    assert(spec_tokenize_at(text, i + 1, line, Seq::<char>::empty()) == flush_word(
        Seq::<char>::empty(),
        line,
    ) + spec_tokenize_at(text, i + 2, line, Seq::<char>::empty()));
    assert(spec_tokenize_at(text, i, line, Seq::<char>::empty()) =~~= seq![punct_token(c, line)]
        + spec_tokenize_at(text, i + 2, line, Seq::<char>::empty()));
}

/// Lexing rendered arguments emits their identifier tokens.
proof fn lemma_lex_args(text: Seq<char>, i: int, line: int, args: Seq<Seq<char>>)
    requires
        wf_words(args),
        0 <= i,
        i + render_args(args).len() <= text.len(),
        text.subrange(i, i + render_args(args).len() as int) == render_args(args),
    ensures
        spec_tokenize_at(text, i, line, Seq::<char>::empty()) == args_tokens(args, line)
            + spec_tokenize_at(
            text,
            i + render_args(args).len(),
            line,
            Seq::<char>::empty(),
        ),
    decreases args.len(),
{
    if args.len() == 0 {
        assert(args_tokens(args, line) =~= Seq::<SpecToken>::empty());
        assert(Seq::<SpecToken>::empty() + spec_tokenize_at(text, i, line, Seq::<char>::empty())
            =~= spec_tokenize_at(text, i, line, Seq::<char>::empty()));
    } else {
        let w = args[0];
        let rest = args.drop_first();
        let ra = render_args(args);
        assert(ra == chunk(w) + render_args(rest));
        assert(text.subrange(i, i + w.len() + 1) =~= chunk(w)) by {
            assert forall|k: int| 0 <= k < w.len() + 1 implies text.subrange(
                i,
                i + w.len() + 1,
            )[k] == chunk(w)[k] by {
                assert(text.subrange(i, i + ra.len() as int)[k] == text[i + k]);
                assert(ra[k] == chunk(w)[k]);
            }
        }
        let after = i + w.len() + 1;
        assert(text.subrange(after, after + render_args(rest).len() as int) =~= render_args(
            rest,
        )) by {
            assert forall|k: int| 0 <= k < render_args(rest).len() implies text.subrange(
                after,
                after + render_args(rest).len() as int,
            )[k] == render_args(rest)[k] by {
                assert(text.subrange(i, i + ra.len() as int)[w.len() + 1 + k] == text[after + k]);
                assert(ra[w.len() + 1 + k] == render_args(rest)[k]);
            }
        }
        lemma_lex_chunk_word(text, i, line, w);
        lemma_lex_args(text, after, line, rest);
        assert(seq![ident_token(w, line)] + (args_tokens(rest, line) + spec_tokenize_at(
            text,
            i + ra.len(),
            line,
            Seq::<char>::empty(),
        )) =~= args_tokens(args, line) + spec_tokenize_at(
            text,
            i + ra.len(),
            line,
            Seq::<char>::empty(),
        ));
    }
}

/// Lexing the rendered text of one node emits exactly its token image.
proof fn lemma_lex_node(text: Seq<char>, i: int, line: int, n: SpecNode)
    requires
        wf_node(n),
        0 <= i,
        i + render_node(n).len() <= text.len(),
        text.subrange(i, i + render_node(n).len() as int) == render_node(n),
    ensures
        spec_tokenize_at(text, i, line, Seq::<char>::empty()) == node_tokens(n, line)
            + spec_tokenize_at(
            text,
            i + render_node(n).len(),
            line,
            Seq::<char>::empty(),
        ),
    decreases crate::resolve::size_node(n), 1int,
{
    let rn = render_node(n);
    match n {
        SpecNode::Directive { name, args } => {
            let p_args = i + name.len() + 1;
            let p_semi = p_args + render_args(args).len();
            assert(rn == chunk(name) + render_args(args) + chunk(seq![';']));
            assert(text.subrange(i, i + name.len() + 1) =~= chunk(name)) by {
                assert forall|k: int| 0 <= k < name.len() + 1 implies text.subrange(
                    i,
                    i + name.len() + 1,
                )[k] == chunk(name)[k] by {
                    assert(text.subrange(i, i + rn.len() as int)[k] == text[i + k]);
                    assert(rn[k] == chunk(name)[k]);
                }
            }
            assert(text.subrange(p_args, p_args + render_args(args).len() as int) =~= render_args(
                args,
            )) by {
                assert forall|k: int| 0 <= k < render_args(args).len() implies text.subrange(
                    p_args,
                    p_args + render_args(args).len() as int,
                )[k] == render_args(args)[k] by {
                    assert(text.subrange(i, i + rn.len() as int)[name.len() + 1 + k] == text[p_args
                        + k]);
                    assert(rn[name.len() + 1 + k] == render_args(args)[k]);
                }
            }
            assert(text.subrange(p_semi, p_semi + 2) =~= chunk(seq![';'])) by {
                assert forall|k: int| 0 <= k < 2 implies text.subrange(p_semi, p_semi + 2)[k]
                    == chunk(seq![';'])[k] by {
                    assert(text.subrange(i, i + rn.len() as int)[name.len() + 1 + render_args(
                        args,
                    ).len() + k] == text[p_semi + k]);
                    assert(rn[name.len() + 1 + render_args(args).len() + k] == chunk(
                        seq![';'],
                    )[k]);
                }
            }
            lemma_lex_chunk_word(text, i, line, name);
            lemma_lex_args(text, p_args, line, args);
            lemma_lex_chunk_punct(text, p_semi, line, ';');
            assert(spec_tokenize_at(text, i, line, Seq::<char>::empty()) =~~= node_tokens(n, line)
                + spec_tokenize_at(text, i + rn.len(), line, Seq::<char>::empty()));
        },
        SpecNode::Block { name, args, children } => {
            let p_args = i + name.len() + 1;
            let p_open = p_args + render_args(args).len();
            let p_kids = p_open + 2;
            let p_close = p_kids + render_nodes(children).len();
            assert(rn == chunk(name) + render_args(args) + chunk(seq!['{']) + render_nodes(
                children,
            ) + chunk(seq!['}']));
            assert(text.subrange(i, i + name.len() + 1) =~= chunk(name)) by {
                assert forall|k: int| 0 <= k < name.len() + 1 implies text.subrange(
                    i,
                    i + name.len() + 1,
                )[k] == chunk(name)[k] by {
                    assert(text.subrange(i, i + rn.len() as int)[k] == text[i + k]);
                    assert(rn[k] == chunk(name)[k]);
                }
            }
            assert(text.subrange(p_args, p_args + render_args(args).len() as int) =~= render_args(
                args,
            )) by {
                assert forall|k: int| 0 <= k < render_args(args).len() implies text.subrange(
                    p_args,
                    p_args + render_args(args).len() as int,
                )[k] == render_args(args)[k] by {
                    assert(text.subrange(i, i + rn.len() as int)[name.len() + 1 + k] == text[p_args
                        + k]);
                    assert(rn[name.len() + 1 + k] == render_args(args)[k]);
                }
            }
            assert(text.subrange(p_open, p_open + 2) =~= chunk(seq!['{'])) by {
                assert forall|k: int| 0 <= k < 2 implies text.subrange(p_open, p_open + 2)[k]
                    == chunk(seq!['{'])[k] by {
                    assert(text.subrange(i, i + rn.len() as int)[name.len() + 1 + render_args(
                        args,
                    ).len() + k] == text[p_open + k]);
                    assert(rn[name.len() + 1 + render_args(args).len() + k] == chunk(
                        seq!['{'],
                    )[k]);
                }
            }
            assert(text.subrange(p_kids, p_kids + render_nodes(children).len() as int)
                =~= render_nodes(children)) by {
                assert forall|k: int| 0 <= k < render_nodes(children).len() implies text.subrange(
                    p_kids,
                    p_kids + render_nodes(children).len() as int,
                )[k] == render_nodes(children)[k] by {
                    assert(text.subrange(i, i + rn.len() as int)[name.len() + 3 + render_args(
                        args,
                    ).len() + k] == text[p_kids + k]);
                    assert(rn[name.len() + 3 + render_args(args).len() + k] == render_nodes(
                        children,
                    )[k]);
                }
            }
            assert(text.subrange(p_close, p_close + 2) =~= chunk(seq!['}'])) by {
                assert forall|k: int| 0 <= k < 2 implies text.subrange(p_close, p_close + 2)[k]
                    == chunk(seq!['}'])[k] by {
                    assert(text.subrange(i, i + rn.len() as int)[name.len() + 3 + render_args(
                        args,
                    ).len() + render_nodes(children).len() + k] == text[p_close + k]);
                    assert(rn[name.len() + 3 + render_args(args).len() + render_nodes(
                        children,
                    ).len() + k] == chunk(seq!['}'])[k]);
                }
            }
            lemma_lex_chunk_word(text, i, line, name);
            lemma_lex_args(text, p_args, line, args);
            lemma_lex_chunk_punct(text, p_open, line, '{');
            assert(crate::resolve::size_nodes(children) < crate::resolve::size_node(n));
            lemma_lex_nodes(text, p_kids, line, children);
            lemma_lex_chunk_punct(text, p_close, line, '}');
            assert(spec_tokenize_at(text, i, line, Seq::<char>::empty()) =~~= node_tokens(n, line)
                + spec_tokenize_at(text, i + rn.len(), line, Seq::<char>::empty()));
        },
    }
}

/// Lexing the rendered text of a node sequence emits its token image.
proof fn lemma_lex_nodes(text: Seq<char>, i: int, line: int, ns: Seq<SpecNode>)
    requires
        wf_nodes(ns),
        0 <= i,
        i + render_nodes(ns).len() <= text.len(),
        text.subrange(i, i + render_nodes(ns).len() as int) == render_nodes(ns),
    ensures
        spec_tokenize_at(text, i, line, Seq::<char>::empty()) == nodes_tokens(ns, line)
            + spec_tokenize_at(
            text,
            i + render_nodes(ns).len(),
            line,
            Seq::<char>::empty(),
        ),
    decreases crate::resolve::size_nodes(ns), 2int,
{
    if ns.len() == 0 {
        assert(Seq::<SpecToken>::empty() + spec_tokenize_at(text, i, line, Seq::<char>::empty())
            =~= spec_tokenize_at(text, i, line, Seq::<char>::empty()));
    } else {
        let head = ns[0];
        let rest = ns.subrange(1, ns.len() as int);
        let rh = render_node(head);
        let rr = render_nodes(rest);
        assert(render_nodes(ns) == rh + rr);
        crate::resolve::lemma_size_nodes_member(ns, 0);
        assert(crate::resolve::size_nodes(rest) < crate::resolve::size_nodes(ns));
        assert(text.subrange(i, i + rh.len() as int) =~= rh) by {
            assert forall|k: int| 0 <= k < rh.len() implies text.subrange(
                i,
                i + rh.len() as int,
            )[k] == rh[k] by {
                assert(text.subrange(i, i + render_nodes(ns).len() as int)[k] == text[i + k]);
                assert(render_nodes(ns)[k] == rh[k]);
            }
        }
        let after = i + rh.len();
        assert(text.subrange(after, after + rr.len() as int) =~= rr) by {
            assert forall|k: int| 0 <= k < rr.len() implies text.subrange(
                after,
                after + rr.len() as int,
            )[k] == rr[k] by {
                assert(text.subrange(i, i + render_nodes(ns).len() as int)[rh.len() + k]
                    == text[after + k]);
                assert(render_nodes(ns)[rh.len() + k] == rr[k]);
            }
        }
        assert(crate::resolve::size_node(head) <= crate::resolve::size_nodes(ns));
        lemma_lex_node(text, i, line, head);
        lemma_lex_nodes(text, after, line, rest);
        assert(node_tokens(head, line) + (nodes_tokens(rest, line) + spec_tokenize_at(
            text,
            i + render_nodes(ns).len(),
            line,
            Seq::<char>::empty(),
        )) =~= nodes_tokens(ns, line) + spec_tokenize_at(
            text,
            i + render_nodes(ns).len(),
            line,
            Seq::<char>::empty(),
        ));
    }
}

/// Lexing the rendered text of a well-formed tree yields exactly its token
/// image, all on line 1.
pub proof fn lemma_tokenize_render(ns: Seq<SpecNode>)
    requires
        wf_nodes(ns),
    ensures
        spec_tokenize(render_nodes(ns)) == nodes_tokens(ns, 1),
{
    let text = render_nodes(ns);
    assert(text.subrange(0, text.len() as int) =~= text);
    lemma_lex_nodes(text, 0, 1, ns);
    assert(spec_tokenize_at(text, text.len() as int, 1, Seq::<char>::empty())
        =~= Seq::<SpecToken>::empty());
    assert(nodes_tokens(ns, 1) + Seq::<SpecToken>::empty() =~= nodes_tokens(ns, 1));
}

/// Round trip: rendering any well-formed tree to text, lexing that text and
/// re-parsing the tokens yields the tree again.
pub proof fn lemma_render_parse_round_trip(ns: Seq<SpecNode>)
    requires
        wf_nodes(ns),
    ensures
        spec_parse(spec_tokenize(render_nodes(ns))) == Some(ns),
{
    lemma_tokenize_render(ns);
    let toks = nodes_tokens(ns, 1);
    assert(toks.subrange(0, toks.len() as int) =~= toks);
    lemma_parse_nodes(toks, 0, ns, false);
}


/// Renders one word followed by one space.
fn append_chunk(out: &mut String, w: &str)
    ensures
        final(out)@ == old(out)@ + chunk(w@),
{
    out.append(w);
    out.append(" ");
    proof {
        reveal_strlit(" ");
        assert(" "@ =~= seq![' ']);
        assert(out@ =~= old(out)@ + chunk(w@));
    }
}

/// Renders one node as text.
#[verifier::loop_isolation(false)]
fn render_node_str(n: &Node, out: &mut String)
    ensures
        final(out)@ == old(out)@ + render_node(n@),
    decreases crate::resolve::size_node(n@),
{
    match n {
        Node::Directive(d) => {
            append_chunk(out, d.name.as_str());
            let m = d.args.len();
            let mut j: usize = 0;
            proof {
                assert(n@ == SpecNode::Directive { name: d.name@, args: d.args.deep_view() });
                assert(d.args.deep_view().skip(0) =~= d.args.deep_view());
            }
            while j < m
                invariant
                    m == d.args@.len(),
                    j <= m,
                    out@ + render_args(d.args.deep_view().skip(j as int)) == old(out)@ + chunk(
                        d.name@,
                    ) + render_args(d.args.deep_view()),
                decreases m - j,
            {
                proof {
                    let dv = d.args.deep_view();
                    assert(dv.skip(j as int)[0] == dv[j as int]);
                    assert(dv.skip(j as int).drop_first() =~= dv.skip(j + 1));
                    assert(dv[j as int] == d.args@[j as int]@);
                }
                let ghost pre = out@;
                append_chunk(out, d.args[j].as_str());
                proof {
                    let dv = d.args.deep_view();
                    assert((pre + chunk(dv[j as int])) + render_args(dv.skip(j + 1)) =~= pre + (
                    chunk(dv[j as int]) + render_args(dv.skip(j + 1))));
                }
                j = j + 1;
            }
            proof {
                assert(d.args.deep_view().skip(m as int).len() == 0);
                assert(render_args(d.args.deep_view().skip(m as int))
                    =~= Seq::<char>::empty());
                assert(out@ =~= old(out)@ + chunk(d.name@) + render_args(d.args.deep_view()));
            }
            append_chunk(out, ";");
            proof {
                reveal_strlit(";");
                assert(";"@ =~= seq![';']);
                assert(out@ =~= old(out)@ + render_node(n@));
            }
        },
        Node::Block(b) => {
            proof {
                crate::ast::lemma_nodes_view_rec(b.children@);
                assert(n@ == SpecNode::Block {
                    name: b.name@,
                    args: b.args.deep_view(),
                    children: nodes_view(b.children@),
                });
            }
            append_chunk(out, b.name.as_str());
            let m = b.args.len();
            let mut j: usize = 0;
            proof {
                assert(b.args.deep_view().skip(0) =~= b.args.deep_view());
            }
            while j < m
                invariant
                    m == b.args@.len(),
                    j <= m,
                    out@ + render_args(b.args.deep_view().skip(j as int)) == old(out)@ + chunk(
                        b.name@,
                    ) + render_args(b.args.deep_view()),
                decreases m - j,
            {
                proof {
                    let dv = b.args.deep_view();
                    assert(dv.skip(j as int)[0] == dv[j as int]);
                    assert(dv.skip(j as int).drop_first() =~= dv.skip(j + 1));
                    assert(dv[j as int] == b.args@[j as int]@);
                }
                let ghost pre = out@;
                append_chunk(out, b.args[j].as_str());
                proof {
                    let dv = b.args.deep_view();
                    assert((pre + chunk(dv[j as int])) + render_args(dv.skip(j + 1)) =~= pre + (
                    chunk(dv[j as int]) + render_args(dv.skip(j + 1))));
                }
                j = j + 1;
            }
            proof {
                assert(b.args.deep_view().skip(m as int).len() == 0);
                assert(render_args(b.args.deep_view().skip(m as int))
                    =~= Seq::<char>::empty());
            }
            append_chunk(out, "{");
            proof {
                reveal_strlit("{");
                assert("{"@ =~= seq!['{']);
            }
            let ghost base = out@;
            let cn = b.children.len();
            let mut i: usize = 0;
            proof {
                let cv = nodes_view(b.children@);
                assert(cv.skip(0) =~= cv);
            }
            while i < cn
                invariant
                    cn == b.children@.len(),
                    i <= cn,
                    out@ + render_nodes(nodes_view(b.children@).skip(i as int)) == base
                        + render_nodes(nodes_view(b.children@)),
                decreases cn - i,
            {
                proof {
                    let cv = nodes_view(b.children@);
                    assert(cv.skip(i as int)[0] == cv[i as int]);
                    assert(cv.skip(i as int).subrange(1, cv.skip(i as int).len() as int)
                        =~= cv.skip(i + 1));
                    lemma_size_member(cv, i as int);
                    assert(cv[i as int] == b.children[i as int]@);
                    assert(crate::resolve::size_node(b.children[i as int]@)
                        < crate::resolve::size_node(n@));
                }
                let ghost pre = out@;
                render_node_str(&b.children[i], out);
                proof {
                    let cv = nodes_view(b.children@);
                    assert((pre + render_node(cv[i as int])) + render_nodes(cv.skip(i + 1)) =~= pre
                        + (render_node(cv[i as int]) + render_nodes(cv.skip(i + 1))));
                }
                i = i + 1;
            }
            proof {
                let cv = nodes_view(b.children@);
                assert(cv.skip(cn as int).len() == 0);
                assert(render_nodes(cv.skip(cn as int)) =~= Seq::<char>::empty());
            }
            append_chunk(out, "}");
            proof {
                reveal_strlit("}");
                assert("}"@ =~= seq!['}']);
                assert(out@ =~= old(out)@ + render_node(n@));
            }
        },
    }
}

/// A member node weighs no more than its sequence.
proof fn lemma_size_member(ns: Seq<SpecNode>, i: int)
    requires
        0 <= i < ns.len(),
    ensures
        crate::resolve::size_node(ns[i]) <= crate::resolve::size_nodes(ns),
{
    crate::resolve::lemma_size_nodes_member(ns, i);
}

impl Ast {
    /// Renders the tree back to configuration text: each token followed by
    /// one space, all on one line.
    #[verifier::loop_isolation(false)]
    pub fn to_text(&self) -> (r: String)
        ensures
            r@ == render_nodes(self@),
    {
        let mut out = String::new();
        let n = self.items.len();
        let mut i: usize = 0;
        proof {
            assert(self@.skip(0) =~= self@);
            assert(out@ =~= Seq::<char>::empty());
        }
        while i < n
            invariant
                n == self.items@.len(),
                i <= n,
                out@ + render_nodes(self@.skip(i as int)) == render_nodes(self@),
            decreases n - i,
        {
            proof {
                assert(self@.skip(i as int)[0] == self@[i as int]);
                assert(self@.skip(i as int).subrange(1, self@.skip(i as int).len() as int)
                    =~= self@.skip(i + 1));
                assert(self@[i as int] == self.items@[i as int]@);
            }
            let ghost pre = out@;
            render_node_str(&self.items[i], &mut out);
            proof {
                assert((pre + render_node(self@[i as int])) + render_nodes(self@.skip(i + 1))
                    =~= pre + (render_node(self@[i as int]) + render_nodes(self@.skip(i + 1))));
            }
            i = i + 1;
        }
        proof {
            assert(self@.skip(n as int).len() == 0);
            assert(render_nodes(self@.skip(n as int)) =~= Seq::<char>::empty());
            assert(out@ + Seq::<char>::empty() =~= out@);
        }
        out
    }
}

} // verus!
