//! Include resolution: every directive named `include` is replaced, in
//! place, by the parsed contents of the files it names, recursively. File
//! contents are supplied up front as an in-memory table, so resolution is a
//! pure transformation; reading files from disk is the caller's business.
//! A file that is still being expanded may not be included again: such a
//! cycle is reported as an error instead of recursing forever.

use vstd::prelude::*;

use crate::ast::{nodes_view, Ast, Node, SpecNode};
use crate::lexer::spec_tokenize;
use crate::parser::spec_parse;
use crate::text::str_eq;
use vstd::string::StringExecFns;

verus! {

/// One loadable file: its path and its contents.
#[derive(Debug)]
pub struct IncludeFile {
    pub path: String,
    pub text: String,
}

/// Mathematical image of an `IncludeFile`.
#[verifier::ext_equal]
pub ghost struct SpecIncludeFile {
    pub path: Seq<char>,
    pub text: Seq<char>,
}

impl View for IncludeFile {
    type V = SpecIncludeFile;

    open spec fn view(&self) -> SpecIncludeFile {
        SpecIncludeFile { path: self.path@, text: self.text@ }
    }
}

/// The views of a file table.
pub open spec fn files_view(fs: Seq<IncludeFile>) -> Seq<SpecIncludeFile> {
    Seq::new(fs.len(), |i: int| fs[i]@)
}

/// A failure of include resolution: a missing or unparsable file, or an
/// include cycle.
#[derive(Debug, Clone, PartialEq, Eq)]
pub struct IncludeError {
    pub message: String,
}

/// Resolves include directives against an in-memory file table.
#[derive(Debug)]
pub struct IncludeResolver {
    pub includes_files: Vec<IncludeFile>,
}

/// The number of nodes and arguments in one node, counted recursively; a
/// measure for termination.
pub open spec fn size_node(n: SpecNode) -> nat
    decreases n,
{
    match n {
        SpecNode::Directive { name, args } => 1 + args.len(),
        SpecNode::Block { name, args, children } => 1 + size_nodes(children),
    }
}

/// The total size of a node sequence.
pub open spec fn size_nodes(ns: Seq<SpecNode>) -> nat
    decreases ns,
{
    if ns.len() == 0 {
        0
    } else {
        proof {
            vstd::seq::axiom_seq_index_decreases(ns, 0);
            vstd::seq::axiom_seq_subrange_decreases(ns, 1, ns.len() as int);
        }
        size_node(ns[0]) + size_nodes(ns.subrange(1, ns.len() as int))
    }
}

/// Every member weighs no more than the whole sequence.
pub proof fn lemma_size_nodes_member(ns: Seq<SpecNode>, i: int)
    requires
        0 <= i < ns.len(),
    ensures
        size_node(ns[i]) <= size_nodes(ns),
    decreases ns.len(),
{
    if i == 0 {
    } else {
        lemma_size_nodes_member(ns.subrange(1, ns.len() as int), i - 1);
        assert(ns.subrange(1, ns.len() as int)[i - 1] == ns[i]);
    }
}

/// The paths named by include directives anywhere in one node.
pub open spec fn spec_collect_node(n: SpecNode) -> Seq<Seq<char>>
    decreases n,
{
    match n {
        SpecNode::Directive { name, args } => {
            if name == "include"@ {
                args
            } else {
                Seq::<Seq<char>>::empty()
            }
        },
        SpecNode::Block { name, args, children } => spec_collect_nodes(children),
    }
}

/// The paths named by include directives anywhere in a node sequence.
pub open spec fn spec_collect_nodes(ns: Seq<SpecNode>) -> Seq<Seq<char>>
    decreases ns,
{
    if ns.len() == 0 {
        Seq::<Seq<char>>::empty()
    } else {
        proof {
            vstd::seq::axiom_seq_index_decreases(ns, 0);
            vstd::seq::axiom_seq_subrange_decreases(ns, 1, ns.len() as int);
        }
        spec_collect_node(ns[0]) + spec_collect_nodes(ns.subrange(1, ns.len() as int))
    }
}

/// A table entry for each path, with empty contents.
pub open spec fn blank_files(paths: Seq<Seq<char>>) -> Seq<SpecIncludeFile> {
    Seq::new(paths.len(), |i: int| SpecIncludeFile { path: paths[i], text: Seq::<char>::empty() })
}

/// The contents of the first table entry with the given path.
pub open spec fn spec_lookup(files: Seq<SpecIncludeFile>, path: Seq<char>) -> Option<Seq<char>>
    decreases files.len(),
{
    if files.len() == 0 {
        None
    } else if files[0].path == path {
        Some(files[0].text)
    } else {
        spec_lookup(files.drop_first(), path)
    }
}

/// Resolution of a node sequence: include directives are expanded in place,
/// blocks are rebuilt around their resolved children, everything else passes
/// through. `visited` holds the paths of the files whose contents are
/// currently being expanded; `None` is a missing file, a parse error inside
/// an included file, or an include cycle.
pub open spec fn sr_nodes(
    files: Seq<SpecIncludeFile>,
    nodes: Seq<SpecNode>,
    visited: Seq<Seq<char>>,
) -> Option<Seq<SpecNode>>
    decreases files.len() - visited.len(), size_nodes(nodes), 0int,
{
    if nodes.len() == 0 {
        Some(Seq::<SpecNode>::empty())
    } else {
        proof {
            vstd::seq::axiom_seq_index_decreases(nodes, 0);
            assert(size_nodes(nodes) == size_node(nodes[0]) + size_nodes(
                nodes.subrange(1, nodes.len() as int),
            ));
            assert(size_node(nodes[0]) >= 1);
        }
        let head = nodes[0];
        let rest = nodes.subrange(1, nodes.len() as int);
        let head_out: Option<Seq<SpecNode>> = match head {
            SpecNode::Directive { name, args } => {
                if name == "include"@ {
                    proof {
                        assert(size_node(nodes[0]) == 1 + args.len());
                    }
                    sr_paths(files, args, visited)
                } else {
                    Some(seq![head])
                }
            },
            SpecNode::Block { name, args, children } => {
                proof {
                    assert(size_node(nodes[0]) == 1 + size_nodes(children));
                }
                match sr_nodes(files, children, visited) {
                    Some(ch) => Some(seq![SpecNode::Block { name, args, children: ch }]),
                    None => None,
                }
            },
        };
        match head_out {
            Some(expanded) => {
                match sr_nodes(files, rest, visited) {
                    Some(r2) => Some(expanded + r2),
                    None => None,
                }
            },
            None => None,
        }
    }
}

/// Expansion of the files named by one include directive, in order.
pub open spec fn sr_paths(
    files: Seq<SpecIncludeFile>,
    paths: Seq<Seq<char>>,
    visited: Seq<Seq<char>>,
) -> Option<Seq<SpecNode>>
    decreases files.len() - visited.len(), paths.len(), 1int,
{
    if paths.len() == 0 {
        Some(Seq::<SpecNode>::empty())
    } else {
        let p = paths[0];
        if visited.contains(p) {
            None
        } else {
            match spec_lookup(files, p) {
                None => None,
                Some(text) => {
                    if visited.len() >= files.len() {
                        None
                    } else if text.len() >= usize::MAX {
                        None
                    } else {
                        match spec_parse(spec_tokenize(text)) {
                            None => None,
                            Some(items) => {
                                match sr_nodes(files, items, visited.push(p)) {
                                    Some(sub) => {
                                        match sr_paths(
                                            files,
                                            paths.subrange(1, paths.len() as int),
                                            visited,
                                        ) {
                                            Some(r2) => Some(sub + r2),
                                            None => None,
                                        }
                                    },
                                    None => None,
                                }
                            },
                        }
                    }
                },
            }
        }
    }
}

/// An include-free node: not an include directive, and without one anywhere
/// below it.
pub open spec fn include_free_node(n: SpecNode) -> bool
    decreases n,
{
    match n {
        SpecNode::Directive { name, args } => name != "include"@,
        SpecNode::Block { name, args, children } => include_free_nodes(children),
    }
}

/// An include-free node sequence.
pub open spec fn include_free_nodes(ns: Seq<SpecNode>) -> bool
    decreases ns,
{
    if ns.len() == 0 {
        true
    } else {
        proof {
            vstd::seq::axiom_seq_index_decreases(ns, 0);
            vstd::seq::axiom_seq_subrange_decreases(ns, 1, ns.len() as int);
        }
        include_free_node(ns[0]) && include_free_nodes(ns.subrange(1, ns.len() as int))
    }
}

/// Resolution is the identity on include-free trees, whatever the file table
/// and the visited set.
pub proof fn lemma_resolve_include_free(
    files: Seq<SpecIncludeFile>,
    nodes: Seq<SpecNode>,
    visited: Seq<Seq<char>>,
)
    requires
        include_free_nodes(nodes),
    ensures
        sr_nodes(files, nodes, visited) == Some(nodes),
    decreases size_nodes(nodes),
{
    if nodes.len() == 0 {
        assert(sr_nodes(files, nodes, visited) =~~= Some(nodes));
    } else {
        let head = nodes[0];
        let rest = nodes.subrange(1, nodes.len() as int);
        assert(include_free_node(head) && include_free_nodes(rest));
        assert(size_nodes(nodes) == size_node(head) + size_nodes(rest));
        assert(size_node(head) >= 1);
        lemma_resolve_include_free(files, rest, visited);
        match head {
            SpecNode::Directive { name, args } => {
                assert(seq![head] + rest =~= nodes);
                assert(sr_nodes(files, nodes, visited) == Some(nodes));
            },
            SpecNode::Block { name, args, children } => {
                assert(size_node(head) == 1 + size_nodes(children));
                assert(include_free_nodes(children));
                lemma_resolve_include_free(files, children, visited);
                assert(seq![SpecNode::Block { name, args, children }] + rest =~= nodes);
                assert(sr_nodes(files, nodes, visited) == Some(nodes));
            },
        }
    }
}

/// Deep copy of a string vector.
pub fn clone_string_vec(v: &Vec<String>) -> (r: Vec<String>)
    ensures
        r.deep_view() == v.deep_view(),
        r@.len() == v@.len(),
{
    let mut out: Vec<String> = Vec::new();
    let n = v.len();
    let mut i: usize = 0;
    while i < n
        invariant
            n == v@.len(),
            i <= n,
            out@.len() == i,
            out.deep_view() =~~= v.deep_view().take(i as int),
        decreases n - i,
    {
        let elem = v[i].clone();
        proof {
            assert(elem@ == v@[i as int]@);
        }
        out.push(elem);
        proof {
            assert(out@.len() == i + 1);
            assert(out@[i as int]@ == v@[i as int]@);
            assert(out.deep_view() =~~= v.deep_view().take(i + 1));
        }
        i = i + 1;
    }
    proof {
        assert(v.deep_view().take(n as int) =~~= v.deep_view());
    }
    out
}

/// Deep copy of a node.
#[verifier::loop_isolation(false)]
fn clone_node(n: &Node) -> (r: Node)
    ensures
        r@ == n@,
    decreases size_node(n@),
{
    match n {
        Node::Directive(d) => {
            let r = Node::directive(d.name.clone(), clone_string_vec(&d.args));
            proof {
                assert(n@ == SpecNode::Directive { name: d.name@, args: d.args.deep_view() });
                assert(r@ =~~= n@);
            }
            r
        },
        Node::Block(b) => {
            let mut children: Vec<Node> = Vec::new();
            let m = b.children.len();
            let mut j: usize = 0;
            while j < m
                invariant
                    m == b.children@.len(),
                    j <= m,
                    children@.len() == j,
                    nodes_view(children@) =~~= nodes_view(b.children@).take(j as int),
                decreases m - j,
            {
                proof {
                    crate::ast::lemma_nodes_view_rec(b.children@);
                    assert(n@ == SpecNode::Block {
                        name: b.name@,
                        args: b.args.deep_view(),
                        children: crate::ast::nodes_view_rec(b.children@),
                    });
                    lemma_size_nodes_member(nodes_view(b.children@), j as int);
                    assert(nodes_view(b.children@)[j as int] == b.children[j as int]@);
                    assert(size_node(b.children[j as int]@) < size_node(n@));
                }
                let c = clone_node(&b.children[j]);
                children.push(c);
                proof {
                    assert(nodes_view(children@) =~~= nodes_view(b.children@).take(j + 1));
                }
                j = j + 1;
            }
            proof {
                assert(nodes_view(b.children@).take(m as int) =~~= nodes_view(b.children@));
            }
            let r = Node::block(b.name.clone(), clone_string_vec(&b.args), children);
            proof {
                crate::ast::lemma_nodes_view_rec(b.children@);
                assert(n@ == SpecNode::Block {
                    name: b.name@,
                    args: b.args.deep_view(),
                    children: crate::ast::nodes_view_rec(b.children@),
                });
                assert(r@ =~~= n@);
            }
            r
        },
    }
}

/// Appends the include paths of one node to `out`, each as a table entry
/// with empty contents.
#[verifier::loop_isolation(false)]
fn collect_node(node: &Node, out: &mut Vec<IncludeFile>)
    ensures
        files_view(final(out)@) =~~= files_view(old(out)@) + blank_files(
            spec_collect_node(node@),
        ),
    decreases size_node(node@),
{
    match node {
        Node::Directive(d) => {
            if str_eq(d.name.as_str(), "include") {
                let m = d.args.len();
                let mut j: usize = 0;
                while j < m
                    invariant
                        m == d.args@.len(),
                        node@ matches SpecNode::Directive { name, args } && name == "include"@
                            && args == d.args.deep_view(),
                        j <= m,
                        out@.len() == old(out)@.len() + j,
                        files_view(out@) =~~= files_view(old(out)@) + blank_files(
                            d.args.deep_view().take(j as int),
                        ),
                    decreases m - j,
                {
                    let path_str = d.args[j].clone();
                    let entry = IncludeFile { path: path_str, text: String::new() };
                    proof {
                        assert(entry@.path == d.args.deep_view()[j as int]);
                        assert(entry@.text =~= Seq::<char>::empty());
                    }
                    let ghost prev = out@;
                    out.push(entry);
                    proof {
                        assert(out@.len() == old(out)@.len() + j + 1);
                        assert(prev.push(entry)[prev.len() as int] == entry);
                        assert(out@[old(out)@.len() + j] == entry);
                        assert forall|k: int| 0 <= k < prev.len() implies out@[k] == prev[k] by {
                            assert(prev.push(entry)[k] == prev[k]);
                        }
                        let target = files_view(old(out)@) + blank_files(
                            d.args.deep_view().take(j + 1),
                        );
                        assert(files_view(out@).len() == target.len());
                        assert forall|k: int| 0 <= k < target.len() implies files_view(out@)[k]
                            =~~= target[k] by {
                            if k < prev.len() {
                                assert(files_view(out@)[k] == files_view(prev)[k]);
                                assert(files_view(prev)[k] =~~= target[k]);
                            } else {
                                assert(files_view(out@)[k] == entry@);
                            }
                        }
                        assert(files_view(out@) =~~= files_view(old(out)@) + blank_files(
                            d.args.deep_view().take(j + 1),
                        ));
                    }
                    j = j + 1;
                }
                proof {
                    assert(d.args.deep_view().take(m as int) =~~= d.args.deep_view());
                }
            } else {
                proof {
                    assert(files_view(out@) =~~= files_view(old(out)@) + blank_files(
                        spec_collect_node(node@),
                    ));
                }
            }
        },
        Node::Block(b) => {
            let m = b.children.len();
            let mut j: usize = 0;
            proof {
                crate::ast::lemma_nodes_view_rec(b.children@);
            }
            while j < m
                invariant
                    m == b.children@.len(),
                    node@ matches SpecNode::Block { name, args, children } && children
                        == nodes_view(b.children@),
                    j <= m,
                    files_view(out@) =~~= files_view(old(out)@) + blank_files(
                        spec_collect_nodes(nodes_view(b.children@).take(j as int)),
                    ),
                decreases m - j,
            {
                proof {
                    assert(node@ == SpecNode::Block {
                        name: b.name@,
                        args: b.args.deep_view(),
                        children: crate::ast::nodes_view_rec(b.children@),
                    });
                    lemma_size_nodes_member(nodes_view(b.children@), j as int);
                    assert(nodes_view(b.children@)[j as int] == b.children[j as int]@);
                    assert(size_node(b.children[j as int]@) < size_node(node@));
                }
                collect_node(&b.children[j], out);
                proof {
                    let cv = nodes_view(b.children@);
                    assert(cv.take(j + 1) =~= cv.take(j as int).push(cv[j as int]));
                    lemma_collect_push(cv.take(j as int), cv[j as int]);
                    assert(files_view(out@) =~~= files_view(old(out)@) + blank_files(
                        spec_collect_nodes(cv.take(j + 1)),
                    ));
                }
                j = j + 1;
            }
            proof {
                assert(nodes_view(b.children@).take(m as int) =~~= nodes_view(b.children@));
            }
        },
    }
}

/// Collecting over a sequence extended by one node appends that node's
/// paths.
pub proof fn lemma_collect_push(ns: Seq<SpecNode>, n: SpecNode)
    ensures
        spec_collect_nodes(ns.push(n)) == spec_collect_nodes(ns) + spec_collect_node(n),
    decreases ns.len(),
{
    let ext = ns.push(n);
    if ns.len() == 0 {
        assert(ext.subrange(1, ext.len() as int) =~= Seq::<SpecNode>::empty());
        assert(spec_collect_nodes(Seq::<SpecNode>::empty()) =~= Seq::<Seq<char>>::empty());
        assert(spec_collect_nodes(ext) == spec_collect_node(ext[0]) + spec_collect_nodes(
            ext.subrange(1, ext.len() as int),
        ));
        assert(ext[0] == n);
        assert(spec_collect_nodes(ext) =~~= spec_collect_nodes(ns) + spec_collect_node(n));
    } else {
        assert(ext.subrange(1, ext.len() as int) =~= ns.subrange(1, ns.len() as int).push(n));
        lemma_collect_push(ns.subrange(1, ns.len() as int), n);
        assert(spec_collect_nodes(ext) =~~= spec_collect_nodes(ns) + spec_collect_node(n));
    }
}

/// Appends the include paths of every node, in order.
#[verifier::loop_isolation(false)]
pub fn collect_includes(nodes: &[Node], out: &mut Vec<IncludeFile>)
    ensures
        files_view(final(out)@) =~~= files_view(old(out)@) + blank_files(
            spec_collect_nodes(nodes_view(nodes@)),
        ),
{
    let n = nodes.len();
    let mut i: usize = 0;
    while i < n
        invariant
            n == nodes@.len(),
            i <= n,
            files_view(out@) =~~= files_view(old(out)@) + blank_files(
                spec_collect_nodes(nodes_view(nodes@).take(i as int)),
            ),
        decreases n - i,
    {
        collect_node(vstd::slice::slice_index_get(nodes, i), out);
        proof {
            let nv = nodes_view(nodes@);
            assert(nv.take(i + 1) =~= nv.take(i as int).push(nv[i as int]));
            lemma_collect_push(nv.take(i as int), nv[i as int]);
        }
        i = i + 1;
    }
    proof {
        assert(nodes_view(nodes@).take(n as int) =~= nodes_view(nodes@));
    }
}


/// Whether `s` occurs in `v`.
fn vec_contains_str(v: &Vec<String>, s: &str) -> (r: bool)
    ensures
        r == v.deep_view().contains(s@),
{
    let n = v.len();
    let mut i: usize = 0;
    while i < n
        invariant
            n == v@.len(),
            i <= n,
            forall|k: int| 0 <= k < i ==> v.deep_view()[k] != s@,
        decreases n - i,
    {
        if str_eq(v[i].as_str(), s) {
            proof {
                assert(v.deep_view()[i as int] == s@);
            }
            return true;
        }
        i = i + 1;
    }
    proof {
        assert(!v.deep_view().contains(s@));
    }
    false
}

/// The contents of the first table entry with the given path.
#[verifier::loop_isolation(false)]
fn lookup_text(files: &Vec<IncludeFile>, path: &str) -> (r: Option<String>)
    ensures
        match r {
            Some(t) => spec_lookup(files_view(files@), path@) == Some(t@),
            None => spec_lookup(files_view(files@), path@) is None,
        },
{
    let n = files.len();
    let ghost fv = files_view(files@);
    proof {
        assert(fv.skip(0) =~= fv);
    }
    let mut i: usize = 0;
    while i < n
        invariant
            i <= n,
            spec_lookup(fv, path@) == spec_lookup(fv.skip(i as int), path@),
        decreases n - i,
    {
        proof {
            assert(fv.skip(i as int)[0] == fv[i as int]);
            assert(fv.skip(i as int).drop_first() =~= fv.skip(i + 1));
        }
        if str_eq(files[i].path.as_str(), path) {
            return Some(files[i].text.clone());
        }
        i = i + 1;
    }
    proof {
        assert(fv.skip(n as int).len() == 0);
    }
    None
}

/// Resolves every node of `nodes` against the file table, with `visited`
/// holding the paths currently being expanded.
#[verifier::loop_isolation(false)]
fn resolve_nodes(files: &Vec<IncludeFile>, nodes: &[Node], visited: &Vec<String>) -> (r: Result<
    Vec<Node>,
    IncludeError,
>)
    requires
        visited@.len() <= files@.len(),
    ensures
        match r {
            Ok(out) => sr_nodes(files_view(files@), nodes_view(nodes@), visited.deep_view())
                == Some(nodes_view(out@)),
            Err(_) => sr_nodes(files_view(files@), nodes_view(nodes@), visited.deep_view())
                is None,
        },
    decreases files@.len() - visited@.len(), size_nodes(nodes_view(nodes@)), 0int,
{
    let ghost fv = files_view(files@);
    let ghost nv = nodes_view(nodes@);
    let ghost vis = visited.deep_view();
    let n = nodes.len();
    let mut out: Vec<Node> = Vec::new();
    let mut i: usize = 0;
    proof {
        assert(nv.skip(0) =~= nv);
        assert(nodes_view(out@) =~= Seq::<SpecNode>::empty());
    }
    while i < n
        invariant
            i <= n,
            match sr_nodes(fv, nv.skip(i as int), vis) {
                Some(rest_out) => sr_nodes(fv, nv, vis) == Some(nodes_view(out@) + rest_out),
                None => sr_nodes(fv, nv, vis) is None,
            },
        decreases n - i,
    {
        let node = vstd::slice::slice_index_get(nodes, i);
        proof {
            assert(nv.skip(i as int)[0] == nv[i as int]);
            assert(nv.skip(i as int).subrange(1, nv.skip(i as int).len() as int) =~= nv.skip(
                i + 1,
            ));
            lemma_size_nodes_member(nv, i as int);
        }
        match node {
            Node::Directive(d) => {
                if str_eq(d.name.as_str(), "include") {
                    proof {
                        assert(nv[i as int] == SpecNode::Directive {
                            name: d.name@,
                            args: d.args.deep_view(),
                        });
                        assert(size_node(nv[i as int]) == 1 + d.args.deep_view().len());
                    }
                    let mut expanded = match resolve_paths(files, &d.args, visited) {
                        Ok(e) => e,
                        Err(e) => {
                            proof {
                                assert(sr_nodes(fv, nv.skip(i as int), vis) is None);
                            }
                            return Err(e);
                        },
                    };
                    let ghost out0 = nodes_view(out@);
                    let ghost exp = nodes_view(expanded@);
                    out.append(&mut expanded);
                    proof {
                        assert(nodes_view(out@) =~~= out0 + exp);
                        match sr_nodes(fv, nv.skip(i + 1), vis) {
                            Some(rest_out) => {
                                assert((out0 + exp) + rest_out =~= out0 + (exp + rest_out));
                            },
                            None => {},
                        }
                    }
                } else {
                    let c = clone_node(node);
                    let ghost out0 = nodes_view(out@);
                    out.push(c);
                    proof {
                        assert(nodes_view(out@) =~~= out0.push(nv[i as int]));
                        assert(out0.push(nv[i as int]) =~= out0 + seq![nv[i as int]]);
                        match sr_nodes(fv, nv.skip(i + 1), vis) {
                            Some(rest_out) => {
                                assert((out0 + seq![nv[i as int]]) + rest_out =~= out0 + (seq![
                                    nv[i as int],
                                ] + rest_out));
                            },
                            None => {},
                        }
                    }
                }
            },
            Node::Block(b) => {
                proof {
                    crate::ast::lemma_nodes_view_rec(b.children@);
                    assert(nv[i as int] == SpecNode::Block {
                        name: b.name@,
                        args: b.args.deep_view(),
                        children: crate::ast::nodes_view_rec(b.children@),
                    });
                    assert(size_node(nv[i as int]) == 1 + size_nodes(nodes_view(b.children@)));
                }
                let children = match resolve_nodes(files, b.children.as_slice(), visited) {
                    Ok(c) => c,
                    Err(e) => {
                        proof {
                            assert(sr_nodes(fv, nv.skip(i as int), vis) is None);
                        }
                        return Err(e);
                    },
                };
                let rebuilt = Node::block(b.name.clone(), clone_string_vec(&b.args), children);
                let ghost out0 = nodes_view(out@);
                out.push(rebuilt);
                proof {
                    assert(nodes_view(out@) =~~= out0.push(rebuilt@));
                    assert(out0.push(rebuilt@) =~= out0 + seq![rebuilt@]);
                    match sr_nodes(fv, nv.skip(i + 1), vis) {
                        Some(rest_out) => {
                            assert((out0 + seq![rebuilt@]) + rest_out =~= out0 + (seq![rebuilt@]
                                + rest_out));
                        },
                        None => {},
                    }
                }
            },
        }
        i = i + 1;
    }
    proof {
        assert(nv.skip(n as int).len() == 0);
        assert(sr_nodes(fv, nv.skip(n as int), vis) == Some(Seq::<SpecNode>::empty()));
        assert(nodes_view(out@) + Seq::<SpecNode>::empty() =~= nodes_view(out@));
    }
    Ok(out)
}

/// Expands the files named by one include directive, in order.
#[verifier::loop_isolation(false)]
fn resolve_paths(files: &Vec<IncludeFile>, paths: &Vec<String>, visited: &Vec<String>) -> (r:
    Result<Vec<Node>, IncludeError>)
    requires
        visited@.len() <= files@.len(),
    ensures
        match r {
            Ok(out) => sr_paths(files_view(files@), paths.deep_view(), visited.deep_view())
                == Some(nodes_view(out@)),
            Err(_) => sr_paths(files_view(files@), paths.deep_view(), visited.deep_view())
                is None,
        },
    decreases files@.len() - visited@.len(), paths@.len(), 1int,
{
    let ghost fv = files_view(files@);
    let ghost pv = paths.deep_view();
    let ghost vis = visited.deep_view();
    let n = paths.len();
    let mut out: Vec<Node> = Vec::new();
    let mut k: usize = 0;
    proof {
        assert(pv.skip(0) =~= pv);
        assert(nodes_view(out@) =~= Seq::<SpecNode>::empty());
    }
    while k < n
        invariant
            k <= n,
            match sr_paths(fv, pv.skip(k as int), vis) {
                Some(rest_out) => sr_paths(fv, pv, vis) == Some(nodes_view(out@) + rest_out),
                None => sr_paths(fv, pv, vis) is None,
            },
        decreases n - k,
    {
        proof {
            assert(pv.skip(k as int)[0] == pv[k as int]);
            assert(pv.skip(k as int).subrange(1, pv.skip(k as int).len() as int) =~= pv.skip(
                k + 1,
            ));
        }
        let p = &paths[k];
        if vec_contains_str(visited, p.as_str()) {
            let mut m = "include cycle at ".to_owned();
            m.append(p.as_str());
            return Err(IncludeError { message: m });
        }
        let text = match lookup_text(files, p.as_str()) {
            Some(t) => t,
            None => {
                let mut m = "cannot load included file ".to_owned();
                m.append(p.as_str());
                return Err(IncludeError { message: m });
            },
        };
        if visited.len() >= files.len() {
            let mut m = "include nesting deeper than the file table: ".to_owned();
            m.append(p.as_str());
            return Err(IncludeError { message: m });
        }
        if text.as_str().unicode_len() >= usize::MAX {
            let mut m = "included file too large: ".to_owned();
            m.append(p.as_str());
            return Err(IncludeError { message: m });
        }
        let sub_ast = match Ast::parse_config(text.as_str()) {
            Ok(a) => a,
            Err(e) => {
                return Err(IncludeError { message: e.message });
            },
        };
        let mut deeper = clone_string_vec(visited);
        deeper.push(p.clone());
        proof {
            assert(deeper.deep_view() =~~= vis.push(pv[k as int]));
        }
        let mut sub = match resolve_nodes(files, sub_ast.items.as_slice(), &deeper) {
            Ok(s) => s,
            Err(e) => {
                return Err(e);
            },
        };
        let ghost out0 = nodes_view(out@);
        let ghost subv = nodes_view(sub@);
        out.append(&mut sub);
        proof {
            assert(nodes_view(out@) =~~= out0 + subv);
            match sr_paths(fv, pv.skip(k + 1), vis) {
                Some(rest_out) => {
                    assert((out0 + subv) + rest_out =~= out0 + (subv + rest_out));
                },
                None => {},
            }
        }
        k = k + 1;
    }
    proof {
        assert(pv.skip(n as int).len() == 0);
        assert(nodes_view(out@) + Seq::<SpecNode>::empty() =~= nodes_view(out@));
    }
    Ok(out)
}

impl IncludeResolver {
    /// Collects the include paths of `ast` into a fresh table with empty
    /// contents, to be filled in by the caller before `resolve`.
    pub fn new(ast: &Ast) -> (r: Self)
        ensures
            files_view(r.includes_files@) == blank_files(spec_collect_nodes(ast@)),
    {
        let mut includes_files: Vec<IncludeFile> = Vec::new();
        proof {
            assert(files_view(includes_files@) =~= Seq::<SpecIncludeFile>::empty());
        }
        collect_includes(ast.items.as_slice(), &mut includes_files);
        proof {
            assert(files_view(includes_files@) =~~= blank_files(spec_collect_nodes(ast@)));
        }
        IncludeResolver { includes_files }
    }

    /// Resolves every include directive of `ast` against this resolver's
    /// file table.
    pub fn resolve(&self, ast: &Ast) -> (r: Result<Ast, IncludeError>)
        ensures
            match r {
                Ok(out) => sr_nodes(files_view(self.includes_files@), ast@, Seq::<Seq<
                    char,
                >>::empty()) == Some(out@),
                Err(_) => sr_nodes(files_view(self.includes_files@), ast@, Seq::<Seq<
                    char,
                >>::empty()) is None,
            },
    {
        let visited: Vec<String> = Vec::new();
        proof {
            assert(visited.deep_view() =~= Seq::<Seq<char>>::empty());
        }
        match resolve_nodes(&self.includes_files, ast.items.as_slice(), &visited) {
            Ok(items) => Ok(Ast { items }),
            Err(e) => Err(e),
        }
    }
}

} // verus!
