//! The transformer capability: mapping a parsed forest to a rendered
//! artifact.  One implementation renders HTML.
//!
//! Every tag renders as a generic element `<name>…children…</name>`, in
//! order; attributes are not emitted by this minimal renderer.  String
//! content is HTML-escaped (`&`, `<` and `>` become their character
//! entities); tag names need no escaping, since parsed names are
//! identifiers and hold no markup bytes.  The one specialized rule: a tag
//! named `code-block` renders its transformed children dedented inside
//! `<pre><code>…</code></pre>`.  The whole transform is specified by
//! [`transform_texts`].

use vstd::prelude::*;

use crate::ast::{Node, NodeV};
use crate::bytes::append_bytes;

verus! {

/// What `textwrap::dedent` returns on these bytes: the text with the
/// longest common leading whitespace removed from each line (the input
/// unchanged where it is not UTF-8).  The result depends on the bytes
/// alone.
pub uninterp spec fn dedent_of(s: Seq<u8>) -> Seq<u8>;

/// Relies on textwrap::dedent: removes the longest common leading
/// whitespace of the lines; deterministic in the input bytes; an empty
/// input stays empty.
#[verifier::external_body]
fn dedent_bytes(b: &Vec<u8>) -> (r: Vec<u8>)
    ensures
        r@ == dedent_of(b@),
        b@.len() == 0 ==> r@.len() == 0,
{
    match std::str::from_utf8(b) {
        Ok(s) => textwrap::dedent(s).into_bytes(),
        Err(_) => b.clone(),
    }
}

/// The character entity of one byte of text content: `&amp;`, `&lt;` or
/// `&gt;` for `&`, `<` and `>`, the byte itself otherwise.
pub open spec fn escape_byte(b: u8) -> Seq<u8> {
    if b == 38 {
        seq![38u8, 97u8, 109u8, 112u8, 59u8]
    } else if b == 60 {
        seq![38u8, 108u8, 116u8, 59u8]
    } else if b == 62 {
        seq![38u8, 103u8, 116u8, 59u8]
    } else {
        seq![b]
    }
}

/// The text with every byte replaced by its [`escape_byte`] entity.
pub open spec fn escape_html(s: Seq<u8>) -> Seq<u8>
    decreases s,
{
    if s.len() == 0 {
        Seq::empty()
    } else {
        escape_html(s.subrange(0, s.len() - 1)) + escape_byte(s[s.len() - 1])
    }
}

/// The bytes of the name that triggers the code-block rule.
pub open spec fn code_block_name() -> Seq<u8> {
    seq![99u8, 111u8, 100u8, 101u8, 45u8, 98u8, 108u8, 111u8, 99u8, 107u8]
}

/// The bytes of `<pre><code>`.
pub open spec fn pre_code_open() -> Seq<u8> {
    seq![60u8, 112u8, 114u8, 101u8, 62u8, 60u8, 99u8, 111u8, 100u8, 101u8, 62u8]
}

/// The bytes of `</code></pre>`.
pub open spec fn pre_code_close() -> Seq<u8> {
    seq![60u8, 47u8, 99u8, 111u8, 100u8, 101u8, 62u8, 60u8, 47u8, 112u8, 114u8, 101u8, 62u8]
}

/// The rendered text of one node: string content HTML-escaped; a
/// `code-block` tag as its dedented children inside
/// `<pre><code>…</code></pre>`; any other tag as a generic element around
/// its children.
pub open spec fn transform_text(n: NodeV) -> Seq<u8>
    decreases n,
{
    match n {
        NodeV::Str(s) => escape_html(s),
        NodeV::Tag(t) => if t.name == code_block_name() {
            pre_code_open() + dedent_of(transform_texts(t.children)) + pre_code_close()
        } else {
            seq![60u8] + t.name + seq![62u8] + transform_texts(t.children) + seq![60u8, 47u8]
                + t.name + seq![62u8]
        },
    }
}

/// The concatenated rendered text of a sequence of nodes, in order.
pub open spec fn transform_texts(nodes: Seq<NodeV>) -> Seq<u8>
    decreases nodes,
{
    if nodes.len() == 0 {
        Seq::empty()
    } else {
        transform_texts(nodes.subrange(0, nodes.len() - 1)) + transform_text(
            nodes[nodes.len() - 1],
        )
    }
}

/// The HTML-escaped copy of `s`.
fn escape_bytes(s: &Vec<u8>) -> (r: Vec<u8>)
    ensures
        r@ == escape_html(s@),
{
    let mut out: Vec<u8> = Vec::new();
    let mut i: usize = 0;
    proof {
        assert(out@ =~= escape_html(s@.subrange(0, 0)));
    }
    while i < s.len()
        invariant
            i <= s@.len(),
            out@ == escape_html(s@.subrange(0, i as int)),
        decreases s@.len() - i,
    {
        let ghost pre = s@.subrange(0, i as int);
        let b = s[i];
        if b == 38 {
            out.push(38);
            out.push(97);
            out.push(109);
            out.push(112);
            out.push(59);
        } else if b == 60 {
            out.push(38);
            out.push(108);
            out.push(116);
            out.push(59);
        } else if b == 62 {
            out.push(38);
            out.push(103);
            out.push(116);
            out.push(59);
        } else {
            out.push(b);
        }
        i = i + 1;
        proof {
            let cur = s@.subrange(0, i as int);
            assert(cur.subrange(0, cur.len() - 1) =~= pre);
            assert(cur[cur.len() - 1] == s@[i - 1]);
            assert(out@ =~= escape_html(pre) + escape_byte(s@[i - 1]));
        }
    }
    proof {
        assert(s@.subrange(0, s@.len() as int) =~= s@);
    }
    out
}

fn is_code_block(name: &Vec<u8>) -> (r: bool)
    ensures
        r == (name@ == code_block_name()),
{
    if name.len() != 10 {
        return false;
    }
    let r = name[0] == 99 && name[1] == 111 && name[2] == 100 && name[3] == 101 && name[4] == 45
        && name[5] == 98 && name[6] == 108 && name[7] == 111 && name[8] == 99 && name[9] == 107;
    proof {
        if r {
            assert(name@ =~= code_block_name());
        }
    }
    r
}

/// The rendered bytes of one node: exactly [`transform_text`] of its view.
#[verifier::loop_isolation(false)]
fn transform_node(node: &Node) -> (r: Vec<u8>)
    ensures
        r@ == transform_text(node.deep_view()),
    decreases *node,
{
    match node {
        Node::String(s) => escape_bytes(s),
        Node::Tag(t) => {
            proof {
                assert(decreases_to!(t.children => t.children@));
            }
            if is_code_block(&t.name) {
                let inner = transform_nodes(&t.children);
                let dedented = dedent_bytes(&inner);
                let mut out: Vec<u8> = Vec::new();
                out.push(60);
                out.push(112);
                out.push(114);
                out.push(101);
                out.push(62);
                out.push(60);
                out.push(99);
                out.push(111);
                out.push(100);
                out.push(101);
                out.push(62);
                proof {
                    assert(out@ =~= pre_code_open());
                }
                append_bytes(&mut out, &dedented);
                out.push(60);
                out.push(47);
                out.push(99);
                out.push(111);
                out.push(100);
                out.push(101);
                out.push(62);
                out.push(60);
                out.push(47);
                out.push(112);
                out.push(114);
                out.push(101);
                out.push(62);
                proof {
                    assert(out@ =~= pre_code_open() + dedent_of(transform_texts(
                        t.children.deep_view(),
                    )) + pre_code_close());
                    assert(node.deep_view() matches NodeV::Tag(tv) && tv.children
                        == t.children.deep_view()) by {
                        crate::ast::lemma_node_tag_deep_view(*node);
                    }
                }
                out
            } else {
                let mut out: Vec<u8> = Vec::new();
                out.push(60);
                append_bytes(&mut out, &t.name);
                out.push(62);
                let inner = transform_nodes(&t.children);
                append_bytes(&mut out, &inner);
                out.push(60);
                out.push(47);
                append_bytes(&mut out, &t.name);
                out.push(62);
                proof {
                    crate::ast::lemma_node_tag_deep_view(*node);
                    assert(out@ =~= seq![60u8] + t.name@ + seq![62u8] + transform_texts(
                        t.children.deep_view(),
                    ) + seq![60u8, 47u8] + t.name@ + seq![62u8]);
                }
                out
            }
        },
    }
}

/// The rendered bytes of a forest: each node in order, concatenated.
/// Exactly [`transform_texts`] of the nodes' views.
#[verifier::loop_isolation(false)]
pub fn transform_nodes(ast: &Vec<Node>) -> (r: Vec<u8>)
    ensures
        r@ == transform_texts(ast.deep_view()),
    decreases *ast,
{
    let mut out: Vec<u8> = Vec::new();
    let mut i: usize = 0;
    proof {
        assert(out@ =~= transform_texts(ast.deep_view().subrange(0, 0)));
    }
    while i < ast.len()
        invariant
            i <= ast@.len(),
            out@ == transform_texts(ast.deep_view().subrange(0, i as int)),
        decreases ast@.len() - i,
    {
        let ghost pre = ast.deep_view().subrange(0, i as int);
        proof {
            assert(decreases_to!(*ast => ast@));
            assert(decreases_to!(ast@ => ast@[i as int]));
        }
        let piece = transform_node(&ast[i]);
        append_bytes(&mut out, &piece);
        i = i + 1;
        proof {
            let cur = ast.deep_view().subrange(0, i as int);
            assert(cur.subrange(0, cur.len() - 1) =~= pre);
            assert(cur[cur.len() - 1] == ast.deep_view()[i - 1]);
        }
    }
    proof {
        assert(ast.deep_view().subrange(0, ast.deep_view().len() as int) =~= ast.deep_view());
    }
    out
}

/// A capability consuming a parsed forest and producing a rendered
/// artifact.
pub trait Transformer {
    type Item;

    fn transform(&mut self, ast: &Vec<Node>) -> Self::Item;
}

/// The HTML renderer.
#[derive(Debug, Clone, Copy)]
pub struct HtmlTransformer;

impl Transformer for HtmlTransformer {
    type Item = Vec<u8>;

    fn transform(&mut self, ast: &Vec<Node>) -> (r: Self::Item)
        ensures
            r@ == transform_texts(ast.deep_view()),
    {
        transform_nodes(ast)
    }
}

} // verus!
