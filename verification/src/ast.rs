//! The node / attribute / literal data model produced by the parser and
//! consumed by transformers.
//!
//! Each executable type has a mathematical counterpart (`TagV`, `NodeV`,
//! `AttrV`, `LitV`) over `Seq` values; contracts throughout the crate speak
//! of those via `deep_view`.  Text is owned: byte vectors copied out of the
//! source buffer.

use vstd::prelude::*;

use crate::bytes::{append_bytes, copy_range};

verus! {

/// Mathematical value of a [`Tag`].
pub struct TagV {
    pub name: Seq<u8>,
    pub attributes: Seq<AttrV>,
    pub children: Seq<NodeV>,
}

/// Mathematical value of a [`Node`].
pub enum NodeV {
    Tag(TagV),
    Str(Seq<u8>),
}

/// Mathematical value of an [`Attribute`].
pub struct AttrV {
    pub name: Seq<u8>,
    pub value: LitV,
}

/// Mathematical value of a [`Literal`].
pub enum LitV {
    Number(u32),
    Str(Seq<u8>),
    List(Seq<LitV>),
    Range { start: u32, end: Option<u32> },
}

/// A named element with an insertion-ordered attribute list and an
/// insertion-ordered sequence of child nodes.
#[derive(Debug, PartialEq, Eq)]
pub struct Tag {
    pub name: Vec<u8>,
    pub attributes: Vec<Attribute>,
    pub children: Vec<Node>,
}

/// One element of the parsed forest: literal text content or a tag.
#[derive(Debug, PartialEq, Eq)]
pub enum Node {
    Tag(Tag),
    String(Vec<u8>),
}

/// A `name: literal` pair attached to a tag.
#[derive(Debug, PartialEq, Eq)]
pub struct Attribute {
    pub name: Vec<u8>,
    pub value: Literal,
}

/// A typed attribute value: number, string, list, or numeric range.
/// A `Range` with `end == None` is open-ended.
#[derive(Debug, PartialEq, Eq)]
pub enum Literal {
    Number(u32),
    String(Vec<u8>),
    List(Vec<Literal>),
    Range { start: u32, end: Option<u32> },
}

/// Mathematical value of one literal.
pub open spec fn lit_view(l: Literal) -> LitV
    decreases l,
{
    match l {
        Literal::Number(n) => LitV::Number(n),
        Literal::String(s) => LitV::Str(s@),
        Literal::List(items) => LitV::List(lits_view(items@)),
        Literal::Range { start, end } => LitV::Range { start, end },
    }
}

/// Pointwise [`lit_view`] of a sequence of literals.
pub open spec fn lits_view(items: Seq<Literal>) -> Seq<LitV>
    decreases items,
{
    if items.len() == 0 {
        Seq::empty()
    } else {
        lits_view(items.subrange(0, items.len() - 1)).push(lit_view(items[items.len() - 1]))
    }
}

/// Mathematical value of one attribute.
pub open spec fn attr_view(a: Attribute) -> AttrV {
    AttrV { name: a.name@, value: lit_view(a.value) }
}

/// Pointwise [`attr_view`] of a sequence of attributes.
pub open spec fn attrs_view(attrs: Seq<Attribute>) -> Seq<AttrV>
    decreases attrs,
{
    if attrs.len() == 0 {
        Seq::empty()
    } else {
        attrs_view(attrs.subrange(0, attrs.len() - 1)).push(attr_view(attrs[attrs.len() - 1]))
    }
}

/// Mathematical value of one node.
pub open spec fn node_view(n: Node) -> NodeV
    decreases n,
{
    match n {
        Node::Tag(t) => NodeV::Tag(tag_view(t)),
        Node::String(s) => NodeV::Str(s@),
    }
}

/// Mathematical value of one tag.
pub open spec fn tag_view(t: Tag) -> TagV
    decreases t,
{
    TagV {
        name: t.name@,
        attributes: attrs_view(t.attributes@),
        children: nodes_view(t.children@),
    }
}

/// Pointwise [`node_view`] of a sequence of nodes.
pub open spec fn nodes_view(nodes: Seq<Node>) -> Seq<NodeV>
    decreases nodes,
{
    if nodes.len() == 0 {
        Seq::empty()
    } else {
        nodes_view(nodes.subrange(0, nodes.len() - 1)).push(node_view(nodes[nodes.len() - 1]))
    }
}

impl DeepView for Literal {
    type V = LitV;

    open spec fn deep_view(&self) -> LitV {
        lit_view(*self)
    }
}

impl DeepView for Attribute {
    type V = AttrV;

    open spec fn deep_view(&self) -> AttrV {
        attr_view(*self)
    }
}

impl DeepView for Node {
    type V = NodeV;

    open spec fn deep_view(&self) -> NodeV {
        node_view(*self)
    }
}

impl DeepView for Tag {
    type V = TagV;

    open spec fn deep_view(&self) -> TagV {
        tag_view(*self)
    }
}

proof fn lemma_lits_view_pointwise(items: Seq<Literal>)
    ensures
        lits_view(items).len() == items.len(),
        forall|i: int| 0 <= i < items.len() ==> lits_view(items)[i] == lit_view(items[i]),
    decreases items.len(),
{
    if items.len() > 0 {
        let pre = items.subrange(0, items.len() - 1);
        lemma_lits_view_pointwise(pre);
        assert forall|i: int| 0 <= i < items.len() implies lits_view(items)[i] == lit_view(
            items[i],
        ) by {
            if i < items.len() - 1 {
                assert(pre[i] == items[i]);
            }
        }
    }
}

proof fn lemma_attrs_view_pointwise(attrs: Seq<Attribute>)
    ensures
        attrs_view(attrs).len() == attrs.len(),
        forall|i: int| 0 <= i < attrs.len() ==> attrs_view(attrs)[i] == attr_view(attrs[i]),
    decreases attrs.len(),
{
    if attrs.len() > 0 {
        let pre = attrs.subrange(0, attrs.len() - 1);
        lemma_attrs_view_pointwise(pre);
        assert forall|i: int| 0 <= i < attrs.len() implies attrs_view(attrs)[i] == attr_view(
            attrs[i],
        ) by {
            if i < attrs.len() - 1 {
                assert(pre[i] == attrs[i]);
            }
        }
    }
}

proof fn lemma_nodes_view_pointwise(nodes: Seq<Node>)
    ensures
        nodes_view(nodes).len() == nodes.len(),
        forall|i: int| 0 <= i < nodes.len() ==> nodes_view(nodes)[i] == node_view(nodes[i]),
    decreases nodes.len(),
{
    if nodes.len() > 0 {
        let pre = nodes.subrange(0, nodes.len() - 1);
        lemma_nodes_view_pointwise(pre);
        assert forall|i: int| 0 <= i < nodes.len() implies nodes_view(nodes)[i] == node_view(
            nodes[i],
        ) by {
            if i < nodes.len() - 1 {
                assert(pre[i] == nodes[i]);
            }
        }
    }
}

/// Decimal digits of `n`, most significant first.
pub open spec fn dec_rep(n: nat) -> Seq<u8>
    decreases n,
{
    if n < 10 {
        seq![(48 + n) as u8]
    } else {
        dec_rep((n / 10) as nat).push((48 + n % 10) as u8)
    }
}

/// The diagnostic text of a literal value: a number as its decimal
/// digits, a string as itself, a range as `start..end` (or `start..`
/// when open-ended), a list as a bracketed comma-joined sequence of its
/// elements' texts.
pub open spec fn lit_text(l: LitV) -> Seq<u8>
    decreases l,
{
    match l {
        LitV::Number(n) => dec_rep(n as nat),
        LitV::Str(s) => s,
        LitV::Range { start, end } => dec_rep(start as nat) + seq![46u8, 46u8] + (match end {
            Some(e) => dec_rep(e as nat),
            None => Seq::<u8>::empty(),
        }),
        LitV::List(items) => seq![91u8] + lit_items_text(items) + seq![93u8],
    }
}

/// The comma-joined texts of a sequence of literal values.
pub open spec fn lit_items_text(items: Seq<LitV>) -> Seq<u8>
    decreases items,
{
    if items.len() == 0 {
        Seq::empty()
    } else if items.len() == 1 {
        lit_text(items[0])
    } else {
        lit_items_text(items.subrange(0, items.len() - 1)) + seq![44u8] + lit_text(
            items[items.len() - 1],
        )
    }
}

/// Appends the decimal digits of `n`.
fn push_dec(out: &mut Vec<u8>, n: u32)
    ensures
        final(out)@ == old(out)@ + dec_rep(n as nat),
    decreases n,
{
    if n >= 10 {
        proof {
            assert(n / 10 < n) by (nonlinear_arith)
                requires
                    n >= 10,
            ;
        }
        push_dec(out, n / 10);
        out.push(48 + (n % 10) as u8);
        proof {
            assert(old(out)@ + dec_rep(n as nat) =~= (old(out)@ + dec_rep((n / 10) as nat)).push(
                (48 + n % 10) as u8,
            ));
        }
    } else {
        out.push(48 + n as u8);
        proof {
            assert(old(out)@ + dec_rep(n as nat) =~= old(out)@.push((48 + n) as u8));
        }
    }
}

impl Literal {
    /// The diagnostic text of this literal: exactly [`lit_text`] of its
    /// view.  An empty list renders as `[]`.
    #[verifier::loop_isolation(false)]
    pub fn render(&self) -> (r: Vec<u8>)
        ensures
            r@ == lit_text(self.deep_view()),
        decreases *self,
    {
        match self {
            Literal::Number(n) => {
                let mut out: Vec<u8> = Vec::new();
                push_dec(&mut out, *n);
                proof {
                    assert(Seq::<u8>::empty() + dec_rep(*n as nat) =~= dec_rep(*n as nat));
                }
                out
            },
            Literal::String(s) => {
                let r = copy_range(s, 0, s.len());
                proof {
                    assert(r@ =~= s@);
                }
                r
            },
            Literal::Range { start, end } => {
                let mut out: Vec<u8> = Vec::new();
                push_dec(&mut out, *start);
                out.push(46);
                out.push(46);
                match end {
                    Some(e) => {
                        push_dec(&mut out, *e);
                    },
                    None => {},
                }
                proof {
                    assert(out@ =~= lit_text(self.deep_view()));
                }
                out
            },
            Literal::List(items) => {
                let mut out: Vec<u8> = Vec::new();
                out.push(91);
                let ghost iv = lits_view(items@);
                proof {
                    lemma_lits_view_pointwise(items@);
                    assert(out@ =~= seq![91u8] + lit_items_text(iv.subrange(0, 0)));
                }
                let mut i: usize = 0;
                while i < items.len()
                    invariant
                        i <= items@.len(),
                        out@ == seq![91u8] + lit_items_text(iv.subrange(0, i as int)),
                    decreases items@.len() - i,
                {
                    if i > 0 {
                        out.push(44);
                    }
                    proof {
                        assert(decreases_to!(items => items@));
                        assert(decreases_to!(items@ => items@[i as int]));
                    }
                    let piece = items[i].render();
                    append_bytes(&mut out, &piece);
                    i = i + 1;
                    proof {
                        let cur = iv.subrange(0, i as int);
                        assert(cur.subrange(0, cur.len() - 1) =~= iv.subrange(0, i - 1));
                        assert(cur[cur.len() - 1] == iv[i - 1]);
                        if i == 1 {
                            assert(out@ =~= seq![91u8] + lit_items_text(cur));
                        } else {
                            assert(out@ =~= seq![91u8] + lit_items_text(cur));
                        }
                    }
                }
                out.push(93);
                proof {
                    assert(iv.subrange(0, iv.len() as int) =~= iv);
                    assert(out@ =~= lit_text(self.deep_view()));
                }
                out
            },
        }
    }
}

/// The view of a list literal is the pointwise view of its item vector.
pub proof fn lemma_literal_list_deep_view(l: Literal)
    ensures
        l matches Literal::List(items) ==> l.deep_view() == LitV::List(items.deep_view()),
{
    match l {
        Literal::List(items) => {
            lemma_lits_view_pointwise(items@);
            assert(lits_view(items@) =~= items.deep_view());
        },
        _ => {},
    }
}

/// The view of a tag node is built from the pointwise views of its
/// attribute and child vectors.
pub proof fn lemma_node_tag_deep_view(n: Node)
    ensures
        n matches Node::Tag(t) ==> n.deep_view() == NodeV::Tag(
            TagV {
                name: t.name@,
                attributes: t.attributes.deep_view(),
                children: t.children.deep_view(),
            },
        ),
{
    match n {
        Node::Tag(t) => {
            lemma_attrs_view_pointwise(t.attributes@);
            lemma_nodes_view_pointwise(t.children@);
            assert(attrs_view(t.attributes@) =~= t.attributes.deep_view());
            assert(nodes_view(t.children@) =~= t.children.deep_view());
        },
        _ => {},
    }
}

} // verus!
