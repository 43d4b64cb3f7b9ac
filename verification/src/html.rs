//! A small HTML node model used for rendered output: text or an element
//! with attributes and children.
//!
//! Attributes are held as an insertion-ordered vector of `name = value`
//! byte-string pairs with unique names, rendered as `name="value"` and
//! joined by single spaces; [`HtmlNodeTag::add_attribute`] replaces the
//! value of an existing name and appends a new one otherwise.
//! [`HtmlNode::render`] produces the UTF-8 bytes of the markup, exactly
//! [`html_node_text`].

use vstd::prelude::*;

use crate::bytes::{append_bytes, bytes_eq, copy_range};

verus! {

/// Rendered-output node: text or an element.
#[derive(Debug, PartialEq, Eq)]
pub enum HtmlNode {
    String(Vec<u8>),
    Tag(HtmlNodeTag),
}

/// An element: name, `name = value` attribute pairs, children.
#[derive(Debug, PartialEq, Eq)]
pub struct HtmlNodeTag {
    pub name: Vec<u8>,
    pub attributes: Vec<(Vec<u8>, Vec<u8>)>,
    pub children: Vec<HtmlNode>,
}

/// No attribute name occurs twice.
pub open spec fn attrs_unique(attrs: Seq<(Vec<u8>, Vec<u8>)>) -> bool {
    forall|i: int, j: int| 0 <= i < j < attrs.len() ==> attrs[i].0@ != attrs[j].0@
}

/// Some attribute carries this name.
pub open spec fn has_attr(attrs: Seq<(Vec<u8>, Vec<u8>)>, name: Seq<u8>) -> bool {
    exists|i: int| 0 <= i < attrs.len() && attrs[i].0@ == name
}

/// The text of one attribute pair: `name="value"`.
pub open spec fn attr_pair_text(p: (Vec<u8>, Vec<u8>)) -> Seq<u8> {
    p.0@ + seq![61u8, 34u8] + p.1@ + seq![34u8]
}

/// The text of an attribute list: the `name="value"` pairs in order,
/// joined by single spaces.
pub open spec fn attrs_text(attrs: Seq<(Vec<u8>, Vec<u8>)>) -> Seq<u8>
    decreases attrs,
{
    if attrs.len() == 0 {
        Seq::empty()
    } else if attrs.len() == 1 {
        attr_pair_text(attrs[0])
    } else {
        attrs_text(attrs.subrange(0, attrs.len() - 1)) + seq![32u8] + attr_pair_text(
            attrs[attrs.len() - 1],
        )
    }
}

/// The markup text of one node: text verbatim, or
/// `<name attributes>children</name>` with the attribute clause present
/// only when the list is non-empty.
pub open spec fn html_node_text(n: HtmlNode) -> Seq<u8>
    decreases n,
{
    match n {
        HtmlNode::String(s) => s@,
        HtmlNode::Tag(t) => seq![60u8] + t.name@ + (if t.attributes@.len() == 0 {
            Seq::<u8>::empty()
        } else {
            seq![32u8] + attrs_text(t.attributes@)
        }) + seq![62u8] + html_nodes_text(t.children@) + seq![60u8, 47u8] + t.name@ + seq![62u8],
    }
}

/// The concatenated markup text of a sequence of nodes.
pub open spec fn html_nodes_text(nodes: Seq<HtmlNode>) -> Seq<u8>
    decreases nodes,
{
    if nodes.len() == 0 {
        Seq::empty()
    } else {
        html_nodes_text(nodes.subrange(0, nodes.len() - 1)) + html_node_text(
            nodes[nodes.len() - 1],
        )
    }
}

impl HtmlNodeTag {
    /// Sets an attribute: replaces the value of an existing name, appends
    /// a `name = value` pair otherwise.  Returns the tag again so calls
    /// can be chained.
    pub fn add_attribute(&mut self, name: Vec<u8>, value: Vec<u8>) -> (ret: &mut Self)
        requires
            attrs_unique(old(self).attributes@),
        ensures
            *final(self) == *final(ret),
            ret.name == old(self).name,
            ret.children == old(self).children,
            attrs_unique(ret.attributes@),
            has_attr(ret.attributes@, name@),
            if has_attr(old(self).attributes@, name@) {
                &&& ret.attributes@.len() == old(self).attributes@.len()
                &&& exists|i: int|
                    {
                        &&& 0 <= i < ret.attributes@.len()
                        &&& old(self).attributes@[i].0@ == name@
                        &&& ret.attributes@[i].0@ == name@
                        &&& ret.attributes@[i].1@ == value@
                        &&& forall|j: int|
                            0 <= j < ret.attributes@.len() && j != i ==> ret.attributes@[j] == old(
                                self,
                            ).attributes@[j]
                    }
            } else {
                &&& ret.attributes@.len() == old(self).attributes@.len() + 1
                &&& ret.attributes@[ret.attributes@.len() - 1].0@ == name@
                &&& ret.attributes@[ret.attributes@.len() - 1].1@ == value@
                &&& forall|j: int|
                    0 <= j < old(self).attributes@.len() ==> ret.attributes@[j] == old(
                        self,
                    ).attributes@[j]
            },
    {
        let n = self.attributes.len();
        let mut i: usize = 0;
        while i < n
            invariant
                n == self.attributes@.len(),
                i <= n,
                attrs_unique(self.attributes@),
                *self == *old(self),
                forall|j: int| 0 <= j < i ==> self.attributes@[j].0@ != name@,
            decreases n - i,
        {
            if bytes_eq(&self.attributes[i].0, &name) {
                self.attributes.set(i, (name, value));
                proof {
                    assert(has_attr(self.attributes@, name@)) by {
                        assert(self.attributes@[i as int].0@ == name@);
                    }
                }
                return self;
            }
            i = i + 1;
        }
        self.attributes.push((name, value));
        proof {
            assert(has_attr(self.attributes@, name@)) by {
                assert(self.attributes@[self.attributes@.len() - 1].0@ == name@);
            }
        }
        self
    }

    /// Appends a child node.  Returns the tag again so calls can be
    /// chained.
    pub fn add_children(&mut self, child: HtmlNode) -> (ret: &mut Self)
        ensures
            *final(self) == *final(ret),
            ret.name == old(self).name,
            ret.attributes == old(self).attributes,
            ret.children@ == old(self).children@.push(child),
    {
        self.children.push(child);
        self
    }
}

impl HtmlNode {
    /// The markup bytes of this node: exactly [`html_node_text`].
    #[verifier::loop_isolation(false)]
    #[verifier::rlimit(30)]
    pub fn render(&self) -> (r: Vec<u8>)
        ensures
            r@ == html_node_text(*self),
        decreases *self,
    {
        match self {
            HtmlNode::String(s) => {
                let r = copy_range(s, 0, s.len());
                proof {
                    assert(r@ =~= s@);
                }
                r
            },
            HtmlNode::Tag(t) => {
                let mut out: Vec<u8> = Vec::new();
                out.push(60);
                append_bytes(&mut out, &t.name);
                if t.attributes.len() > 0 {
                    out.push(32);
                    let ghost base = out@;
                    let mut i: usize = 0;
                    while i < t.attributes.len()
                        invariant
                            i <= t.attributes@.len(),
                            out@ == base + attrs_text(t.attributes@.subrange(0, i as int)),
                        decreases t.attributes@.len() - i,
                    {
                        let ghost pre = t.attributes@.subrange(0, i as int);
                        if i > 0 {
                            out.push(32);
                        }
                        append_bytes(&mut out, &t.attributes[i].0);
                        out.push(61);
                        out.push(34);
                        append_bytes(&mut out, &t.attributes[i].1);
                        out.push(34);
                        i = i + 1;
                        proof {
                            let cur = t.attributes@.subrange(0, i as int);
                            assert(cur.subrange(0, cur.len() - 1) =~= pre);
                            assert(cur[cur.len() - 1] == t.attributes@[i - 1]);
                            if i == 1 {
                                assert(base + attrs_text(cur) =~= base + attr_pair_text(
                                    t.attributes@[0],
                                ));
                            } else {
                                assert(base + attrs_text(cur) =~= base + attrs_text(pre) + seq![
                                    32u8,
                                ] + attr_pair_text(t.attributes@[i - 1]));
                            }
                        }
                    }
                    proof {
                        assert(t.attributes@.subrange(0, t.attributes@.len() as int)
                            =~= t.attributes@);
                    }
                } else {
                    proof {
                        assert(out@ =~= seq![60u8] + t.name@ + Seq::<u8>::empty());
                    }
                }
                out.push(62);
                let ghost mid = out@;
                let mut i: usize = 0;
                while i < t.children.len()
                    invariant
                        i <= t.children@.len(),
                        out@ == mid + html_nodes_text(t.children@.subrange(0, i as int)),
                    decreases t.children@.len() - i,
                {
                    let ghost pre = t.children@.subrange(0, i as int);
                    proof {
                        assert(decreases_to!(t.children => t.children@));
                        assert(decreases_to!(t.children@ => t.children@[i as int]));
                    }
                    let piece = t.children[i].render();
                    append_bytes(&mut out, &piece);
                    i = i + 1;
                    proof {
                        let cur = t.children@.subrange(0, i as int);
                        assert(cur.subrange(0, cur.len() - 1) =~= pre);
                        assert(mid + html_nodes_text(cur) =~= mid + html_nodes_text(pre)
                            + html_node_text(t.children@[i - 1]));
                    }
                }
                proof {
                    assert(t.children@.subrange(0, t.children@.len() as int) =~= t.children@);
                }
                out.push(60);
                out.push(47);
                append_bytes(&mut out, &t.name);
                out.push(62);
                proof {
                    assert(out@ =~= html_node_text(*self));
                }
                out
            },
        }
    }
}

} // verus!
