//! The document tree the checker works on, and the traversals that read it.
//!
//! The tree is handed in by the caller, already parsed: each node carries a
//! kind, a byte offset into the source text, and its ordered children.

use vstd::prelude::*;

verus! {

/// What a node is: the kinds this checker reads, and a catch-all.
pub enum NodeKind {
    Heading { level: u32 },
    Text { content: String },
    Link { url: String },
    Other,
}

/// One node of the parsed document tree.
pub struct MdNode {
    pub kind: NodeKind,
    /// Byte offset of the node's start in the source text.
    pub offset: usize,
    pub children: Vec<MdNode>,
}

/// A heading as the tree shows it: level and flattened text.
pub ghost struct RawHeading {
    pub level: u32,
    pub text: Seq<char>,
}

/// A link as the tree shows it: target and byte offset.
pub ghost struct RawLink {
    pub url: Seq<char>,
    pub offset: usize,
}

/// Well-formed tree: heading levels lie in 1..=6 and every offset is inside
/// the source text of length `src_len`.
pub open spec fn node_wf(n: MdNode, src_len: nat) -> bool
    decreases n,
{
    &&& match n.kind {
        NodeKind::Heading { level } => 1 <= level <= 6,
        _ => true,
    }
    &&& n.offset <= src_len
    &&& nodes_wf(n.children@, src_len)
}

pub open spec fn nodes_wf(s: Seq<MdNode>, src_len: nat) -> bool
    decreases s,
{
    s.len() != 0 ==> node_wf(s[0], src_len) && nodes_wf(s.drop_first(), src_len)
}

/// The flattened inline text of a node: a text leaf gives its content, any
/// other node the concatenation of its descendants' text in document order.
pub open spec fn flat_text(n: MdNode) -> Seq<char>
    decreases n,
{
    match n.kind {
        NodeKind::Text { content } => content@,
        _ => flat_text_seq(n.children@),
    }
}

pub open spec fn flat_text_seq(s: Seq<MdNode>) -> Seq<char>
    decreases s,
{
    if s.len() == 0 {
        Seq::empty()
    } else {
        flat_text(s[0]) + flat_text_seq(s.drop_first())
    }
}

/// All headings of the subtree at `n`, in document (pre-)order.
pub open spec fn headings_of(n: MdNode) -> Seq<RawHeading>
    decreases n,
{
    match n.kind {
        NodeKind::Heading { level } => seq![
            RawHeading { level, text: flat_text(n) },
        ] + headings_of_seq(n.children@),
        _ => headings_of_seq(n.children@),
    }
}

pub open spec fn headings_of_seq(s: Seq<MdNode>) -> Seq<RawHeading>
    decreases s,
{
    if s.len() == 0 {
        Seq::empty()
    } else {
        headings_of(s[0]) + headings_of_seq(s.drop_first())
    }
}

/// All links of the subtree at `n`, in document (pre-)order.
pub open spec fn links_of(n: MdNode) -> Seq<RawLink>
    decreases n,
{
    match n.kind {
        NodeKind::Link { url } => seq![
            RawLink { url: url@, offset: n.offset },
        ] + links_of_seq(n.children@),
        _ => links_of_seq(n.children@),
    }
}

pub open spec fn links_of_seq(s: Seq<MdNode>) -> Seq<RawLink>
    decreases s,
{
    if s.len() == 0 {
        Seq::empty()
    } else {
        links_of(s[0]) + links_of_seq(s.drop_first())
    }
}

pub proof fn lemma_flat_text_seq_push(s: Seq<MdNode>, x: MdNode)
    ensures
        flat_text_seq(s.push(x)) == flat_text_seq(s) + flat_text(x),
    decreases s.len(),
{
    let t = s.push(x);
    if s.len() == 0 {
        assert(t.drop_first() =~= Seq::<MdNode>::empty());
        assert(t[0] == x);
        assert(flat_text_seq(Seq::<MdNode>::empty()) == Seq::<char>::empty());
        assert(flat_text_seq(t) == flat_text(x) + flat_text_seq(Seq::<MdNode>::empty()));
        assert(flat_text_seq(t) =~= flat_text_seq(s) + flat_text(x));
    } else {
        assert(t.drop_first() =~= s.drop_first().push(x));
        assert(t[0] == s[0]);
        lemma_flat_text_seq_push(s.drop_first(), x);
        assert(flat_text_seq(t) == flat_text(s[0]) + (flat_text_seq(s.drop_first()) + flat_text(
            x,
        )));
        assert(flat_text_seq(t) =~= flat_text_seq(s) + flat_text(x));
    }
}

pub proof fn lemma_headings_of_seq_push(s: Seq<MdNode>, x: MdNode)
    ensures
        headings_of_seq(s.push(x)) == headings_of_seq(s) + headings_of(x),
    decreases s.len(),
{
    let t = s.push(x);
    if s.len() == 0 {
        assert(t.drop_first() =~= Seq::<MdNode>::empty());
        assert(t[0] == x);
        assert(headings_of_seq(Seq::<MdNode>::empty()) == Seq::<RawHeading>::empty());
        assert(headings_of_seq(t) == headings_of(x) + headings_of_seq(Seq::<MdNode>::empty()));
        assert(headings_of_seq(t) =~= headings_of_seq(s) + headings_of(x));
    } else {
        assert(t.drop_first() =~= s.drop_first().push(x));
        assert(t[0] == s[0]);
        lemma_headings_of_seq_push(s.drop_first(), x);
        assert(headings_of_seq(t) == headings_of(s[0]) + (headings_of_seq(s.drop_first())
            + headings_of(x)));
        assert(headings_of_seq(t) =~= headings_of_seq(s) + headings_of(x));
    }
}

pub proof fn lemma_links_of_seq_push(s: Seq<MdNode>, x: MdNode)
    ensures
        links_of_seq(s.push(x)) == links_of_seq(s) + links_of(x),
    decreases s.len(),
{
    let t = s.push(x);
    if s.len() == 0 {
        assert(t.drop_first() =~= Seq::<MdNode>::empty());
        assert(t[0] == x);
        assert(links_of_seq(Seq::<MdNode>::empty()) == Seq::<RawLink>::empty());
        assert(links_of_seq(t) == links_of(x) + links_of_seq(Seq::<MdNode>::empty()));
        assert(links_of_seq(t) =~= links_of_seq(s) + links_of(x));
    } else {
        assert(t.drop_first() =~= s.drop_first().push(x));
        assert(t[0] == s[0]);
        lemma_links_of_seq_push(s.drop_first(), x);
        assert(links_of_seq(t) == links_of(s[0]) + (links_of_seq(s.drop_first()) + links_of(x)));
        assert(links_of_seq(t) =~= links_of_seq(s) + links_of(x));
    }
}

/// Every heading of a well-formed tree has its level in 1..=6.
pub proof fn lemma_headings_of_wf(n: MdNode, src_len: nat)
    requires
        node_wf(n, src_len),
    ensures
        forall|i: int|
            0 <= i < headings_of(n).len() ==> 1 <= (#[trigger] headings_of(n)[i]).level <= 6,
    decreases n,
{
    lemma_headings_of_seq_wf(n.children@, src_len);
    let hs = headings_of(n);
    let cs = headings_of_seq(n.children@);
    assert forall|i: int| 0 <= i < hs.len() implies 1 <= (#[trigger] hs[i]).level <= 6 by {
        match n.kind {
            NodeKind::Heading { level } => {
                assert(hs == seq![RawHeading { level, text: flat_text(n) }] + cs);
                if i == 0 {
                    assert(hs[i] == RawHeading { level, text: flat_text(n) });
                } else {
                    assert(hs[i] == cs[i - 1]);
                }
            },
            _ => {
                assert(hs == cs);
                assert(hs[i] == cs[i]);
            },
        }
    }
}

proof fn lemma_headings_of_seq_wf(s: Seq<MdNode>, src_len: nat)
    requires
        nodes_wf(s, src_len),
    ensures
        forall|i: int|
            0 <= i < headings_of_seq(s).len() ==> 1 <= (#[trigger] headings_of_seq(s)[i]).level
                <= 6,
    decreases s,
{
    if s.len() != 0 {
        lemma_headings_of_wf(s[0], src_len);
        lemma_headings_of_seq_wf(s.drop_first(), src_len);
        let a = headings_of(s[0]);
        let b = headings_of_seq(s.drop_first());
        assert forall|i: int| 0 <= i < headings_of_seq(s).len() implies 1 <= (
        #[trigger] headings_of_seq(s)[i]).level <= 6 by {
            assert(headings_of_seq(s) == a + b);
            if i < a.len() {
                assert(headings_of_seq(s)[i] == a[i]);
            } else {
                assert(headings_of_seq(s)[i] == b[i - a.len()]);
            }
        }
    }
}

/// The flattened inline text of a node, as `flat_text` describes it.
pub fn get_node_text(node: &MdNode) -> (r: String)
    ensures
        r@ == flat_text(*node),
    decreases *node,
{
    match &node.kind {
        NodeKind::Text { content } => content.clone(),
        _ => {
            let mut acc = String::new();
            let n = node.children.len();
            for i in 0..n
                invariant
                    n == node.children.len(),
                    acc@ == flat_text_seq(node.children@.take(i as int)),
                decreases n - i,
            {
                proof {
                    assert(decreases_to!(*node => node.children));
                    assert(decreases_to!(node.children => node.children@));
                    assert(decreases_to!(node.children@ => node.children@[i as int]));
                }
                let part = get_node_text(&node.children[i]);
                acc.append(part.as_str());
                proof {
                    assert(node.children@.take(i + 1) =~= node.children@.take(i as int).push(
                        node.children@[i as int],
                    ));
                    lemma_flat_text_seq_push(
                        node.children@.take(i as int),
                        node.children@[i as int],
                    );
                }
            }
            proof {
                assert(node.children@.take(n as int) =~= node.children@);
            }
            acc
        },
    }
}

} // verus!
