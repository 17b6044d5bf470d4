//! Document statistics: one tree walk counting headings, whitespace-delimited
//! words in text nodes, and links.

use vstd::prelude::*;

use crate::node::MdNode;
use crate::node::NodeKind;
use crate::node::headings_of;
use crate::node::headings_of_seq;
use crate::node::lemma_headings_of_seq_push;
use crate::node::links_of;
use crate::node::links_of_seq;
use crate::node::lemma_links_of_seq_push;
use crate::toc::is_ws;
use crate::toc::is_ws_exec;

verus! {

/// The fixed statistics of one document.
#[derive(Debug, PartialEq, Eq, Clone, Copy)]
pub struct DocumentStatistics {
    pub headings: usize,
    pub words: usize,
    pub links: usize,
}

/// How many whitespace-delimited tokens a text holds: one per position that
/// starts a maximal non-whitespace run.
pub open spec fn token_count(s: Seq<char>) -> nat
    decreases s.len(),
{
    if s.len() == 0 {
        0
    } else {
        token_count(s.drop_last()) + (if !is_ws(s.last()) && (s.len() == 1 || is_ws(
            s[s.len() - 2],
        )) {
            1nat
        } else {
            0nat
        })
    }
}

/// The words of the subtree at `n`: the token counts of all its text nodes.
pub open spec fn count_words(n: MdNode) -> nat
    decreases n,
{
    (match n.kind {
        NodeKind::Text { content } => token_count(content@),
        _ => 0nat,
    }) + count_words_seq(n.children@)
}

pub open spec fn count_words_seq(s: Seq<MdNode>) -> nat
    decreases s,
{
    if s.len() == 0 {
        0
    } else {
        count_words(s[0]) + count_words_seq(s.drop_first())
    }
}

pub proof fn lemma_count_words_seq_push(s: Seq<MdNode>, x: MdNode)
    ensures
        count_words_seq(s.push(x)) == count_words_seq(s) + count_words(x),
    decreases s.len(),
{
    let t = s.push(x);
    if s.len() == 0 {
        assert(t.drop_first() =~= Seq::<MdNode>::empty());
        assert(t[0] == x);
        assert(count_words_seq(Seq::<MdNode>::empty()) == 0);
    } else {
        assert(t.drop_first() =~= s.drop_first().push(x));
        assert(t[0] == s[0]);
        lemma_count_words_seq_push(s.drop_first(), x);
    }
}

proof fn lemma_token_count_take_le(s: Seq<char>, m: int)
    requires
        0 <= m <= s.len(),
    ensures
        token_count(s.take(m)) <= token_count(s),
    decreases s.len() - m,
{
    if m == s.len() {
        assert(s.take(m) =~= s);
    } else {
        assert(s.take(m + 1).drop_last() =~= s.take(m));
        lemma_token_count_take_le(s, m + 1);
    }
}

proof fn lemma_headings_take_le(s: Seq<MdNode>, m: int)
    requires
        0 <= m <= s.len(),
    ensures
        headings_of_seq(s.take(m)).len() <= headings_of_seq(s).len(),
    decreases s.len() - m,
{
    if m == s.len() {
        assert(s.take(m) =~= s);
    } else {
        assert(s.take(m + 1) =~= s.take(m).push(s[m]));
        lemma_headings_of_seq_push(s.take(m), s[m]);
        lemma_headings_take_le(s, m + 1);
    }
}

proof fn lemma_links_take_le(s: Seq<MdNode>, m: int)
    requires
        0 <= m <= s.len(),
    ensures
        links_of_seq(s.take(m)).len() <= links_of_seq(s).len(),
    decreases s.len() - m,
{
    if m == s.len() {
        assert(s.take(m) =~= s);
    } else {
        assert(s.take(m + 1) =~= s.take(m).push(s[m]));
        lemma_links_of_seq_push(s.take(m), s[m]);
        lemma_links_take_le(s, m + 1);
    }
}

proof fn lemma_words_take_le(s: Seq<MdNode>, m: int)
    requires
        0 <= m <= s.len(),
    ensures
        count_words_seq(s.take(m)) <= count_words_seq(s),
    decreases s.len() - m,
{
    if m == s.len() {
        assert(s.take(m) =~= s);
    } else {
        assert(s.take(m + 1) =~= s.take(m).push(s[m]));
        lemma_count_words_seq_push(s.take(m), s[m]);
        lemma_words_take_le(s, m + 1);
    }
}

/// Counts the whitespace-delimited tokens of one text.
fn count_words_in_text(content: &str) -> (r: usize)
    requires
        token_count(content@) <= usize::MAX,
    ensures
        r == token_count(content@),
{
    let n = content.unicode_len();
    let mut count: usize = 0;
    for i in 0..n
        invariant
            n == content@.len(),
            token_count(content@) <= usize::MAX,
            count == token_count(content@.take(i as int)),
        decreases n - i,
    {
        let c = content.get_char(i);
        let starts_token = if is_ws_exec(c) {
            false
        } else if i == 0 {
            true
        } else {
            is_ws_exec(content.get_char(i - 1))
        };
        proof {
            let t = content@.take(i + 1);
            assert(t.drop_last() =~= content@.take(i as int));
            assert(t.last() == content@[i as int]);
            assert(i >= 1 ==> t[t.len() - 2] == content@[i - 1]);
            lemma_token_count_take_le(content@, i + 1);
        }
        if starts_token {
            count = count + 1;
        }
    }
    proof {
        assert(content@.take(n as int) =~= content@);
    }
    count
}

fn gather_document_statistics_rec(node: &MdNode, stats: &mut DocumentStatistics)
    requires
        old(stats).headings + headings_of(*node).len() <= usize::MAX,
        old(stats).words + count_words(*node) <= usize::MAX,
        old(stats).links + links_of(*node).len() <= usize::MAX,
    ensures
        final(stats).headings == old(stats).headings + headings_of(*node).len(),
        final(stats).words == old(stats).words + count_words(*node),
        final(stats).links == old(stats).links + links_of(*node).len(),
    decreases *node,
{
    let ghost h0 = stats.headings;
    let ghost w0 = stats.words;
    let ghost l0 = stats.links;
    let ghost own_h: nat = match node.kind {
        NodeKind::Heading { .. } => 1nat,
        _ => 0nat,
    };
    let ghost own_w: nat = match &node.kind {
        NodeKind::Text { content } => token_count(content@),
        _ => 0nat,
    };
    let ghost own_l: nat = match node.kind {
        NodeKind::Link { .. } => 1nat,
        _ => 0nat,
    };
    proof {
        assert(headings_of(*node).len() == own_h + headings_of_seq(node.children@).len());
        assert(count_words(*node) == own_w + count_words_seq(node.children@));
        assert(links_of(*node).len() == own_l + links_of_seq(node.children@).len());
    }
    match &node.kind {
        NodeKind::Heading { .. } => {
            stats.headings = stats.headings + 1;
        },
        NodeKind::Text { content } => {
            let words = count_words_in_text(content.as_str());
            stats.words = stats.words + words;
        },
        NodeKind::Link { .. } => {
            stats.links = stats.links + 1;
        },
        NodeKind::Other => {},
    }
    let n = node.children.len();
    for i in 0..n
        invariant
            n == node.children.len(),
            h0 + headings_of(*node).len() <= usize::MAX,
            w0 + count_words(*node) <= usize::MAX,
            l0 + links_of(*node).len() <= usize::MAX,
            headings_of(*node).len() == own_h + headings_of_seq(node.children@).len(),
            count_words(*node) == own_w + count_words_seq(node.children@),
            links_of(*node).len() == own_l + links_of_seq(node.children@).len(),
            stats.headings == h0 + own_h + headings_of_seq(node.children@.take(i as int)).len(),
            stats.words == w0 + own_w + count_words_seq(node.children@.take(i as int)),
            stats.links == l0 + own_l + links_of_seq(node.children@.take(i as int)).len(),
        decreases n - i,
    {
        proof {
            assert(decreases_to!(*node => node.children));
            assert(decreases_to!(node.children => node.children@));
            assert(decreases_to!(node.children@ => node.children@[i as int]));
            let cs = node.children@;
            let child = cs[i as int];
            assert(cs.take(i + 1) =~= cs.take(i as int).push(child));
            lemma_headings_of_seq_push(cs.take(i as int), child);
            lemma_count_words_seq_push(cs.take(i as int), child);
            lemma_links_of_seq_push(cs.take(i as int), child);
            lemma_headings_take_le(cs, i + 1);
            lemma_words_take_le(cs, i + 1);
            lemma_links_take_le(cs, i + 1);
        }
        gather_document_statistics_rec(&node.children[i], stats);
    }
    proof {
        assert(node.children@.take(n as int) =~= node.children@);
    }
}

/// Counts the document's headings, words and links in one walk. The counts
/// are exactly the numbers of matching nodes (and tokens) in the tree.
pub fn gather_document_statistics(root: &MdNode) -> (r: DocumentStatistics)
    requires
        headings_of(*root).len() <= usize::MAX,
        count_words(*root) <= usize::MAX,
        links_of(*root).len() <= usize::MAX,
    ensures
        r.headings == headings_of(*root).len(),
        r.words == count_words(*root),
        r.links == links_of(*root).len(),
{
    let mut stats = DocumentStatistics { headings: 0, words: 0, links: 0 };
    gather_document_statistics_rec(root, &mut stats);
    stats
}

} // verus!
