//! Link collection, classification, resolution and validation.
//!
//! Links are gathered in one tree walk, classified by their first character,
//! resolved against the document's own base location, and checked: internal
//! anchors against the collected heading identifiers, everything else for
//! URL well-formedness. Reachability of external URLs is probed by the
//! caller; the verdicts are folded back in here.

use vstd::prelude::*;

use crate::node::MdNode;
use crate::node::NodeKind;
use crate::node::RawLink;
use crate::node::links_of;
use crate::node::links_of_seq;
use crate::node::lemma_links_of_seq_push;
use crate::node::node_wf;
use crate::node::nodes_wf;
use crate::text::dec_digits;
use crate::text::u64_to_string;

verus! {

// --- byte offset to line and column ---

/// How many newline bytes lie strictly before `off`.
pub open spec fn newlines_before(src: Seq<u8>, off: int) -> nat
    decreases off,
{
    if off <= 0 {
        0
    } else {
        newlines_before(src, off - 1) + (if src[off - 1] == 10 {
            1nat
        } else {
            0nat
        })
    }
}

/// The index right after the last newline before `off`: where `off`'s line
/// begins.
pub open spec fn line_start(src: Seq<u8>, off: int) -> int
    decreases off,
{
    if off <= 0 {
        0
    } else if src[off - 1] == 10 {
        off
    } else {
        line_start(src, off - 1)
    }
}

pub proof fn lemma_line_start_bounds(src: Seq<u8>, off: int)
    requires
        off >= 0,
    ensures
        0 <= line_start(src, off) <= off,
    decreases off,
{
    if off > 0 && src[off - 1] != 10 {
        lemma_line_start_bounds(src, off - 1);
    }
}

/// The 1-based line of byte offset `off`.
pub open spec fn line_of(src: Seq<u8>, off: int) -> nat {
    newlines_before(src, off) + 1
}

/// The 1-based column of byte offset `off`.
pub open spec fn col_of(src: Seq<u8>, off: int) -> nat {
    (off - line_start(src, off) + 1) as nat
}

/// Converts a byte offset into a 1-based (line, column) pair by scanning the
/// source once, counting newlines.
pub fn line_column(source: &Vec<u8>, offset: usize) -> (r: (usize, usize))
    requires
        offset <= source@.len(),
        source@.len() < usize::MAX,
    ensures
        r.0 as nat == line_of(source@, offset as int),
        r.1 as nat == col_of(source@, offset as int),
{
    let mut line: usize = 1;
    let mut start: usize = 0;
    for i in 0..offset
        invariant
            offset <= source@.len(),
            source@.len() < usize::MAX,
            line as nat == newlines_before(source@, i as int) + 1,
            start as int == line_start(source@, i as int),
            line <= i + 1,
            start <= i,
        decreases offset - i,
    {
        if source[i] == 10u8 {
            line = line + 1;
            start = i + 1;
        }
    }
    proof {
        lemma_line_start_bounds(source@, offset as int);
    }
    (line, offset - start + 1)
}

// --- trusted views of the url crate ---

/// Whether `url::Url::parse` accepts the string as an absolute URL; a
/// function of the string alone.
pub uninterp spec fn url_parse_ok(s: Seq<char>) -> bool;

/// Relies on `url::Url::parse`: reports whether the string parses as an
/// absolute URL.
#[verifier::external_body]
fn parse_url_ok(s: &str) -> (r: bool)
    ensures
        r == url_parse_ok(s@),
{
    url::Url::parse(s).is_ok()
}

/// What resolving `rel` against the base URL `base` yields: the serialized
/// joined URL, or nothing when the base does not parse or the join fails.
/// A function of the two strings alone.
pub uninterp spec fn resolve_of(base: Seq<char>, rel: Seq<char>) -> Option<Seq<char>>;

/// Relies on `url::Url::parse` and `url::Url::join`: resolves a relative
/// reference against a base URL and serializes the result.
#[verifier::external_body]
fn join_url(base: &str, rel: &str) -> (r: Option<String>)
    ensures
        r is Some <==> resolve_of(base@, rel@) is Some,
        r is Some ==> r.unwrap()@ == resolve_of(base@, rel@).unwrap(),
{
    match url::Url::parse(base) {
        Ok(b) => match b.join(rel) {
            Ok(u) => Some(String::from(u)),
            Err(_) => None,
        },
        Err(_) => None,
    }
}

// --- the link data model ---

/// How a link's target is classified.
#[derive(Debug, PartialEq, Eq, Clone, Copy)]
pub enum LinkType {
    InternalAnchor,
    RelativePath,
    ExternalUrl,
}

/// One collected link: the target as written, the resolved target, its
/// classification, and its 1-based source position.
#[derive(Debug, PartialEq, Eq, Clone)]
pub struct Link {
    pub raw_url: String,
    pub resolved_url: String,
    pub link_type: LinkType,
    pub line: usize,
    pub column: usize,
}

/// The mathematical shadow of a `Link`.
pub ghost struct LinkRec {
    pub raw_url: Seq<char>,
    pub resolved_url: Seq<char>,
    pub link_type: LinkType,
    pub line: nat,
    pub column: nat,
}

impl View for Link {
    type V = LinkRec;

    open spec fn view(&self) -> LinkRec {
        LinkRec {
            raw_url: self.raw_url@,
            resolved_url: self.resolved_url@,
            link_type: self.link_type,
            line: self.line as nat,
            column: self.column as nat,
        }
    }
}

pub open spec fn links_view(s: Seq<Link>) -> Seq<LinkRec> {
    s.map_values(|l: Link| l@)
}

/// A link target's class: internal anchor for `#...`, relative path for
/// `....`, external URL otherwise.
pub open spec fn classify(url: Seq<char>) -> LinkType {
    if url.len() > 0 && url[0] == '#' {
        LinkType::InternalAnchor
    } else if url.len() > 0 && url[0] == '.' {
        LinkType::RelativePath
    } else {
        LinkType::ExternalUrl
    }
}

/// The resolved target: a relative path is joined onto the base URL (and
/// left as written when the join fails); anything else is kept as written.
pub open spec fn resolve_spec(url: Seq<char>, base: Seq<char>) -> Seq<char> {
    if classify(url) is RelativePath {
        match resolve_of(base, url) {
            Some(r) => r,
            None => url,
        }
    } else {
        url
    }
}

/// Classifies one link target and resolves it against the document's base
/// URL.
pub fn resolve_link_url(link_url: &String, base_url: &String) -> (r: String)
    ensures
        r@ == resolve_spec(link_url@, base_url@),
{
    let s = link_url.as_str();
    let n = s.unicode_len();
    if n > 0 && s.get_char(0) == '.' {
        match join_url(base_url.as_str(), s) {
            Some(resolved) => resolved,
            None => link_url.clone(),
        }
    } else {
        link_url.clone()
    }
}

/// One link node as the tree walk finds it: target and byte offset.
pub struct LinkNode {
    pub url: String,
    pub offset: usize,
}

impl View for LinkNode {
    type V = RawLink;

    open spec fn view(&self) -> RawLink {
        RawLink { url: self.url@, offset: self.offset }
    }
}

pub open spec fn link_nodes_view(s: Seq<LinkNode>) -> Seq<RawLink> {
    s.map_values(|l: LinkNode| l@)
}

fn find_link_nodes_rec(node: &MdNode, acc: &mut Vec<LinkNode>)
    ensures
        link_nodes_view(final(acc)@) == link_nodes_view(old(acc)@) + links_of(*node),
    decreases *node,
{
    let ghost before = link_nodes_view(old(acc)@);
    match &node.kind {
        NodeKind::Link { url } => {
            let ln = LinkNode { url: url.clone(), offset: node.offset };
            acc.push(ln);
            proof {
                assert(link_nodes_view(acc@) =~= before + seq![
                    RawLink { url: url@, offset: node.offset },
                ]);
            }
        },
        _ => {},
    }
    let ghost own = link_nodes_view(acc@);
    let n = node.children.len();
    for i in 0..n
        invariant
            n == node.children.len(),
            link_nodes_view(acc@) == own + links_of_seq(node.children@.take(i as int)),
        decreases n - i,
    {
        proof {
            assert(decreases_to!(*node => node.children));
            assert(decreases_to!(node.children => node.children@));
            assert(decreases_to!(node.children@ => node.children@[i as int]));
        }
        find_link_nodes_rec(&node.children[i], acc);
        proof {
            let child = node.children@[i as int];
            assert(node.children@.take(i + 1) =~= node.children@.take(i as int).push(child));
            lemma_links_of_seq_push(node.children@.take(i as int), child);
            assert(own + links_of_seq(node.children@.take(i as int)) + links_of(child) =~= own
                + links_of_seq(node.children@.take(i + 1)));
        }
    }
    proof {
        assert(node.children@.take(n as int) =~= node.children@);
        assert(own + links_of_seq(node.children@) =~= before + links_of(*node));
    }
}

/// Gathers every link node of the tree in document order.
pub fn find_link_nodes(root: &MdNode) -> (r: Vec<LinkNode>)
    ensures
        link_nodes_view(r@) == links_of(*root),
{
    let mut acc: Vec<LinkNode> = Vec::new();
    proof {
        assert(link_nodes_view(acc@) =~= Seq::<RawLink>::empty());
    }
    find_link_nodes_rec(root, &mut acc);
    proof {
        assert(Seq::<RawLink>::empty() + links_of(*root) =~= links_of(*root));
    }
    acc
}

/// Every link offset in a well-formed tree lies inside the source text.
pub proof fn lemma_links_of_wf(n: MdNode, src_len: nat)
    requires
        node_wf(n, src_len),
    ensures
        forall|i: int| 0 <= i < links_of(n).len() ==> (#[trigger] links_of(n)[i]).offset <= src_len,
    decreases n,
{
    lemma_links_of_seq_wf(n.children@, src_len);
    let ls = links_of(n);
    let cs = links_of_seq(n.children@);
    assert forall|i: int| 0 <= i < ls.len() implies (#[trigger] ls[i]).offset <= src_len by {
        match n.kind {
            NodeKind::Link { url } => {
                assert(ls == seq![RawLink { url: url@, offset: n.offset }] + cs);
                if i == 0 {
                    assert(ls[i] == RawLink { url: url@, offset: n.offset });
                } else {
                    assert(ls[i] == cs[i - 1]);
                }
            },
            _ => {
                assert(ls == cs);
                assert(ls[i] == cs[i]);
            },
        }
    }
}

/// The record built for one raw link: classification, resolution against the
/// base URL, and 1-based source position.
pub open spec fn link_rec_for(rl: RawLink, src: Seq<u8>, base: Seq<char>) -> LinkRec {
    LinkRec {
        raw_url: rl.url,
        resolved_url: resolve_spec(rl.url, base),
        link_type: classify(rl.url),
        line: line_of(src, rl.offset as int),
        column: col_of(src, rl.offset as int),
    }
}

/// All link records of the document, in document order.
pub open spec fn links_spec(t: MdNode, src: Seq<u8>, base: Seq<char>) -> Seq<LinkRec> {
    links_of(t).map_values(|rl: RawLink| link_rec_for(rl, src, base))
}

/// Gathers every link of the tree with its classification, resolved target
/// and source position.
pub fn collect_links(root: &MdNode, source: &Vec<u8>, base_url: &String) -> (r: Vec<Link>)
    requires
        node_wf(*root, source@.len()),
        source@.len() < usize::MAX,
    ensures
        links_view(r@) == links_spec(*root, source@, base_url@),
{
    let raw = find_link_nodes(root);
    proof {
        lemma_links_of_wf(*root, source@.len());
    }
    let ghost rls = links_of(*root);
    let ghost target = links_spec(*root, source@, base_url@);
    let mut links: Vec<Link> = Vec::new();
    let n = raw.len();
    proof {
        assert(links_view(links@) =~= target.take(0));
    }
    for i in 0..n
        invariant
            n == raw.len(),
            link_nodes_view(raw@) == rls,
            rls == links_of(*root),
            target == links_spec(*root, source@, base_url@),
            node_wf(*root, source@.len()),
            source@.len() < usize::MAX,
            forall|j: int| 0 <= j < rls.len() ==> (#[trigger] rls[j]).offset <= source@.len(),
            links_view(links@) == target.take(i as int),
        decreases n - i,
    {
        let url = raw[i].url.clone();
        let offset = raw[i].offset;
        proof {
            assert(link_nodes_view(raw@)[i as int] == raw@[i as int]@);
            assert(rls[i as int].offset == offset);
            assert(rls[i as int].url == url@);
        }
        let pos = line_column(source, offset);
        let s = url.as_str();
        let ulen = s.unicode_len();
        let is_internal = ulen > 0 && s.get_char(0) == '#';
        let is_relative = !is_internal && ulen > 0 && s.get_char(0) == '.';
        let link = if is_internal {
            Link {
                raw_url: url.clone(),
                resolved_url: url.clone(),
                link_type: LinkType::InternalAnchor,
                line: pos.0,
                column: pos.1,
            }
        } else if is_relative {
            let resolved = resolve_link_url(&url, base_url);
            Link {
                raw_url: url.clone(),
                resolved_url: resolved,
                link_type: LinkType::RelativePath,
                line: pos.0,
                column: pos.1,
            }
        } else {
            Link {
                raw_url: url.clone(),
                resolved_url: url.clone(),
                link_type: LinkType::ExternalUrl,
                line: pos.0,
                column: pos.1,
            }
        };
        proof {
            assert(link@ == link_rec_for(rls[i as int], source@, base_url@));
            assert(target[i as int] == link_rec_for(rls[i as int], source@, base_url@));
        }
        let ghost pre = links@;
        links.push(link);
        proof {
            assert(rls.len() == n);
            assert(target.len() == n);
            assert(links_view(pre).len() == pre.len());
            assert(target.take(i as int).len() == i);
            assert(pre.len() == i);
            assert(links@ == pre.push(link));
            assert forall|j: int| 0 <= j < i + 1 implies links_view(links@)[j] == target.take(
                i + 1,
            )[j] by {
                assert(target.take(i + 1)[j] == target[j]);
                if j < i {
                    assert(links@[j] == pre[j]);
                    assert(links_view(links@)[j] == links@[j]@);
                    assert(links_view(pre)[j] == pre[j]@);
                    assert(links_view(pre)[j] == target.take(i as int)[j]);
                    assert(target.take(i as int)[j] == target[j]);
                } else {
                    assert(links@[j] == link);
                    assert(links_view(links@)[j] == link@);
                }
            }
            assert(links_view(links@) =~= target.take(i + 1));
        }
    }
    proof {
        assert(target.take(n as int) =~= target);
    }
    links
}

// --- link validation ---

/// The anchor an internal link points at: the target without its leading
/// `#`.
pub open spec fn anchor_of(raw: Seq<char>) -> Seq<char> {
    if raw.len() >= 1 {
        raw.subrange(1, raw.len() as int)
    } else {
        Seq::empty()
    }
}

pub open spec fn msg_internal_link(raw: Seq<char>, line: nat, column: nat) -> Seq<char> {
    "internal link '"@ + raw + "' points to a non-existing heading at line "@ + dec_digits(line)
        + ", column "@ + dec_digits(column)
}

pub open spec fn msg_invalid_url(raw: Seq<char>, line: nat, column: nat) -> Seq<char> {
    "external link '"@ + raw + "' has an invalid URL format at line "@ + dec_digits(line)
        + ", column "@ + dec_digits(column)
}

pub open spec fn msg_not_reachable(url: Seq<char>) -> Seq<char> {
    "external link '"@ + url + "' is not reachable"@
}

/// The errors one link contributes. `dir` reports whether a relative link's
/// resolved target is a directory on the filesystem; a directory reference
/// is valid as it stands.
pub open spec fn link_errors_at(l: LinkRec, ids: Seq<Seq<char>>, dir: bool) -> Seq<Seq<char>> {
    match l.link_type {
        LinkType::InternalAnchor => if ids.contains(anchor_of(l.raw_url)) {
            Seq::empty()
        } else {
            seq![msg_internal_link(l.raw_url, l.line, l.column)]
        },
        LinkType::RelativePath => if dir || url_parse_ok(l.resolved_url) {
            Seq::empty()
        } else {
            seq![msg_invalid_url(l.raw_url, l.line, l.column)]
        },
        LinkType::ExternalUrl => if url_parse_ok(l.raw_url) {
            Seq::empty()
        } else {
            seq![msg_invalid_url(l.raw_url, l.line, l.column)]
        },
    }
}

/// The reachability worklist one link contributes: a syntactically valid
/// external URL is probed, nothing else is.
pub open spec fn link_worklist_at(l: LinkRec) -> Seq<Seq<char>> {
    if l.link_type is ExternalUrl && url_parse_ok(l.raw_url) {
        seq![l.raw_url]
    } else {
        Seq::empty()
    }
}

/// How many of the links are relative paths.
pub open spec fn rel_count(ls: Seq<LinkRec>) -> nat
    decreases ls.len(),
{
    if ls.len() == 0 {
        0
    } else {
        rel_count(ls.drop_last()) + (if ls.last().link_type is RelativePath {
            1nat
        } else {
            0nat
        })
    }
}

/// The directory verdict for link `i`: relative links consume the caller's
/// verdicts in order, any other link gets none.
pub open spec fn dir_flag_at(ls: Seq<LinkRec>, flags: Seq<bool>, i: int) -> bool {
    if ls[i].link_type is RelativePath {
        flags[rel_count(ls.take(i)) as int]
    } else {
        false
    }
}

/// All syntactic link errors, in document order.
pub open spec fn link_errors(ls: Seq<LinkRec>, ids: Seq<Seq<char>>, flags: Seq<bool>) -> Seq<
    Seq<char>,
>
    decreases ls.len(),
{
    if ls.len() == 0 {
        Seq::empty()
    } else {
        link_errors(ls.drop_last(), ids, flags) + link_errors_at(
            ls.last(),
            ids,
            dir_flag_at(ls, flags, ls.len() - 1),
        )
    }
}

/// The reachability worklist, in document order.
pub open spec fn link_worklist(ls: Seq<LinkRec>) -> Seq<Seq<char>>
    decreases ls.len(),
{
    if ls.len() == 0 {
        Seq::empty()
    } else {
        link_worklist(ls.drop_last()) + link_worklist_at(ls.last())
    }
}

pub proof fn lemma_rel_count_take_le(ls: Seq<LinkRec>, m: int)
    requires
        0 <= m <= ls.len(),
    ensures
        rel_count(ls.take(m)) <= rel_count(ls),
    decreases ls.len() - m,
{
    if m == ls.len() {
        assert(ls.take(m) =~= ls);
    } else {
        assert(ls.take(m + 1).drop_last() =~= ls.take(m));
        lemma_rel_count_take_le(ls, m + 1);
    }
}

proof fn lemma_rel_count_step(ls: Seq<LinkRec>, i: int)
    requires
        0 <= i < ls.len(),
    ensures
        rel_count(ls.take(i + 1)) == rel_count(ls.take(i)) + (if ls[i].link_type
            is RelativePath {
            1nat
        } else {
            0nat
        }),
{
    assert(ls.take(i + 1).drop_last() =~= ls.take(i));
    assert(ls.take(i + 1).last() == ls[i]);
}

fn contains_string(ids: &Vec<String>, x: &String) -> (r: bool)
    ensures
        r == crate::toc::strs_view(ids@).contains(x@),
{
    let ghost views = crate::toc::strs_view(ids@);
    let n = ids.len();
    for i in 0..n
        invariant
            n == ids.len(),
            views == crate::toc::strs_view(ids@),
            forall|j: int| 0 <= j < i ==> views[j] != x@,
        decreases n - i,
    {
        if ids[i] == *x {
            proof {
                assert(views[i as int] == x@);
            }
            return true;
        }
        proof {
            assert(views[i as int] == ids@[i as int]@);
        }
    }
    proof {
        if views.contains(x@) {
            let j = choose|j: int| 0 <= j < views.len() && views[j] == x@;
            assert(false);
        }
    }
    false
}

fn internal_link_message(raw: &String, line: usize, column: usize) -> (r: String)
    ensures
        r@ == msg_internal_link(raw@, line as nat, column as nat),
{
    let mut msg = String::new();
    msg.append("internal link '");
    msg.append(raw.as_str());
    msg.append("' points to a non-existing heading at line ");
    let line_digits = u64_to_string(line as u64);
    msg.append(line_digits.as_str());
    msg.append(", column ");
    let col_digits = u64_to_string(column as u64);
    msg.append(col_digits.as_str());
    proof {
        assert(msg@ =~= msg_internal_link(raw@, line as nat, column as nat));
    }
    msg
}

fn invalid_url_message(raw: &String, line: usize, column: usize) -> (r: String)
    ensures
        r@ == msg_invalid_url(raw@, line as nat, column as nat),
{
    let mut msg = String::new();
    msg.append("external link '");
    msg.append(raw.as_str());
    msg.append("' has an invalid URL format at line ");
    let line_digits = u64_to_string(line as u64);
    msg.append(line_digits.as_str());
    msg.append(", column ");
    let col_digits = u64_to_string(column as u64);
    msg.append(col_digits.as_str());
    proof {
        assert(msg@ =~= msg_invalid_url(raw@, line as nat, column as nat));
    }
    msg
}

fn not_reachable_message(url: &String) -> (r: String)
    ensures
        r@ == msg_not_reachable(url@),
{
    let mut msg = String::new();
    msg.append("external link '");
    msg.append(url.as_str());
    msg.append("' is not reachable");
    proof {
        assert(msg@ =~= msg_not_reachable(url@));
    }
    msg
}

/// Checks every collected link: internal anchors must be among the heading
/// identifiers, a relative target must be a directory (the caller's verdicts,
/// one per relative link in order) or a well-formed URL, an external target
/// must be a well-formed URL. Returns the accumulated error messages and the
/// worklist of external URLs to probe.
pub fn validate_links(links: &Vec<Link>, heading_ids: &Vec<String>, dir_flags: &Vec<bool>) -> (r: (
    Vec<String>,
    Vec<String>,
))
    requires
        dir_flags@.len() == rel_count(links_view(links@)),
    ensures
        crate::toc::strs_view(r.0@) == link_errors(
            links_view(links@),
            crate::toc::strs_view(heading_ids@),
            dir_flags@,
        ),
        crate::toc::strs_view(r.1@) == link_worklist(links_view(links@)),
{
    let ghost ls = links_view(links@);
    let ghost ids = crate::toc::strs_view(heading_ids@);
    let mut errors: Vec<String> = Vec::new();
    let mut worklist: Vec<String> = Vec::new();
    let mut k: usize = 0;
    let n = links.len();
    let nf = dir_flags.len();
    proof {
        assert(crate::toc::strs_view(errors@) =~= link_errors(ls.take(0), ids, dir_flags@));
        assert(crate::toc::strs_view(worklist@) =~= link_worklist(ls.take(0)));
    }
    for i in 0..n
        invariant
            n == links.len(),
            ls == links_view(links@),
            ids == crate::toc::strs_view(heading_ids@),
            dir_flags@.len() == rel_count(ls),
            nf == dir_flags@.len(),
            k == rel_count(ls.take(i as int)),
            crate::toc::strs_view(errors@) == link_errors(ls.take(i as int), ids, dir_flags@),
            crate::toc::strs_view(worklist@) == link_worklist(ls.take(i as int)),
        decreases n - i,
    {
        proof {
            assert(ls[i as int] == links@[i as int]@);
            lemma_rel_count_step(ls, i as int);
            lemma_rel_count_take_le(ls, i + 1);
        }
        let ghost errs_before = crate::toc::strs_view(errors@);
        let ghost work_before = crate::toc::strs_view(worklist@);
        let ghost dir_here = dir_flag_at(ls.take(i + 1), dir_flags@, i as int);
        proof {
            assert(ls.take(i + 1)[i as int] == ls[i as int]);
            assert(ls.take(i + 1).take(i as int) =~= ls.take(i as int));
        }
        match links[i].link_type {
            LinkType::InternalAnchor => {
                let s = links[i].raw_url.as_str();
                let ulen = s.unicode_len();
                let anchor = if ulen >= 1 {
                    String::from_str(s.substring_char(1, ulen))
                } else {
                    String::new()
                };
                proof {
                    assert(anchor@ == anchor_of(ls[i as int].raw_url));
                }
                if !contains_string(heading_ids, &anchor) {
                    let msg = internal_link_message(&links[i].raw_url, links[i].line, links[i].column);
                    errors.push(msg);
                }
            },
            LinkType::RelativePath => {
                let dir = dir_flags[k];
                proof {
                    assert(dir == dir_here);
                    assert(rel_count(ls.take(i + 1)) == k + 1);
                    assert(k + 1 <= dir_flags@.len());
                }
                k = k + 1;
                if !dir {
                    let ok = parse_url_ok(links[i].resolved_url.as_str());
                    if !ok {
                        let msg = invalid_url_message(
                            &links[i].raw_url,
                            links[i].line,
                            links[i].column,
                        );
                        errors.push(msg);
                    }
                }
            },
            LinkType::ExternalUrl => {
                let ok = parse_url_ok(links[i].raw_url.as_str());
                if !ok {
                    let msg = invalid_url_message(&links[i].raw_url, links[i].line, links[i].column);
                    errors.push(msg);
                } else {
                    worklist.push(links[i].raw_url.clone());
                }
            },
        }
        proof {
            assert(crate::toc::strs_view(errors@) =~= errs_before + link_errors_at(
                ls[i as int],
                ids,
                dir_here,
            ));
            assert(crate::toc::strs_view(worklist@) =~= work_before + link_worklist_at(
                ls[i as int],
            ));
            assert(ls.take(i + 1).drop_last() =~= ls.take(i as int));
            assert(ls.take(i + 1).last() == ls[i as int]);
        }
    }
    proof {
        assert(ls.take(n as int) =~= ls);
    }
    (errors, worklist)
}

/// The unreachable-link errors, given the probe verdict for each URL of the
/// worklist.
pub open spec fn unreachable_errors(urls: Seq<Seq<char>>, reachable: Seq<bool>) -> Seq<Seq<char>>
    decreases urls.len(),
{
    if urls.len() == 0 {
        Seq::empty()
    } else {
        unreachable_errors(urls.drop_last(), reachable.drop_last()) + (if reachable.last() {
            Seq::<Seq<char>>::empty()
        } else {
            seq![msg_not_reachable(urls.last())]
        })
    }
}

/// Folds the caller's reachability verdicts back into error messages: every
/// URL whose probe failed yields one error.
pub fn validate_external_links(urls: &Vec<String>, reachable: &Vec<bool>) -> (r: Vec<String>)
    requires
        urls@.len() == reachable@.len(),
    ensures
        crate::toc::strs_view(r@) == unreachable_errors(crate::toc::strs_view(urls@), reachable@),
{
    let ghost us = crate::toc::strs_view(urls@);
    let mut errors: Vec<String> = Vec::new();
    let n = urls.len();
    proof {
        assert(crate::toc::strs_view(errors@) =~= unreachable_errors(
            us.take(0),
            reachable@.take(0),
        ));
    }
    for i in 0..n
        invariant
            n == urls.len(),
            us == crate::toc::strs_view(urls@),
            urls@.len() == reachable@.len(),
            crate::toc::strs_view(errors@) == unreachable_errors(
                us.take(i as int),
                reachable@.take(i as int),
            ),
        decreases n - i,
    {
        let ghost before = crate::toc::strs_view(errors@);
        if !reachable[i] {
            let msg = not_reachable_message(&urls[i]);
            errors.push(msg);
            proof {
                assert(us[i as int] == urls@[i as int]@);
            }
        }
        proof {
            assert(us.take(i + 1).drop_last() =~= us.take(i as int));
            assert(reachable@.take(i + 1).drop_last() =~= reachable@.take(i as int));
            assert(us.take(i + 1).last() == us[i as int]);
            assert(reachable@.take(i + 1).last() == reachable@[i as int]);
            assert(crate::toc::strs_view(errors@) =~= unreachable_errors(
                us.take(i + 1),
                reachable@.take(i + 1),
            ));
        }
    }
    proof {
        assert(us.take(n as int) =~= us);
        assert(reachable@.take(n as int) =~= reachable@);
    }
    errors
}

/// Joins the syntactic and the reachability errors: `Ok` exactly when both
/// lists are empty, else every accumulated error, syntactic ones first.
pub fn finish_link_validation(syntax_errors: Vec<String>, external_errors: Vec<String>) -> (r:
    Result<(), Vec<String>>)
    ensures
        match r {
            Ok(()) => syntax_errors@.len() == 0 && external_errors@.len() == 0,
            Err(v) => v@ == syntax_errors@ + external_errors@ && v@.len() > 0,
        },
{
    if syntax_errors.len() == 0 && external_errors.len() == 0 {
        proof {
            assert(syntax_errors@.len() == 0);
        }
        Ok(())
    } else {
        let mut all = syntax_errors;
        let n = external_errors.len();
        for i in 0..n
            invariant
                n == external_errors.len(),
                all@ == syntax_errors@ + external_errors@.take(i as int),
            decreases n - i,
        {
            all.push(external_errors[i].clone());
            proof {
                assert(syntax_errors@ + external_errors@.take(i + 1) =~= (syntax_errors@
                    + external_errors@.take(i as int)).push(external_errors@[i as int]));
            }
        }
        proof {
            assert(external_errors@.take(n as int) =~= external_errors@);
        }
        Err(all)
    }
}

/// The resolved targets of the relative links, in document order: the list
/// whose directory verdicts `validate_links` consumes.
pub open spec fn relative_targets(ls: Seq<LinkRec>) -> Seq<Seq<char>>
    decreases ls.len(),
{
    if ls.len() == 0 {
        Seq::empty()
    } else {
        relative_targets(ls.drop_last()) + (if ls.last().link_type is RelativePath {
            seq![ls.last().resolved_url]
        } else {
            Seq::<Seq<char>>::empty()
        })
    }
}

pub proof fn lemma_relative_targets_len(ls: Seq<LinkRec>)
    ensures
        relative_targets(ls).len() == rel_count(ls),
    decreases ls.len(),
{
    if ls.len() != 0 {
        lemma_relative_targets_len(ls.drop_last());
    }
}

/// The resolved targets of the relative links, in document order; one
/// directory verdict per entry is what `validate_links` expects.
pub fn relative_link_targets(links: &Vec<Link>) -> (r: Vec<String>)
    ensures
        crate::toc::strs_view(r@) == relative_targets(links_view(links@)),
        r@.len() == rel_count(links_view(links@)),
{
    let ghost ls = links_view(links@);
    let mut targets: Vec<String> = Vec::new();
    let n = links.len();
    proof {
        assert(crate::toc::strs_view(targets@) =~= relative_targets(ls.take(0)));
    }
    for i in 0..n
        invariant
            n == links.len(),
            ls == links_view(links@),
            crate::toc::strs_view(targets@) == relative_targets(ls.take(i as int)),
        decreases n - i,
    {
        let ghost before = crate::toc::strs_view(targets@);
        proof {
            assert(ls[i as int] == links@[i as int]@);
        }
        match links[i].link_type {
            LinkType::RelativePath => {
                targets.push(links[i].resolved_url.clone());
            },
            _ => {},
        }
        proof {
            assert(ls.take(i + 1).drop_last() =~= ls.take(i as int));
            assert(ls.take(i + 1).last() == ls[i as int]);
            assert(crate::toc::strs_view(targets@) =~= relative_targets(ls.take(i + 1)));
        }
    }
    proof {
        assert(ls.take(n as int) =~= ls);
        lemma_relative_targets_len(ls);
        assert(crate::toc::strs_view(targets@).len() == targets@.len());
    }
    targets
}

/// Law: round trip. An internal link whose anchor is among the collected
/// heading identifiers validates with no link error.
pub proof fn lemma_internal_link_round_trip(l: LinkRec, ids: Seq<Seq<char>>, dir: bool)
    requires
        l.link_type is InternalAnchor,
        ids.contains(anchor_of(l.raw_url)),
    ensures
        link_errors_at(l, ids, dir).len() == 0,
{
}

proof fn lemma_links_of_seq_wf(s: Seq<MdNode>, src_len: nat)
    requires
        nodes_wf(s, src_len),
    ensures
        forall|i: int|
            0 <= i < links_of_seq(s).len() ==> (#[trigger] links_of_seq(s)[i]).offset <= src_len,
    decreases s,
{
    if s.len() != 0 {
        lemma_links_of_wf(s[0], src_len);
        lemma_links_of_seq_wf(s.drop_first(), src_len);
        let a = links_of(s[0]);
        let b = links_of_seq(s.drop_first());
        assert forall|i: int|
            0 <= i < links_of_seq(s).len() implies (#[trigger] links_of_seq(s)[i]).offset
            <= src_len by {
            assert(links_of_seq(s) == a + b);
            if i < a.len() {
                assert(links_of_seq(s)[i] == a[i]);
            } else {
                assert(links_of_seq(s)[i] == b[i - a.len()]);
            }
        }
    }
}

} // verus!
