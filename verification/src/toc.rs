//! Heading collection: flattening heading text, deriving anchor identifiers
//! (slugs), keeping them unique across the document, and rendering the table
//! of contents.

use vstd::prelude::*;

use crate::node::MdNode;
use crate::node::NodeKind;
use crate::node::RawHeading;
use crate::node::flat_text;
use crate::node::headings_of;
use crate::node::headings_of_seq;
use crate::node::get_node_text;
use crate::node::lemma_headings_of_seq_push;
use crate::node::lemma_headings_of_wf;
use crate::node::node_wf;
use crate::text::dec_digits;
use crate::text::lemma_dec_digits_injective;
use crate::text::push_char;
use crate::text::u64_to_string;

verus! {

/// One collected heading: its level, its anchor identifier, and its text.
#[derive(Debug, PartialEq, Eq, Clone)]
pub struct HeadingInfo {
    pub level: u32,
    pub id: String,
    pub text: String,
}

/// The mathematical shadow of a `HeadingInfo`.
pub ghost struct HeadingRec {
    pub level: u32,
    pub id: Seq<char>,
    pub text: Seq<char>,
}

impl View for HeadingInfo {
    type V = HeadingRec;

    open spec fn view(&self) -> HeadingRec {
        HeadingRec { level: self.level, id: self.id@, text: self.text@ }
    }
}

pub open spec fn infos_view(s: Seq<HeadingInfo>) -> Seq<HeadingRec> {
    s.map_values(|h: HeadingInfo| h@)
}

pub open spec fn rec_ids(s: Seq<HeadingRec>) -> Seq<Seq<char>> {
    s.map_values(|r: HeadingRec| r.id)
}

/// What `str::to_lowercase` returns; the result depends on the characters
/// alone.
pub uninterp spec fn lower_of(s: Seq<char>) -> Seq<char>;

/// Relies on `str::to_lowercase`: the lower-case form of the text, a function
/// of the characters alone.
#[verifier::external_body]
fn lowercase(s: &str) -> (r: String)
    ensures
        r@ == lower_of(s@),
{
    s.to_lowercase()
}

/// The whitespace characters this crate collapses when deriving a slug and
/// when counting words.
pub open spec fn is_ws(c: char) -> bool {
    c == ' ' || c == '\t' || c == '\n' || c == '\r'
}

pub fn is_ws_exec(c: char) -> (r: bool)
    ensures
        r == is_ws(c),
{
    c == ' ' || c == '\t' || c == '\n' || c == '\r'
}

/// Replaces every maximal whitespace run by a single hyphen.
pub open spec fn hyphenate(s: Seq<char>) -> Seq<char>
    decreases s.len(),
{
    if s.len() == 0 {
        Seq::empty()
    } else {
        let prefix = hyphenate(s.drop_last());
        if is_ws(s.last()) {
            if s.len() >= 2 && is_ws(s[s.len() - 2]) {
                prefix
            } else {
                prefix.push('-')
            }
        } else {
            prefix.push(s.last())
        }
    }
}

/// The base anchor of a heading text: lower-cased, whitespace runs replaced
/// by hyphens.
pub open spec fn slug_of(text: Seq<char>) -> Seq<char> {
    hyphenate(lower_of(text))
}

/// Derives the base anchor of a heading text.
pub fn slug(text: &str) -> (r: String)
    ensures
        r@ == slug_of(text@),
{
    let lowered = lowercase(text);
    let lstr = lowered.as_str();
    let n = lstr.unicode_len();
    let mut acc = String::new();
    for i in 0..n
        invariant
            n == lstr@.len(),
            lstr@ == lower_of(text@),
            acc@ == hyphenate(lstr@.take(i as int)),
        decreases n - i,
    {
        let c = lstr.get_char(i);
        if is_ws_exec(c) {
            let run_continues = if i == 0 {
                false
            } else {
                is_ws_exec(lstr.get_char(i - 1))
            };
            if !run_continues {
                push_char(&mut acc, '-');
            }
        } else {
            push_char(&mut acc, c);
        }
        proof {
            let t = lstr@.take(i + 1);
            assert(t.drop_last() =~= lstr@.take(i as int));
            assert(t.last() == lstr@[i as int]);
            assert(i >= 1 ==> t[t.len() - 2] == lstr@[i - 1]);
        }
    }
    proof {
        assert(lstr@.take(n as int) =~= lstr@);
    }
    acc
}

/// The candidate anchor with collision counter `n`: the bare slug for 0,
/// `slug-n` afterwards.
pub open spec fn id_candidate(base: Seq<char>, n: nat) -> Seq<char> {
    if n == 0 {
        base
    } else {
        base + seq!['-'] + dec_digits(n)
    }
}

/// Distinct counters give distinct candidate anchors.
pub proof fn lemma_id_candidate_injective(base: Seq<char>, n: nat, m: nat)
    requires
        id_candidate(base, n) == id_candidate(base, m),
    ensures
        n == m,
{
    if n == 0 && m != 0 {
        assert(dec_digits(m).len() >= 1);
        assert(id_candidate(base, m).len() > id_candidate(base, 0).len());
    } else if n != 0 && m == 0 {
        assert(dec_digits(n).len() >= 1);
        assert(id_candidate(base, n).len() > id_candidate(base, 0).len());
    } else if n != 0 && m != 0 {
        let cn = id_candidate(base, n);
        let cm = id_candidate(base, m);
        assert(cn.len() == base.len() + 1 + dec_digits(n).len());
        assert(cm.len() == base.len() + 1 + dec_digits(m).len());
        assert(dec_digits(n).len() == dec_digits(m).len());
        assert(dec_digits(n) =~= dec_digits(m)) by {
            assert(forall|i: int|
                0 <= i < dec_digits(n).len() ==> dec_digits(n)[i] == cn[base.len() + 1 + i]
                    && dec_digits(m)[i] == cm[base.len() + 1 + i]);
        }
        lemma_dec_digits_injective(n, m);
    }
}

/// If the candidates with counters below `k` all occur among `used`, then
/// `k` is at most the number of used anchors: the candidates are pairwise
/// distinct.
pub proof fn lemma_used_candidates_bound(base: Seq<char>, used: Seq<Seq<char>>, k: nat)
    requires
        forall|m: nat| m < k ==> used.contains(#[trigger] id_candidate(base, m)),
    ensures
        k <= used.len(),
    decreases k,
{
    if k > 0 {
        let last = id_candidate(base, (k - 1) as nat);
        assert(used.contains(last));
        let i = choose|i: int| 0 <= i < used.len() && used[i] == last;
        let shrunk = used.remove(i);
        used.remove_ensures(i);
        assert forall|m: nat| m < (k - 1) as nat implies shrunk.contains(
            #[trigger] id_candidate(base, m),
        ) by {
            let c = id_candidate(base, m);
            assert(used.contains(c));
            let j = choose|j: int| 0 <= j < used.len() && used[j] == c;
            if c == last {
                lemma_id_candidate_injective(base, m, (k - 1) as nat);
                assert(false);
            }
            if j < i {
                assert(shrunk[j] == c);
            } else {
                assert(j > i);
                assert(shrunk[j - 1] == c);
            }
        }
        lemma_used_candidates_bound(base, shrunk, (k - 1) as nat);
    }
}

/// The first candidate, counting up from `n`, that is not among `used`;
/// `fuel` bounds the search.
pub open spec fn first_fresh_candidate(
    base: Seq<char>,
    used: Seq<Seq<char>>,
    n: nat,
    fuel: nat,
) -> Seq<char>
    decreases fuel,
{
    if fuel == 0 || !used.contains(id_candidate(base, n)) {
        id_candidate(base, n)
    } else {
        first_fresh_candidate(base, used, n + 1, (fuel - 1) as nat)
    }
}

/// The anchor assigned to a heading whose base slug is `base` when the
/// anchors in `used` are already taken: the first fresh candidate.
pub open spec fn unique_id_spec(base: Seq<char>, used: Seq<Seq<char>>) -> Seq<char> {
    first_fresh_candidate(base, used, 0, used.len() + 1)
}

proof fn lemma_first_fresh_from(base: Seq<char>, used: Seq<Seq<char>>, j: nat, n: nat, fuel: nat)
    requires
        j <= n,
        fuel >= n - j + 1,
        !used.contains(id_candidate(base, n)),
        forall|m: nat| j <= m < n ==> used.contains(#[trigger] id_candidate(base, m)),
    ensures
        first_fresh_candidate(base, used, j, fuel) == id_candidate(base, n),
    decreases n - j,
{
    if j < n {
        assert(used.contains(id_candidate(base, j)));
        lemma_first_fresh_from(base, used, j + 1, n, (fuel - 1) as nat);
    }
}

/// The assigned anchor is the candidate with the smallest fresh counter.
pub proof fn lemma_unique_id_characterized(base: Seq<char>, used: Seq<Seq<char>>, n: nat)
    requires
        !used.contains(id_candidate(base, n)),
        forall|m: nat| m < n ==> used.contains(#[trigger] id_candidate(base, m)),
    ensures
        unique_id_spec(base, used) == id_candidate(base, n),
{
    lemma_used_candidates_bound(base, used, n);
    lemma_first_fresh_from(base, used, 0, n, used.len() + 1);
}

/// Some counter at most `used.len()` has a fresh candidate, and then a
/// smallest such counter exists.
pub proof fn lemma_minimal_fresh_exists(base: Seq<char>, used: Seq<Seq<char>>)
    ensures
        exists|n: nat|
            !used.contains(#[trigger] id_candidate(base, n)) && (forall|m: nat|
                m < n ==> used.contains(#[trigger] id_candidate(base, m))),
{
    let bound = (used.len() + 1) as nat;
    assert(exists|n: nat| n <= bound && !used.contains(#[trigger] id_candidate(base, n))) by {
        if forall|n: nat| n <= bound ==> used.contains(#[trigger] id_candidate(base, n)) {
            assert(forall|m: nat|
                m < bound + 1 ==> used.contains(#[trigger] id_candidate(base, m)));
            lemma_used_candidates_bound(base, used, bound + 1);
            assert(false);
        }
    }
    let some_fresh = choose|n: nat| n <= bound && !used.contains(#[trigger] id_candidate(base, n));
    lemma_minimal_fresh_below(base, used, some_fresh);
}

proof fn lemma_minimal_fresh_below(base: Seq<char>, used: Seq<Seq<char>>, k: nat)
    requires
        !used.contains(id_candidate(base, k)),
    ensures
        exists|n: nat|
            !used.contains(#[trigger] id_candidate(base, n)) && (forall|m: nat|
                m < n ==> used.contains(#[trigger] id_candidate(base, m))),
    decreases k,
{
    if forall|m: nat| m < k ==> used.contains(#[trigger] id_candidate(base, m)) {
        assert(!used.contains(id_candidate(base, k)) && (forall|m: nat|
            m < k ==> used.contains(#[trigger] id_candidate(base, m))));
    } else {
        let w = choose|m: nat| m < k && !used.contains(#[trigger] id_candidate(base, m));
        lemma_minimal_fresh_below(base, used, w);
    }
}

/// The assigned anchor never collides with a used one.
pub proof fn lemma_unique_id_fresh(base: Seq<char>, used: Seq<Seq<char>>)
    ensures
        !used.contains(unique_id_spec(base, used)),
{
    lemma_minimal_fresh_exists(base, used);
    let n = choose|n: nat|
        !used.contains(#[trigger] id_candidate(base, n)) && (forall|m: nat|
            m < n ==> used.contains(#[trigger] id_candidate(base, m)));
    lemma_unique_id_characterized(base, used, n);
}

/// Law: the first occurrence of a heading text keeps the bare slug.
/// If the slug is not yet taken, it is assigned as it stands.
pub proof fn lemma_first_occurrence_keeps_slug(base: Seq<char>, used: Seq<Seq<char>>)
    requires
        !used.contains(id_candidate(base, 0)),
    ensures
        unique_id_spec(base, used) == id_candidate(base, 0),
{
    lemma_unique_id_characterized(base, used, 0);
}

/// Law: the second occurrence of a heading text gets the suffix `-1`.
/// If the bare slug is taken but `slug-1` is not, the assigned anchor is
/// `slug-1`.
pub proof fn lemma_second_occurrence_gets_suffix_one(base: Seq<char>, used: Seq<Seq<char>>)
    requires
        used.contains(id_candidate(base, 0)),
        !used.contains(id_candidate(base, 1)),
    ensures
        unique_id_spec(base, used) == id_candidate(base, 1),
{
    lemma_unique_id_characterized(base, used, 1);
}

/// Law: the third occurrence of a heading text gets the suffix `-2`.
/// If the bare slug, and `slug-1`, are taken but `slug-2` is not, the
/// assigned anchor is `slug-2`.
pub proof fn lemma_third_occurrence_gets_suffix_two(base: Seq<char>, used: Seq<Seq<char>>)
    requires
        used.contains(id_candidate(base, 0)),
        used.contains(id_candidate(base, 1)),
        !used.contains(id_candidate(base, 2)),
    ensures
        unique_id_spec(base, used) == id_candidate(base, 2),
{
    assert forall|m: nat| m < 2 implies used.contains(#[trigger] id_candidate(base, m)) by {
        if m == 0 {
            assert(used.contains(id_candidate(base, 0)));
        } else {
            assert(m == 1);
        }
    }
    lemma_unique_id_characterized(base, used, 2);
}

fn contains_id(heading_infos: &Vec<HeadingInfo>, id: &String) -> (r: bool)
    ensures
        r == rec_ids(infos_view(heading_infos@)).contains(id@),
{
    let ghost ids = rec_ids(infos_view(heading_infos@));
    let n = heading_infos.len();
    for i in 0..n
        invariant
            n == heading_infos.len(),
            ids == rec_ids(infos_view(heading_infos@)),
            forall|j: int| 0 <= j < i ==> ids[j] != id@,
        decreases n - i,
    {
        if heading_infos[i].id == *id {
            proof {
                assert(ids[i as int] == id@);
            }
            return true;
        }
        proof {
            assert(ids[i as int] == heading_infos@[i as int].id@);
        }
    }
    proof {
        if ids.contains(id@) {
            let j = choose|j: int| 0 <= j < ids.len() && ids[j] == id@;
            assert(false);
        }
    }
    false
}

/// Derives the anchor for heading text `text`, avoiding every anchor already
/// present in `heading_infos`: the bare slug if it is free, else `slug-N`
/// with the smallest positive `N` that is free.
pub fn generate_unique_id(text: &str, heading_infos: &Vec<HeadingInfo>) -> (r: String)
    ensures
        r@ == unique_id_spec(slug_of(text@), rec_ids(infos_view(heading_infos@))),
{
    let ghost used = rec_ids(infos_view(heading_infos@));
    let n_infos = heading_infos.len();
    proof {
        assert(used.len() == n_infos);
    }
    let base = slug(text);
    let mut id = base.clone();
    let mut count: usize = 0;
    proof {
        assert(id@ =~= id_candidate(base@, 0));
    }
    while contains_id(heading_infos, &id)
        invariant
            base@ == slug_of(text@),
            used == rec_ids(infos_view(heading_infos@)),
            used.len() == n_infos,
            count <= used.len(),
            id@ == id_candidate(base@, count as nat),
            forall|m: nat| m < count ==> used.contains(#[trigger] id_candidate(base@, m)),
        decreases used.len() - count,
    {
        proof {
            assert(used.contains(id_candidate(base@, count as nat)));
            assert(forall|m: nat|
                m < count + 1 ==> used.contains(#[trigger] id_candidate(base@, m)));
            lemma_used_candidates_bound(base@, used, (count + 1) as nat);
        }
        count = count + 1;
        let mut next = base.clone();
        push_char(&mut next, '-');
        let digits = u64_to_string(count as u64);
        next.append(digits.as_str());
        proof {
            assert(next@ =~= base@ + seq!['-'] + dec_digits(count as nat));
        }
        id = next;
    }
    proof {
        lemma_unique_id_characterized(base@, used, count as nat);
    }
    id
}

/// The record assigned to one raw heading, given the records already
/// collected before it.
pub open spec fn heading_rec_for(rh: RawHeading, prev: Seq<HeadingRec>) -> HeadingRec {
    HeadingRec { level: rh.level, id: unique_id_spec(slug_of(rh.text), rec_ids(prev)), text: rh.text }
}

/// Appends the records for `raws` to the already-collected `cur`, assigning
/// each heading the anchor that is unique against everything before it.
pub open spec fn extend_ids(cur: Seq<HeadingRec>, raws: Seq<RawHeading>) -> Seq<HeadingRec>
    decreases raws.len(),
{
    if raws.len() == 0 {
        cur
    } else {
        let prev = extend_ids(cur, raws.drop_last());
        prev.push(heading_rec_for(raws.last(), prev))
    }
}

/// The records collected for a whole document, in document order.
pub open spec fn assign_ids(raws: Seq<RawHeading>) -> Seq<HeadingRec> {
    extend_ids(Seq::empty(), raws)
}

pub proof fn lemma_extend_ids_concat(cur: Seq<HeadingRec>, a: Seq<RawHeading>, b: Seq<RawHeading>)
    ensures
        extend_ids(cur, a + b) == extend_ids(extend_ids(cur, a), b),
    decreases b.len(),
{
    if b.len() == 0 {
        assert(a + b =~= a);
    } else {
        assert((a + b).drop_last() =~= a + b.drop_last());
        assert((a + b).last() == b.last());
        lemma_extend_ids_concat(cur, a, b.drop_last());
    }
}

pub proof fn lemma_extend_ids_single(cur: Seq<HeadingRec>, rh: RawHeading)
    ensures
        extend_ids(cur, seq![rh]) == cur.push(heading_rec_for(rh, cur)),
{
    let s = seq![rh];
    assert(s.drop_last() =~= Seq::<RawHeading>::empty());
    assert(extend_ids(cur, Seq::<RawHeading>::empty()) == cur);
    assert(s.last() == rh);
}

/// Collects the document's headings in document order, assigning each its
/// unique anchor; appends to records collected so far.
pub fn collect_heading_info_recursive(node: &MdNode, heading_infos: &mut Vec<HeadingInfo>)
    ensures
        infos_view(final(heading_infos)@) == extend_ids(
            infos_view(old(heading_infos)@),
            headings_of(*node),
        ),
    decreases *node,
{
    let ghost cur0 = infos_view(old(heading_infos)@);
    let ghost raw_own: Seq<RawHeading> = match node.kind {
        NodeKind::Heading { level } => seq![RawHeading { level, text: flat_text(*node) }],
        _ => Seq::empty(),
    };
    match &node.kind {
        NodeKind::Heading { level } => {
            let text = get_node_text(node);
            let id = generate_unique_id(text.as_str(), heading_infos);
            let info = HeadingInfo { level: *level, id, text };
            proof {
                assert(info@ == heading_rec_for(raw_own[0], cur0));
            }
            heading_infos.push(info);
            proof {
                assert(infos_view(heading_infos@) =~= cur0.push(heading_rec_for(raw_own[0], cur0)));
                lemma_extend_ids_single(cur0, raw_own[0]);
            }
        },
        _ => {
            proof {
                assert(extend_ids(cur0, raw_own) == cur0);
            }
        },
    }
    let ghost cur1 = infos_view(heading_infos@);
    let n = node.children.len();
    for i in 0..n
        invariant
            n == node.children.len(),
            cur1 == extend_ids(cur0, raw_own),
            infos_view(heading_infos@) == extend_ids(cur1, headings_of_seq(node.children@.take(i as int))),
        decreases n - i,
    {
        proof {
            assert(decreases_to!(*node => node.children));
            assert(decreases_to!(node.children => node.children@));
            assert(decreases_to!(node.children@ => node.children@[i as int]));
        }
        let ghost before = infos_view(heading_infos@);
        collect_heading_info_recursive(&node.children[i], heading_infos);
        proof {
            let taken = headings_of_seq(node.children@.take(i as int));
            let child = node.children@[i as int];
            lemma_extend_ids_concat(cur1, taken, headings_of(child));
            assert(node.children@.take(i + 1) =~= node.children@.take(i as int).push(child));
            lemma_headings_of_seq_push(node.children@.take(i as int), child);
        }
    }
    proof {
        assert(node.children@.take(n as int) =~= node.children@);
        lemma_extend_ids_concat(cur0, raw_own, headings_of_seq(node.children@));
        assert(raw_own + headings_of_seq(node.children@) =~= headings_of(*node));
    }
}

/// Collects the document's headings in document order, each with its unique
/// anchor.
pub fn collect_heading_info(node: &MdNode) -> (r: Vec<HeadingInfo>)
    ensures
        infos_view(r@) == assign_ids(headings_of(*node)),
{
    let mut heading_infos: Vec<HeadingInfo> = Vec::new();
    proof {
        assert(infos_view(heading_infos@) =~= Seq::<HeadingRec>::empty());
    }
    collect_heading_info_recursive(node, &mut heading_infos);
    heading_infos
}

pub open spec fn strs_view(s: Seq<String>) -> Seq<Seq<char>> {
    s.map_values(|x: String| x@)
}

/// The set of anchor identifiers of the document, in document order.
pub fn find_heading_ids(node: &MdNode) -> (r: Vec<String>)
    ensures
        strs_view(r@) == rec_ids(assign_ids(headings_of(*node))),
{
    let infos = collect_heading_info(node);
    let mut ids: Vec<String> = Vec::new();
    let n = infos.len();
    for i in 0..n
        invariant
            n == infos.len(),
            infos_view(infos@) == assign_ids(headings_of(*node)),
            ids@.len() == i,
            forall|j: int| 0 <= j < i ==> ids@[j]@ == infos@[j].id@,
        decreases n - i,
    {
        ids.push(infos[i].id.clone());
    }
    proof {
        assert(strs_view(ids@) =~= rec_ids(assign_ids(headings_of(*node))));
    }
    ids
}

/// The indentation of a table-of-contents entry: two spaces per level.
pub open spec fn indent_spec(k: nat) -> Seq<char>
    decreases k,
{
    if k == 0 {
        Seq::empty()
    } else {
        indent_spec((k - 1) as nat) + "  "@
    }
}

/// One rendered table-of-contents line.
pub open spec fn toc_entry(r: HeadingRec) -> Seq<char>
    recommends
        r.level >= 1,
{
    indent_spec((r.level - 1) as nat) + "- ["@ + r.text + "](#"@ + r.id + ")\n"@
}

/// The rendered table of contents, one line per heading.
pub open spec fn toc_spec(recs: Seq<HeadingRec>) -> Seq<char>
    decreases recs.len(),
{
    if recs.len() == 0 {
        Seq::empty()
    } else {
        toc_spec(recs.drop_last()) + toc_entry(recs.last())
    }
}

/// Renders the table of contents: each heading becomes one line, indented by
/// its level, linking its text to its anchor.
pub fn generate_toc(heading_infos: &Vec<HeadingInfo>) -> (r: String)
    requires
        forall|j: int| 0 <= j < heading_infos@.len() ==> #[trigger] heading_infos@[j].level >= 1,
    ensures
        r@ == toc_spec(infos_view(heading_infos@)),
{
    let ghost recs = infos_view(heading_infos@);
    let mut toc = String::new();
    let n = heading_infos.len();
    for i in 0..n
        invariant
            n == heading_infos.len(),
            recs == infos_view(heading_infos@),
            forall|j: int| 0 <= j < heading_infos@.len() ==> #[trigger] heading_infos@[j].level >= 1,
            toc@ == toc_spec(recs.take(i as int)),
        decreases n - i,
    {
        let level = heading_infos[i].level;
        let ind_n = (level - 1) as usize;
        for k in 0..ind_n
            invariant
                ind_n == level - 1,
                toc@ == toc_spec(recs.take(i as int)) + indent_spec(k as nat),
            decreases ind_n - k,
        {
            toc.append("  ");
        }
        toc.append("- [");
        toc.append(heading_infos[i].text.as_str());
        toc.append("](#");
        toc.append(heading_infos[i].id.as_str());
        toc.append(")\n");
        proof {
            assert(recs[i as int] == heading_infos@[i as int]@);
            assert(recs.take(i + 1).drop_last() =~= recs.take(i as int));
            assert(recs.take(i + 1).last() == recs[i as int]);
            assert(toc@ =~= toc_spec(recs.take(i as int)) + toc_entry(recs[i as int]));
        }
    }
    proof {
        assert(recs.take(n as int) =~= recs);
    }
    toc
}

/// No two collected headings share an anchor identifier.
pub open spec fn ids_unique(s: Seq<HeadingRec>) -> bool {
    forall|i: int, j: int| 0 <= i < j < s.len() ==> s[i].id != s[j].id
}

pub proof fn lemma_extend_ids_unique(cur: Seq<HeadingRec>, raws: Seq<RawHeading>)
    requires
        ids_unique(cur),
    ensures
        ids_unique(extend_ids(cur, raws)),
    decreases raws.len(),
{
    if raws.len() != 0 {
        lemma_extend_ids_unique(cur, raws.drop_last());
        let prev = extend_ids(cur, raws.drop_last());
        let rec = heading_rec_for(raws.last(), prev);
        lemma_unique_id_fresh(slug_of(raws.last().text), rec_ids(prev));
        let r = prev.push(rec);
        assert forall|i: int, j: int| 0 <= i < j < r.len() implies r[i].id != r[j].id by {
            if j < r.len() - 1 {
                assert(prev[i].id != prev[j].id);
            } else {
                assert(r[j] == rec);
                if r[i].id == rec.id {
                    assert(rec_ids(prev)[i] == rec.id);
                    assert(rec_ids(prev).contains(rec.id));
                    assert(false);
                }
            }
        }
    }
}

/// Law: anchor identifiers are unique across the whole document.
pub proof fn lemma_collected_ids_unique(raws: Seq<RawHeading>)
    ensures
        ids_unique(assign_ids(raws)),
{
    lemma_extend_ids_unique(Seq::empty(), raws);
}

/// Assigning anchors keeps every heading's level and text, in order.
pub proof fn lemma_extend_ids_fields(cur: Seq<HeadingRec>, raws: Seq<RawHeading>)
    ensures
        extend_ids(cur, raws).len() == cur.len() + raws.len(),
        forall|i: int| 0 <= i < cur.len() ==> extend_ids(cur, raws)[i] == cur[i],
        forall|i: int|
            0 <= i < raws.len() ==> (#[trigger] extend_ids(cur, raws)[cur.len() + i]).level
                == raws[i].level && extend_ids(cur, raws)[cur.len() + i].text == raws[i].text,
    decreases raws.len(),
{
    if raws.len() != 0 {
        lemma_extend_ids_fields(cur, raws.drop_last());
        let prev = extend_ids(cur, raws.drop_last());
        let r = prev.push(heading_rec_for(raws.last(), prev));
        assert forall|i: int|
            0 <= i < raws.len() implies (#[trigger] r[cur.len() + i]).level == raws[i].level && r[
            cur.len() + i].text == raws[i].text by {
            if i < raws.len() - 1 {
                assert(raws.drop_last()[i] == raws[i]);
                assert(r[cur.len() + i] == prev[cur.len() + i]);
            } else {
                assert(r[cur.len() + i] == heading_rec_for(raws.last(), prev));
            }
        }
    }
}

/// Law: every collected heading record of a well-formed tree has its level
/// in 1..=6.
pub proof fn lemma_collected_levels_wf(t: MdNode, src_len: nat)
    requires
        node_wf(t, src_len),
    ensures
        forall|i: int|
            0 <= i < assign_ids(headings_of(t)).len() ==> 1 <= (#[trigger] assign_ids(
                headings_of(t),
            )[i]).level <= 6,
{
    lemma_headings_of_wf(t, src_len);
    lemma_extend_ids_fields(Seq::empty(), headings_of(t));
    let raws = headings_of(t);
    let recs = assign_ids(raws);
    assert forall|i: int| 0 <= i < recs.len() implies 1 <= (#[trigger] recs[i]).level <= 6 by {
        assert(recs[0 + i].level == raws[i].level);
    }
}

/// Law: heading collection is deterministic. The collected records are a
/// function of the tree alone, so collecting twice from the same unmodified
/// tree yields identical sequences, identifiers included.
pub proof fn lemma_collect_deterministic(t: MdNode, r1: Seq<HeadingRec>, r2: Seq<HeadingRec>)
    requires
        r1 == assign_ids(headings_of(t)),
        r2 == assign_ids(headings_of(t)),
    ensures
        r1 == r2,
{
}

} // verus!
