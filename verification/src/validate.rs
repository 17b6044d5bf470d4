//! The structure validator: heading-hierarchy rules over the collected
//! heading sequence. Violations are accumulated, never short-circuited.

use vstd::prelude::*;

use crate::node::MdNode;
use crate::node::headings_of;
use crate::text::dec_digits;
use crate::text::u64_to_string;
use crate::toc::HeadingInfo;
use crate::toc::HeadingRec;
use crate::toc::assign_ids;
use crate::toc::collect_heading_info;
use crate::toc::infos_view;

verus! {

/// One structural violation, with enough context for batched reporting.
#[derive(Debug, PartialEq, Eq, Clone)]
pub struct StructureError {
    pub file: String,
    pub heading: Option<String>,
    pub error: String,
}

/// The mathematical shadow of a `StructureError`.
pub ghost struct StructErrRec {
    pub file: Seq<char>,
    pub heading: Option<Seq<char>>,
    pub error: Seq<char>,
}

impl View for StructureError {
    type V = StructErrRec;

    open spec fn view(&self) -> StructErrRec {
        StructErrRec {
            file: self.file@,
            heading: match self.heading {
                Some(h) => Some(h@),
                None => None,
            },
            error: self.error@,
        }
    }
}

pub open spec fn errs_view(s: Seq<StructureError>) -> Seq<StructErrRec> {
    s.map_values(|e: StructureError| e@)
}

pub open spec fn msg_multiple_h1() -> Seq<char> {
    "More than one H1 heading found."@
}

pub open spec fn msg_level_order() -> Seq<char> {
    "Invalid heading level order."@
}

pub open spec fn msg_repeated(text: Seq<char>, level: u32) -> Seq<char> {
    "Repeated heading '"@ + text + "' at level "@ + dec_digits(level as nat) + "."@
}

pub open spec fn struct_err(file: Seq<char>, text: Seq<char>, msg: Seq<char>) -> StructErrRec {
    StructErrRec { file, heading: Some(text), error: msg }
}

/// The level of the heading before `i`, 0 before the first one.
pub open spec fn prev_level(hs: Seq<HeadingRec>, i: int) -> int {
    if i == 0 {
        0
    } else {
        hs[i - 1].level as int
    }
}

pub open spec fn has_earlier_h1(hs: Seq<HeadingRec>, i: int) -> bool {
    exists|j: int| 0 <= j < i && hs[j].level == 1
}

pub open spec fn has_earlier_dup(hs: Seq<HeadingRec>, i: int) -> bool {
    exists|j: int| 0 <= j < i && hs[j].level == hs[i].level && hs[j].text == hs[i].text
}

/// The errors heading `i` contributes: a second H1, a level skip, and a
/// repeated text at the same level, in that order.
pub open spec fn errors_at(hs: Seq<HeadingRec>, i: int, file: Seq<char>) -> Seq<StructErrRec> {
    let e1: Seq<StructErrRec> = if hs[i].level == 1 && has_earlier_h1(hs, i) {
        seq![struct_err(file, hs[i].text, msg_multiple_h1())]
    } else {
        Seq::empty()
    };
    let e2: Seq<StructErrRec> = if hs[i].level > prev_level(hs, i) + 1 {
        seq![struct_err(file, hs[i].text, msg_level_order())]
    } else {
        Seq::empty()
    };
    let e3: Seq<StructErrRec> = if has_earlier_dup(hs, i) {
        seq![struct_err(file, hs[i].text, msg_repeated(hs[i].text, hs[i].level))]
    } else {
        Seq::empty()
    };
    e1 + e2 + e3
}

/// All structural errors of a heading sequence, in document order.
pub open spec fn structure_errors(hs: Seq<HeadingRec>, file: Seq<char>) -> Seq<StructErrRec>
    decreases hs.len(),
{
    if hs.len() == 0 {
        Seq::empty()
    } else {
        structure_errors(hs.drop_last(), file) + errors_at(hs, hs.len() - 1, file)
    }
}

/// `errors_at` only reads entries up to `i`, so a longer sequence with the
/// same prefix contributes the same errors.
proof fn lemma_errors_at_prefix(hs: Seq<HeadingRec>, longer: Seq<HeadingRec>, i: int)
    requires
        0 <= i < hs.len(),
        hs.len() <= longer.len(),
        forall|j: int| 0 <= j < hs.len() ==> hs[j] == longer[j],
    ensures
        forall|file: Seq<char>| errors_at(hs, i, file) == errors_at(longer, i, file),
{
    assert forall|file: Seq<char>| errors_at(hs, i, file) == errors_at(longer, i, file) by {
        assert(has_earlier_h1(hs, i) == has_earlier_h1(longer, i)) by {
            if has_earlier_h1(hs, i) {
                let j = choose|j: int| 0 <= j < i && hs[j].level == 1;
                assert(longer[j].level == 1);
            }
            if has_earlier_h1(longer, i) {
                let j = choose|j: int| 0 <= j < i && longer[j].level == 1;
                assert(hs[j].level == 1);
            }
        }
        assert(has_earlier_dup(hs, i) == has_earlier_dup(longer, i)) by {
            if has_earlier_dup(hs, i) {
                let j = choose|j: int|
                    0 <= j < i && hs[j].level == hs[i].level && hs[j].text == hs[i].text;
                assert(longer[j].level == longer[i].level && longer[j].text == longer[i].text);
            }
            if has_earlier_dup(longer, i) {
                let j = choose|j: int|
                    0 <= j < i && longer[j].level == longer[i].level && longer[j].text
                        == longer[i].text;
                assert(hs[j].level == hs[i].level && hs[j].text == hs[i].text);
            }
        }
        assert(prev_level(hs, i) == prev_level(longer, i));
        assert(errors_at(hs, i, file) =~= errors_at(longer, i, file));
    }
}

fn repeated_heading_message(text: &String, level: u32) -> (r: String)
    ensures
        r@ == msg_repeated(text@, level),
{
    let mut msg = String::new();
    msg.append("Repeated heading '");
    msg.append(text.as_str());
    msg.append("' at level ");
    let digits = u64_to_string(level as u64);
    msg.append(digits.as_str());
    msg.append(".");
    proof {
        assert(msg@ =~= msg_repeated(text@, level));
    }
    msg
}

/// Checks the heading-hierarchy rules over a collected heading sequence:
/// at most one H1, no level skipping, no repeated text within a level.
/// Every violation is reported; the validator never stops early.
pub fn validate_structure(heading_infos: &Vec<HeadingInfo>, file: &String) -> (r: Vec<
    StructureError,
>)
    ensures
        errs_view(r@) == structure_errors(infos_view(heading_infos@), file@),
{
    let ghost hs = infos_view(heading_infos@);
    let mut errors: Vec<StructureError> = Vec::new();
    let mut h1_seen = false;
    let mut last_seen_level: u32 = 0;
    let n = heading_infos.len();
    proof {
        assert(errs_view(errors@) =~= Seq::<StructErrRec>::empty());
        assert(errs_view(errors@) == structure_errors(hs.take(0), file@));
    }
    for i in 0..n
        invariant
            n == heading_infos.len(),
            hs == infos_view(heading_infos@),
            errs_view(errors@) == structure_errors(hs.take(i as int), file@),
            h1_seen == has_earlier_h1(hs, i as int),
            last_seen_level as int == prev_level(hs, i as int),
        decreases n - i,
    {
        let level = heading_infos[i].level;
        let text = &heading_infos[i].text;
        proof {
            assert(hs[i as int] == heading_infos@[i as int]@);
        }
        let ghost before = errs_view(errors@);
        if level == 1 && h1_seen {
            errors.push(
                StructureError {
                    file: file.clone(),
                    heading: Some(text.clone()),
                    error: String::from_str("More than one H1 heading found."),
                },
            );
        }
        if (level as u64) > (last_seen_level as u64) + 1 {
            errors.push(
                StructureError {
                    file: file.clone(),
                    heading: Some(text.clone()),
                    error: String::from_str("Invalid heading level order."),
                },
            );
        }
        let mut dup = false;
        for j in 0..i
            invariant
                n == heading_infos.len(),
                i < n,
                hs == infos_view(heading_infos@),
                level == hs[i as int].level,
                text@ == hs[i as int].text,
                dup == (exists|k: int|
                    0 <= k < j && hs[k].level == hs[i as int].level && hs[k].text == hs[i as int].text),
            decreases i - j,
        {
            if heading_infos[j].level == level && heading_infos[j].text == *text {
                proof {
                    assert(hs[j as int].level == hs[i as int].level && hs[j as int].text == hs[i as int].text);
                }
                dup = true;
            }
        }
        if dup {
            let msg = repeated_heading_message(text, level);
            errors.push(
                StructureError { file: file.clone(), heading: Some(text.clone()), error: msg },
            );
        }
        proof {
            assert(dup == has_earlier_dup(hs, i as int));
            assert(errs_view(errors@) =~= before + errors_at(hs, i as int, file@));
            assert(hs.take(i + 1).drop_last() =~= hs.take(i as int));
            assert(hs.take(i + 1).last() == hs[i as int]);
            lemma_errors_at_prefix(hs.take(i + 1), hs, i as int);
            assert(structure_errors(hs.take(i + 1), file@) == structure_errors(
                hs.take(i as int),
                file@,
            ) + errors_at(hs.take(i + 1), i as int, file@));
            assert(errs_view(errors@) == structure_errors(hs.take(i + 1), file@));
            if level == 1 {
                assert(has_earlier_h1(hs, i + 1));
            } else {
                if has_earlier_h1(hs, i + 1) {
                    let j = choose|j: int| 0 <= j < i + 1 && hs[j].level == 1;
                    assert(0 <= j < i);
                }
            }
        }
        h1_seen = h1_seen || level == 1;
        last_seen_level = level;
    }
    proof {
        assert(hs.take(n as int) =~= hs);
    }
    errors
}

/// Collects the headings of the tree and checks the hierarchy rules,
/// returning `Ok` exactly when no rule is violated.
pub fn validate_document_structure(root: &MdNode, input_file: &String) -> (r: Result<
    (),
    Vec<StructureError>,
>)
    ensures
        match r {
            Ok(()) => structure_errors(assign_ids(headings_of(*root)), input_file@).len() == 0,
            Err(errs) => errs_view(errs@) == structure_errors(
                assign_ids(headings_of(*root)),
                input_file@,
            ) && errs@.len() > 0,
        },
{
    let heading_infos = collect_heading_info(root);
    let errors = validate_structure(&heading_infos, input_file);
    if errors.len() == 0 {
        proof {
            assert(errs_view(errors@).len() == errors@.len());
        }
        Ok(())
    } else {
        Err(errors)
    }
}

/// Law: a heading sequence whose levels never skip (each at most one more
/// than the one before it, the first at most 1), with at most one H1 and no
/// repeated text within a level, yields no structural errors.
pub proof fn lemma_valid_structure_no_errors(hs: Seq<HeadingRec>, file: Seq<char>)
    requires
        forall|i: int| 0 <= i < hs.len() ==> hs[i].level <= prev_level(hs, i) + 1,
        forall|i: int, j: int|
            0 <= i < j < hs.len() ==> !(hs[i].level == 1 && hs[j].level == 1),
        forall|i: int, j: int|
            0 <= i < j < hs.len() ==> !(hs[i].level == hs[j].level && hs[i].text == hs[j].text),
    ensures
        structure_errors(hs, file).len() == 0,
    decreases hs.len(),
{
    if hs.len() > 0 {
        let shorter = hs.drop_last();
        assert forall|i: int| 0 <= i < shorter.len() implies shorter[i].level <= prev_level(
            shorter,
            i,
        ) + 1 by {
            assert(shorter[i] == hs[i]);
            assert(prev_level(shorter, i) == prev_level(hs, i));
        }
        lemma_valid_structure_no_errors(shorter, file);
        let i = hs.len() - 1;
        if has_earlier_h1(hs, i) && hs[i].level == 1 {
            let j = choose|j: int| 0 <= j < i && hs[j].level == 1;
            assert(false);
        }
        if has_earlier_dup(hs, i) {
            let j = choose|j: int|
                0 <= j < i && hs[j].level == hs[i].level && hs[j].text == hs[i].text;
            assert(false);
        }
        assert(errors_at(hs, i, file) =~= Seq::<StructErrRec>::empty());
    }
}

} // verus!
