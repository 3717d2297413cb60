//! Column classification: the header row must name the item-code, size-code
//! and measurement-text columns, each by its fixed label, exactly once.

use vstd::prelude::*;
use vstd::string::StringExecFns;
use crate::errors::Error;
use crate::text::{chars_to_string, str_to_chars, trim_chars, trim_spec};

verus! {

/// One of the three fixed header labels: item code (品番), size code (SZ),
/// measurement text (採寸).
pub open spec fn is_header_label(t: Seq<char>) -> bool {
    t == "品番"@ || t == "SZ"@ || t == "採寸"@
}

/// How many cells of `hs` trim to the label `lab`.
pub open spec fn count_label(hs: Seq<String>, lab: Seq<char>) -> nat
    decreases hs.len(),
{
    if hs.len() == 0 {
        0
    } else {
        count_label(hs.drop_last(), lab) + (if trim_spec(hs.last()@) == lab {
            1nat
        } else {
            0nat
        })
    }
}

/// The header names each of the three labels exactly once.
pub open spec fn classify_ok(hs: Seq<String>) -> bool {
    &&& count_label(hs, "品番"@) == 1
    &&& count_label(hs, "SZ"@) == 1
    &&& count_label(hs, "採寸"@) == 1
}

/// The index of the cell that trims to `lab`.
pub open spec fn label_index(hs: Seq<String>, lab: Seq<char>) -> int {
    choose|i: int| 0 <= i < hs.len() && trim_spec(hs[i]@) == lab
}

proof fn lemma_label_unique(hs: Seq<String>, lab: Seq<char>, j: int)
    requires
        count_label(hs, lab) == 1,
        0 <= j < hs.len(),
        trim_spec(hs[j]@) == lab,
    ensures
        forall|k: int| 0 <= k < hs.len() && trim_spec(hs[k]@) == lab ==> k == j,
    decreases hs.len(),
{
    assert(forall|k: int| 0 <= k < hs.len() - 1 ==> hs.drop_last()[k] == hs[k]);
    if trim_spec(hs.last()@) == lab {
        lemma_label_count_zero(hs.drop_last(), lab);
        assert(j == hs.len() - 1);
    } else {
        assert(j < hs.len() - 1);
        lemma_label_unique(hs.drop_last(), lab, j);
        assert forall|k: int| 0 <= k < hs.len() && trim_spec(hs[k]@) == lab implies k == j by {
            assert(k < hs.len() - 1);
            assert(trim_spec(hs.drop_last()[k]@) == lab);
        }
    }
}

proof fn lemma_label_count_zero(hs: Seq<String>, lab: Seq<char>)
    ensures
        (count_label(hs, lab) == 0) <==> (forall|k: int|
            0 <= k < hs.len() ==> trim_spec(hs[k]@) != lab),
    decreases hs.len(),
{
    if hs.len() > 0 {
        lemma_label_count_zero(hs.drop_last(), lab);
        assert(forall|k: int| 0 <= k < hs.len() - 1 ==> hs.drop_last()[k] == hs[k]);
        if count_label(hs, lab) == 0 {
            assert forall|k: int| 0 <= k < hs.len() implies trim_spec(hs[k]@) != lab by {
                if k < hs.len() - 1 {
                    assert(trim_spec(hs.drop_last()[k]@) != lab);
                }
            }
        }
    }
}

/// A cell with the unique label `j` pins `label_index` down.
pub proof fn lemma_label_index_is(hs: Seq<String>, lab: Seq<char>, j: int)
    requires
        count_label(hs, lab) == 1,
        0 <= j < hs.len(),
        trim_spec(hs[j]@) == lab,
    ensures
        label_index(hs, lab) == j,
{
    assert(0 <= j < hs.len() && trim_spec(hs[j]@) == lab);
    let j2 = label_index(hs, lab);
    assert(0 <= j2 < hs.len() && trim_spec(hs[j2]@) == lab) by {
        assert(exists|k: int| 0 <= k < hs.len() && trim_spec(hs[k]@) == lab);
    }
    lemma_label_unique(hs, lab, j);
}

/// The cell `s`, trimmed, against the three labels: its index when it is one
/// of them.
pub fn check_column(i: usize, s: &str) -> (r: Result<usize, Error>)
    ensures
        match r {
            Ok(j) => j == i && is_header_label(trim_spec(s@)),
            Err(e) => e is InvalidSheetFormat && !is_header_label(trim_spec(s@)),
        },
{
    let v = str_to_chars(s);
    let t = trim_chars(&v);
    let ts = chars_to_string(&t);
    if ts == String::from_str("品番") || ts == String::from_str("SZ") || ts == String::from_str(
        "採寸",
    ) {
        Ok(i)
    } else {
        Err(Error::InvalidSheetFormat)
    }
}

/// The index of the single cell that trims to `label`, or `None` when no cell
/// or more than one does.
fn find_unique_label(header: &Vec<String>, label: &str) -> (r: Option<usize>)
    ensures
        match r {
            Some(i) => count_label(header@, label@) == 1 && i < header@.len() && trim_spec(
                header@[i as int]@,
            ) == label@,
            None => count_label(header@, label@) != 1,
        },
{
    let lab = String::from_str(label);
    let mut cnt: usize = 0;
    let mut pos: usize = 0;
    let mut i: usize = 0;
    proof {
        assert(header@.take(0) =~= Seq::<String>::empty());
    }
    while i < header.len()
        invariant
            i <= header@.len(),
            cnt <= i,
            lab@ == label@,
            cnt == count_label(header@.take(i as int), label@),
            cnt >= 1 ==> (pos < i && trim_spec(header@[pos as int]@) == label@),
        decreases header@.len() - i,
    {
        proof {
            assert(header@.take(i + 1 as int).drop_last() =~= header@.take(i as int));
            assert(header@.take(i + 1 as int).last() == header@[i as int]);
        }
        let v = str_to_chars(header[i].as_str());
        let t = trim_chars(&v);
        let ts = chars_to_string(&t);
        if ts == lab {
            if cnt == 0 {
                pos = i;
            }
            cnt = cnt + 1;
        }
        i = i + 1;
    }
    proof {
        assert(header@.take(header@.len() as int) =~= header@);
    }
    if cnt == 1 {
        Some(pos)
    } else {
        None
    }
}

/// The indices of the item-code, size-code and measurement-text columns, in
/// that fixed semantic order wherever the labels stand in the header. Fails
/// unless each label matches exactly one cell.
pub fn get_column_indices(header: &Vec<String>) -> (r: Result<(usize, usize, usize), Error>)
    ensures
        match r {
            Ok(idx) => classify_ok(header@) && idx.0 as int == label_index(header@, "品番"@)
                && idx.1 as int == label_index(header@, "SZ"@) && idx.2 as int == label_index(
                header@,
                "採寸"@,
            ) && idx.0 < header@.len() && idx.1 < header@.len() && idx.2 < header@.len(),
            Err(e) => e is InvalidSheetFormat && !classify_ok(header@),
        },
{
    let a = find_unique_label(header, "品番");
    let b = find_unique_label(header, "SZ");
    let c = find_unique_label(header, "採寸");
    match (a, b, c) {
        (Some(ai), Some(bi), Some(ci)) => {
            proof {
                lemma_label_index_is(header@, "品番"@, ai as int);
                lemma_label_index_is(header@, "SZ"@, bi as int);
                lemma_label_index_is(header@, "採寸"@, ci as int);
            }
            Ok((ai, bi, ci))
        },
        _ => Err(Error::InvalidSheetFormat),
    }
}

} // verus!
