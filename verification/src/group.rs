//! Grouping: data rows are deduplicated by their (item-code, size-code) cell
//! pair — the first occurrence wins — and then grouped by item code, one
//! group per distinct key in ascending lexicographic order, each group
//! keeping its rows in their input order.

use vstd::prelude::*;
use crate::errors::Error;
use crate::models::{ItemCode, SizeCode};
use crate::text::{str_to_chars, str_views};

verus! {

/// One data row: its cells as text, and the outcomes of the external
/// domain-code parsers on its item-code and size-code cells (`None` where the
/// parser rejected the cell).
#[derive(Debug)]
pub struct SheetRow {
    pub cells: Vec<String>,
    pub item_code: Option<ItemCode>,
    pub size_code: Option<SizeCode>,
}

/// The item-code cell text of a row.
pub open spec fn item_key(r: SheetRow, ii: int) -> Seq<char> {
    r.cells@[ii]@
}

/// The (item-code, size-code) cell pair of a row.
pub open spec fn pair_key(r: SheetRow, ii: int, si: int) -> (Seq<char>, Seq<char>) {
    (r.cells@[ii]@, r.cells@[si]@)
}

/// Some row of `rs` has this (item, size) pair.
pub open spec fn has_pair_key(
    rs: Seq<SheetRow>,
    ii: int,
    si: int,
    key: (Seq<char>, Seq<char>),
) -> bool {
    exists|k: int| 0 <= k < rs.len() && pair_key(#[trigger] rs[k], ii, si) == key
}

/// Some row of `rs` has this item key.
pub open spec fn has_item_key(rs: Seq<SheetRow>, ii: int, key: Seq<char>) -> bool {
    exists|k: int| 0 <= k < rs.len() && item_key(#[trigger] rs[k], ii) == key
}

/// Duplicate (item, size) pairs removed: the first occurrence wins.
pub open spec fn dedup_rows(rs: Seq<SheetRow>, ii: int, si: int) -> Seq<SheetRow>
    decreases rs.len(),
{
    if rs.len() == 0 {
        Seq::empty()
    } else {
        let prev = dedup_rows(rs.drop_last(), ii, si);
        if has_pair_key(rs.drop_last(), ii, si, pair_key(rs.last(), ii, si)) {
            prev
        } else {
            prev.push(rs.last())
        }
    }
}

/// The rows of `rs` whose item key is `k`, in order.
pub open spec fn rows_with_key(rs: Seq<SheetRow>, ii: int, k: Seq<char>) -> Seq<SheetRow>
    decreases rs.len(),
{
    if rs.len() == 0 {
        Seq::empty()
    } else {
        let prev = rows_with_key(rs.drop_last(), ii, k);
        if item_key(rs.last(), ii) == k {
            prev.push(rs.last())
        } else {
            prev
        }
    }
}

/// The rows of `rs` whose item key is not `k`, in order.
pub open spec fn rows_without_key(rs: Seq<SheetRow>, ii: int, k: Seq<char>) -> Seq<SheetRow>
    decreases rs.len(),
{
    if rs.len() == 0 {
        Seq::empty()
    } else {
        let prev = rows_without_key(rs.drop_last(), ii, k);
        if item_key(rs.last(), ii) == k {
            prev
        } else {
            prev.push(rs.last())
        }
    }
}

/// `a` at or before `b` in the lexicographic order on character sequences by
/// Unicode scalar value — the order `str`'s comparison uses.
pub open spec fn lex_le(a: Seq<char>, b: Seq<char>) -> bool
    decreases a.len(),
{
    if a.len() == 0 {
        true
    } else if b.len() == 0 {
        false
    } else if (a[0] as u32) < (b[0] as u32) {
        true
    } else if (a[0] as u32) > (b[0] as u32) {
        false
    } else {
        lex_le(a.skip(1), b.skip(1))
    }
}

/// `k` inserted before the first key of the sorted list `ks` that does not
/// lie at or below it.
pub open spec fn insert_key(ks: Seq<Seq<char>>, k: Seq<char>) -> Seq<Seq<char>>
    decreases ks.len(),
{
    if ks.len() == 0 {
        seq![k]
    } else if lex_le(ks[0], k) {
        seq![ks[0]] + insert_key(ks.skip(1), k)
    } else {
        seq![k] + ks
    }
}

/// The distinct item keys of `rs`, in ascending lexicographic order.
pub open spec fn sorted_item_keys(rs: Seq<SheetRow>, ii: int) -> Seq<Seq<char>>
    decreases rs.len(),
{
    if rs.len() == 0 {
        Seq::empty()
    } else {
        let prev = sorted_item_keys(rs.drop_last(), ii);
        if has_item_key(rs.drop_last(), ii, item_key(rs.last(), ii)) {
            prev
        } else {
            insert_key(prev, item_key(rs.last(), ii))
        }
    }
}

/// The views of a sequence of row vectors.
pub open spec fn groups_of(gs: Seq<Vec<SheetRow>>) -> Seq<Seq<SheetRow>> {
    gs.map_values(|g: Vec<SheetRow>| g@)
}

/// What grouping yields: deduplicate, then one group per distinct item key in
/// ascending key order, each group holding its rows in their
/// post-deduplication input order.
pub open spec fn groups_spec(rs: Seq<SheetRow>, ii: int, si: int) -> Seq<Seq<SheetRow>> {
    let d = dedup_rows(rs, ii, si);
    sorted_item_keys(d, ii).map_values(|k: Seq<char>| rows_with_key(d, ii, k))
}

/// Deduplication drops a pair key only when it was never there.
proof fn lemma_dedup_keys(rs: Seq<SheetRow>, ii: int, si: int, key: (Seq<char>, Seq<char>))
    ensures
        has_pair_key(dedup_rows(rs, ii, si), ii, si, key) <==> has_pair_key(rs, ii, si, key),
    decreases rs.len(),
{
    if rs.len() > 0 {
        let prefix = rs.drop_last();
        lemma_dedup_keys(prefix, ii, si, key);
        let d = dedup_rows(rs, ii, si);
        let prev = dedup_rows(prefix, ii, si);
        assert(forall|k: int| 0 <= k < rs.len() - 1 ==> prefix[k] == rs[k]);
        if has_pair_key(prefix, ii, si, pair_key(rs.last(), ii, si)) {
            // dropped: d == prev
            if has_pair_key(rs, ii, si, key) {
                let w = choose|k: int|
                    0 <= k < rs.len() && pair_key(#[trigger] rs[k], ii, si) == key;
                if w == rs.len() - 1 {
                    assert(has_pair_key(prefix, ii, si, key));
                } else {
                    assert(pair_key(prefix[w], ii, si) == key);
                }
                assert(has_pair_key(d, ii, si, key));
            }
            if has_pair_key(d, ii, si, key) {
                let w = choose|k: int|
                    0 <= k < prefix.len() && pair_key(#[trigger] prefix[k], ii, si) == key;
                assert(pair_key(rs[w], ii, si) == key);
            }
        } else {
            // kept: d == prev.push(rs.last())
            if has_pair_key(rs, ii, si, key) {
                let w = choose|k: int|
                    0 <= k < rs.len() && pair_key(#[trigger] rs[k], ii, si) == key;
                if w == rs.len() - 1 {
                    assert(d[d.len() - 1] == rs.last());
                    assert(pair_key(d[d.len() - 1], ii, si) == key);
                } else {
                    assert(pair_key(prefix[w], ii, si) == key);
                    let v = choose|k: int|
                        0 <= k < prev.len() && pair_key(#[trigger] prev[k], ii, si) == key;
                    assert(d[v] == prev[v]);
                    assert(pair_key(d[v], ii, si) == key);
                }
            }
            if has_pair_key(d, ii, si, key) {
                let w = choose|k: int| 0 <= k < d.len() && pair_key(#[trigger] d[k], ii, si) == key;
                if w == d.len() - 1 {
                    assert(pair_key(rs[rs.len() - 1], ii, si) == key);
                } else {
                    assert(prev[w] == d[w]);
                    assert(has_pair_key(prev, ii, si, key));
                    let v = choose|k: int|
                        0 <= k < prefix.len() && pair_key(#[trigger] prefix[k], ii, si) == key;
                    assert(pair_key(rs[v], ii, si) == key);
                }
            }
        }
    }
}

/// Every deduplicated row is one of the input rows.
proof fn lemma_dedup_subset(rs: Seq<SheetRow>, ii: int, si: int)
    ensures
        forall|j: int|
            0 <= j < dedup_rows(rs, ii, si).len() ==> rs.contains(
                #[trigger] dedup_rows(rs, ii, si)[j],
            ),
    decreases rs.len(),
{
    if rs.len() > 0 {
        let prefix = rs.drop_last();
        lemma_dedup_subset(prefix, ii, si);
        let d = dedup_rows(rs, ii, si);
        let prev = dedup_rows(prefix, ii, si);
        assert forall|j: int| 0 <= j < d.len() implies rs.contains(#[trigger] d[j]) by {
            if j < prev.len() {
                assert(prev[j] == d[j]);
                assert(prefix.contains(prev[j]));
                let w = choose|k: int| 0 <= k < prefix.len() && prefix[k] == prev[j];
                assert(rs[w] == prev[j]);
            } else {
                assert(d[j] == rs.last());
                assert(rs[rs.len() - 1] == rs.last());
            }
        }
    }
}

/// Every row of a key's group is one of the rows grouped.
proof fn lemma_with_key_subset(rs: Seq<SheetRow>, ii: int, k: Seq<char>)
    ensures
        forall|j: int|
            0 <= j < rows_with_key(rs, ii, k).len() ==> rs.contains(
                #[trigger] rows_with_key(rs, ii, k)[j],
            ),
    decreases rs.len(),
{
    if rs.len() > 0 {
        let prefix = rs.drop_last();
        lemma_with_key_subset(prefix, ii, k);
        let d = rows_with_key(rs, ii, k);
        let prev = rows_with_key(prefix, ii, k);
        assert forall|j: int| 0 <= j < d.len() implies rs.contains(#[trigger] d[j]) by {
            if j < prev.len() {
                assert(prev[j] == d[j]);
                assert(prefix.contains(prev[j]));
                let w = choose|i: int| 0 <= i < prefix.len() && prefix[i] == prev[j];
                assert(rs[w] == prev[j]);
            } else {
                assert(d[j] == rs.last());
                assert(rs[rs.len() - 1] == rs.last());
            }
        }
    }
}

/// Removing the rows of one key leaves every other key's rows untouched.
proof fn lemma_without_preserves(rs: Seq<SheetRow>, ii: int, k: Seq<char>, k2: Seq<char>)
    requires
        k2 != k,
    ensures
        rows_with_key(rows_without_key(rs, ii, k), ii, k2) == rows_with_key(rs, ii, k2),
    decreases rs.len(),
{
    if rs.len() > 0 {
        let prefix = rs.drop_last();
        lemma_without_preserves(prefix, ii, k, k2);
        let w = rows_without_key(rs, ii, k);
        let wp = rows_without_key(prefix, ii, k);
        if item_key(rs.last(), ii) == k {
            assert(w == wp);
        } else {
            assert(w == wp.push(rs.last()));
            assert(w.drop_last() =~= wp);
            assert(w.last() == rs.last());
            if item_key(rs.last(), ii) == k2 {
                assert(rows_with_key(w, ii, k2) == rows_with_key(wp, ii, k2).push(rs.last()));
            } else {
                assert(rows_with_key(w, ii, k2) == rows_with_key(wp, ii, k2));
            }
        }
    }
}

/// A key that occurs has a non-empty group.
proof fn lemma_has_key_nonempty(rs: Seq<SheetRow>, ii: int, k: Seq<char>)
    requires
        has_item_key(rs, ii, k),
    ensures
        rows_with_key(rs, ii, k).len() > 0,
    decreases rs.len(),
{
    if rs.len() > 0 {
        if item_key(rs.last(), ii) == k {
        } else {
            let prefix = rs.drop_last();
            let w = choose|i: int| 0 <= i < rs.len() && item_key(#[trigger] rs[i], ii) == k;
            assert(w < rs.len() - 1);
            assert(item_key(prefix[w], ii) == k);
            lemma_has_key_nonempty(prefix, ii, k);
        }
    }
}

/// Where `insert_key` puts the new key: before the first strictly-greater
/// one.
proof fn lemma_insert_key_at(ks: Seq<Seq<char>>, k: Seq<char>, p: int)
    requires
        0 <= p <= ks.len(),
        forall|j: int| 0 <= j < p ==> lex_le(#[trigger] ks[j], k),
        p < ks.len() ==> !lex_le(ks[p], k),
    ensures
        insert_key(ks, k) == ks.take(p) + seq![k] + ks.skip(p),
    decreases ks.len(),
{
    if ks.len() == 0 {
        assert(insert_key(ks, k) =~~= ks.take(p) + seq![k] + ks.skip(p));
    } else if p == 0 {
        assert(insert_key(ks, k) == seq![k] + ks);
        assert(ks.take(0) + seq![k] + ks.skip(0) =~~= seq![k] + ks);
    } else {
        assert(lex_le(ks[0], k));
        let tail = ks.skip(1);
        assert(forall|j: int| 0 <= j < p - 1 ==> tail[j] == ks[j + 1]);
        assert(forall|j: int| 0 <= j < p - 1 ==> lex_le(#[trigger] tail[j], k));
        if p - 1 < tail.len() {
            assert(tail[p - 1] == ks[p]);
        }
        lemma_insert_key_at(tail, k, p - 1);
        assert(insert_key(ks, k) == seq![ks[0]] + (tail.take(p - 1) + seq![k] + tail.skip(p - 1)));
        assert(seq![ks[0]] + (tail.take(p - 1) + seq![k] + tail.skip(p - 1)) =~~= ks.take(p)
            + seq![k] + ks.skip(p));
    }
}

/// Runtime lexicographic comparison of two strings.
fn lex_le_exec(a: &String, b: &String) -> (r: bool)
    ensures
        r == lex_le(a@, b@),
{
    let av = str_to_chars(a.as_str());
    let bv = str_to_chars(b.as_str());
    let mut i: usize = 0;
    proof {
        assert(a@.skip(0) =~= a@);
        assert(b@.skip(0) =~= b@);
    }
    while i < av.len() && i < bv.len()
        invariant
            i <= av@.len(),
            i <= bv@.len(),
            av@ == a@,
            bv@ == b@,
            lex_le(a@, b@) == lex_le(a@.skip(i as int), b@.skip(i as int)),
        decreases av@.len() - i,
    {
        proof {
            let sa = a@.skip(i as int);
            let sb = b@.skip(i as int);
            assert(sa[0] == a@[i as int]);
            assert(sb[0] == b@[i as int]);
            assert(sa.skip(1) =~= a@.skip(i + 1 as int));
            assert(sb.skip(1) =~= b@.skip(i + 1 as int));
        }
        let ca = av[i] as u32;
        let cb = bv[i] as u32;
        if ca < cb {
            return true;
        }
        if ca > cb {
            return false;
        }
        i = i + 1;
    }
    proof {
        if i == av@.len() {
            assert(a@.skip(i as int) =~= Seq::<char>::empty());
        } else {
            assert(b@.skip(i as int) =~= Seq::<char>::empty());
            assert(a@.skip(i as int).len() > 0);
        }
    }
    i == av.len()
}

/// Is the (item, size) pair of `r` already among `rows`?
fn has_pair_in(rows: &Vec<SheetRow>, r: &SheetRow, ii: usize, si: usize) -> (found: bool)
    requires
        ii < r.cells@.len(),
        si < r.cells@.len(),
        forall|j: int|
            0 <= j < rows@.len() ==> ii < (#[trigger] rows@[j]).cells@.len() && si
                < rows@[j].cells@.len(),
    ensures
        found == has_pair_key(rows@, ii as int, si as int, pair_key(*r, ii as int, si as int)),
{
    let mut j: usize = 0;
    while j < rows.len()
        invariant
            j <= rows@.len(),
            ii < r.cells@.len(),
            si < r.cells@.len(),
            forall|t: int|
                0 <= t < rows@.len() ==> ii < (#[trigger] rows@[t]).cells@.len() && si
                    < rows@[t].cells@.len(),
            forall|t: int|
                0 <= t < j ==> pair_key(#[trigger] rows@[t], ii as int, si as int) != pair_key(
                    *r,
                    ii as int,
                    si as int,
                ),
        decreases rows@.len() - j,
    {
        let same_item = rows[j].cells[ii] == r.cells[ii];
        let same_size = rows[j].cells[si] == r.cells[si];
        if same_item && same_size {
            assert(pair_key(rows@[j as int], ii as int, si as int) == pair_key(
                *r,
                ii as int,
                si as int,
            ));
            return true;
        }
        j = j + 1;
    }
    false
}

/// Deduplicates by (item, size) pair, first occurrence winning.
fn dedup_rows_exec(rows: Vec<SheetRow>, ii: usize, si: usize) -> (r: Vec<SheetRow>)
    requires
        forall|i: int|
            0 <= i < rows@.len() ==> ii < (#[trigger] rows@[i]).cells@.len() && si
                < rows@[i].cells@.len(),
    ensures
        r@ == dedup_rows(rows@, ii as int, si as int),
        forall|j: int|
            0 <= j < r@.len() ==> ii < (#[trigger] r@[j]).cells@.len() && si < r@[j].cells@.len(),
    decreases rows@.len(),
{
    let ghost all = rows@;
    let mut rem = rows;
    let mut out: Vec<SheetRow> = Vec::new();
    proof {
        assert(all.skip(0) =~= all);
        assert(all.take(0) =~= Seq::<SheetRow>::empty());
    }
    while rem.len() > 0
        invariant
            rem@.len() <= all.len(),
            rem@ == all.skip(all.len() - rem@.len()),
            out@ == dedup_rows(all.take(all.len() - rem@.len()), ii as int, si as int),
            forall|i: int|
                0 <= i < all.len() ==> ii < (#[trigger] all[i]).cells@.len() && si
                    < all[i].cells@.len(),
            forall|j: int|
                0 <= j < out@.len() ==> ii < (#[trigger] out@[j]).cells@.len() && si
                    < out@[j].cells@.len(),
        decreases rem@.len(),
    {
        let ghost i = all.len() - rem@.len();
        let r = rem.remove(0);
        proof {
            assert(r == all.skip(i as int)[0]);
            assert(all.skip(i as int)[0] == all[i as int]);
            assert(rem@ =~= all.skip(i as int).skip(1));
            assert(all.skip(i as int).skip(1) =~= all.skip(i + 1 as int));
        }
        let dup = has_pair_in(&out, &r, ii, si);
        proof {
            lemma_dedup_keys(
                all.take(i as int),
                ii as int,
                si as int,
                pair_key(r, ii as int, si as int),
            );
            assert(all.take(i + 1 as int).drop_last() =~= all.take(i as int));
            assert(all.take(i + 1 as int).last() == all[i as int]);
        }
        if !dup {
            out.push(r);
        }
    }
    proof {
        assert(all.take(all.len() as int) =~= all);
    }
    out
}

/// Is some string of `ks` view-equal to `s`?
fn contains_string(ks: &Vec<String>, s: &String) -> (found: bool)
    ensures
        found == exists|j: int| 0 <= j < ks@.len() && (#[trigger] ks@[j])@ == s@,
{
    let mut j: usize = 0;
    while j < ks.len()
        invariant
            j <= ks@.len(),
            forall|t: int| 0 <= t < j ==> (#[trigger] ks@[t])@ != s@,
        decreases ks@.len() - j,
    {
        if ks[j] == *s {
            return true;
        }
        j = j + 1;
    }
    false
}

/// Inserts a fresh key into a sorted, duplicate-free key list.
#[verifier::rlimit(80)]
fn insert_key_exec(ks: Vec<String>, key: String) -> (r: Vec<String>)
    requires
        forall|j1: int, j2: int|
            0 <= j1 < ks@.len() && 0 <= j2 < ks@.len() && j1 != j2 ==> (#[trigger] ks@[j1])@ != (
            #[trigger] ks@[j2])@,
        forall|j: int| 0 <= j < ks@.len() ==> (#[trigger] ks@[j])@ != key@,
    ensures
        str_views(r@) == insert_key(str_views(ks@), key@),
        r@.len() == ks@.len() + 1,
        forall|j1: int, j2: int|
            0 <= j1 < r@.len() && 0 <= j2 < r@.len() && j1 != j2 ==> (#[trigger] r@[j1])@ != (
            #[trigger] r@[j2])@,
        exists|j: int| 0 <= j < r@.len() && #[trigger] r@[j] == key,
        forall|j: int|
            0 <= j < ks@.len() ==> exists|j2: int| 0 <= j2 < r@.len() && #[trigger] r@[j2] == (
            #[trigger] ks@[j]),
        forall|j2: int|
            0 <= j2 < r@.len() ==> (#[trigger] r@[j2]) == key || exists|j: int|
                0 <= j < ks@.len() && (#[trigger] ks@[j]) == r@[j2],
{
    let ghost old_ks = ks@;
    let ghost kview = key@;
    let mut out = ks;
    let mut p: usize = 0;
    while p < out.len() && lex_le_exec(&out[p], &key)
        invariant
            p <= out@.len(),
            out@ == old_ks,
            kview == key@,
            forall|j: int| 0 <= j < p ==> lex_le((#[trigger] out@[j])@, kview),
        decreases out@.len() - p,
    {
        p = p + 1;
    }
    let ghost pp = p as int;
    out.insert(p, key);
    proof {
        lemma_insert_key_at(str_views(old_ks), kview, pp);
        assert(out@ =~= old_ks.take(pp) + seq![key] + old_ks.skip(pp));
        assert(str_views(old_ks).take(pp) =~~= str_views(old_ks.take(pp)));
        assert(str_views(old_ks).skip(pp) =~~= str_views(old_ks.skip(pp)));
        assert(str_views(out@) =~~= str_views(old_ks.take(pp)) + seq![kview] + str_views(
            old_ks.skip(pp),
        ));
        assert(str_views(out@) =~~= insert_key(str_views(old_ks), kview));
        assert(out@[pp] == key);
        assert(forall|j: int| 0 <= j < pp ==> out@[j] == old_ks[j]);
        assert(forall|j: int| pp <= j < old_ks.len() ==> out@[j + 1] == old_ks[j]);
        assert forall|j: int| 0 <= j < old_ks.len() implies exists|j2: int|
            0 <= j2 < out@.len() && #[trigger] out@[j2] == (#[trigger] old_ks[j]) by {
            if j < pp {
                assert(out@[j] == old_ks[j]);
            } else {
                assert(out@[j + 1] == old_ks[j]);
            }
        }
        assert forall|j2: int| 0 <= j2 < out@.len() implies (#[trigger] out@[j2]) == key || exists|
            j: int,
        |
            0 <= j < old_ks.len() && (#[trigger] old_ks[j]) == out@[j2] by {
            if j2 < pp {
                assert(old_ks[j2] == out@[j2]);
            } else if j2 > pp {
                assert(old_ks[j2 - 1] == out@[j2]);
            }
        }
        assert forall|j1: int, j2: int|
            0 <= j1 < out@.len() && 0 <= j2 < out@.len() && j1 != j2 implies (
        #[trigger] out@[j1])@ != (#[trigger] out@[j2])@ by {
            let a1 = if j1 < pp {
                j1
            } else {
                j1 - 1
            };
            let a2 = if j2 < pp {
                j2
            } else {
                j2 - 1
            };
            if j1 != pp && j2 != pp {
                assert(out@[j1] == old_ks[a1]);
                assert(out@[j2] == old_ks[a2]);
            } else if j1 == pp {
                assert(out@[j2] == old_ks[a2]);
                assert(old_ks[a2]@ != kview);
            } else {
                assert(out@[j1] == old_ks[a1]);
                assert(old_ks[a1]@ != kview);
            }
        }
    }
    out
}

/// The distinct item keys of `d`, collected in ascending lexicographic order.
#[verifier::rlimit(60)]
fn sorted_keys_exec(d: &Vec<SheetRow>, ii: usize) -> (r: Vec<String>)
    requires
        forall|i: int| 0 <= i < d@.len() ==> ii < (#[trigger] d@[i]).cells@.len(),
    ensures
        str_views(r@) == sorted_item_keys(d@, ii as int),
        forall|j: int| 0 <= j < r@.len() ==> has_item_key(d@, ii as int, (#[trigger] r@[j])@),
        forall|j1: int, j2: int|
            0 <= j1 < r@.len() && 0 <= j2 < r@.len() && j1 != j2 ==> (#[trigger] r@[j1])@ != (
            #[trigger] r@[j2])@,
    decreases d@.len(),
{
    let mut ks: Vec<String> = Vec::new();
    let mut i: usize = 0;
    proof {
        assert(d@.take(0) =~= Seq::<SheetRow>::empty());
    }
    while i < d.len()
        invariant
            i <= d@.len(),
            forall|t: int| 0 <= t < d@.len() ==> ii < (#[trigger] d@[t]).cells@.len(),
            str_views(ks@) == sorted_item_keys(d@.take(i as int), ii as int),
            forall|j: int|
                0 <= j < ks@.len() ==> has_item_key(
                    d@.take(i as int),
                    ii as int,
                    (#[trigger] ks@[j])@,
                ),
            forall|j1: int, j2: int|
                0 <= j1 < ks@.len() && 0 <= j2 < ks@.len() && j1 != j2 ==> (#[trigger] ks@[j1])@
                    != (#[trigger] ks@[j2])@,
            forall|k: int| #![trigger d@[k]]
                0 <= k < i ==> exists|j: int|
                    0 <= j < ks@.len() && (#[trigger] ks@[j])@ == item_key(d@[k], ii as int),
        decreases d@.len() - i,
    {
        proof {
            assert(d@.take(i + 1 as int).drop_last() =~= d@.take(i as int));
            assert(d@.take(i + 1 as int).last() == d@[i as int]);
        }
        let key = d[i].cells[ii].clone();
        let ghost kview = key@;
        let ghost old_ks = ks@;
        let present = contains_string(&ks, &key);
        proof {
            assert(kview == item_key(d@[i as int], ii as int));
            if present {
                assert(has_item_key(d@.take(i as int), ii as int, kview)) by {
                    let j = choose|j: int| 0 <= j < ks@.len() && (#[trigger] ks@[j])@ == kview;
                    assert(has_item_key(d@.take(i as int), ii as int, ks@[j]@));
                }
            } else {
                if has_item_key(d@.take(i as int), ii as int, kview) {
                    let k = choose|k: int|
                        0 <= k < i && item_key(#[trigger] d@.take(i as int)[k], ii as int)
                            == kview;
                    assert(exists|j: int|
                        0 <= j < ks@.len() && (#[trigger] ks@[j])@ == item_key(
                            d@[k],
                            ii as int,
                        ));
                    assert(false);
                }
            }
        }
        if !present {
            ks = insert_key_exec(ks, key);
            proof {
                assert(str_views(ks@) =~~= sorted_item_keys(d@.take(i + 1 as int), ii as int));
            }
        } else {
            proof {
                assert(str_views(ks@) == sorted_item_keys(d@.take(i + 1 as int), ii as int));
            }
        }
        proof {
            // soundness: every collected key is an item key of the longer prefix
            assert forall|j: int| 0 <= j < ks@.len() implies has_item_key(
                d@.take(i + 1 as int),
                ii as int,
                (#[trigger] ks@[j])@,
            ) by {
                if ks@[j]@ == kview {
                    assert(item_key(d@.take(i + 1 as int)[i as int], ii as int) == kview);
                } else {
                    if present {
                        assert(has_item_key(d@.take(i as int), ii as int, old_ks[j]@));
                    } else {
                        let t = choose|t: int|
                            0 <= t < old_ks.len() && (#[trigger] old_ks[t]) == ks@[j];
                        assert(has_item_key(d@.take(i as int), ii as int, old_ks[t]@));
                    }
                    let k = choose|k: int|
                        0 <= k < i && item_key(#[trigger] d@.take(i as int)[k], ii as int)
                            == ks@[j]@;
                    assert(item_key(d@.take(i + 1 as int)[k], ii as int) == ks@[j]@);
                }
            }
            // completeness: every item key seen so far was collected
            assert forall|k: int| #![trigger d@[k]] 0 <= k < i + 1 implies exists|j: int|
                0 <= j < ks@.len() && (#[trigger] ks@[j])@ == item_key(d@[k], ii as int) by {
                if k == i {
                    if present {
                        assert(exists|j: int| 0 <= j < ks@.len() && (#[trigger] ks@[j])@ == kview);
                    } else {
                        let j = choose|j: int| 0 <= j < ks@.len() && #[trigger] ks@[j] == key;
                        assert(ks@[j]@ == item_key(d@[k], ii as int));
                    }
                } else {
                    let j0 = choose|j: int|
                        0 <= j < old_ks.len() && (#[trigger] old_ks[j])@ == item_key(
                            d@[k],
                            ii as int,
                        );
                    if present {
                        assert(ks@[j0] == old_ks[j0]);
                        assert(ks@[j0]@ == item_key(d@[k], ii as int));
                    } else {
                        let j2 = choose|j2: int|
                            0 <= j2 < ks@.len() && #[trigger] ks@[j2] == old_ks[j0];
                        assert(ks@[j2]@ == item_key(d@[k], ii as int));
                    }
                }
            }
        }
        i = i + 1;
    }
    proof {
        assert(d@.take(d@.len() as int) =~= d@);
    }
    ks
}

/// Moves the rows whose item key is `key` out of `d`, in order; `d` keeps
/// the rest, in order.
fn take_key_rows(d: &mut Vec<SheetRow>, key: &String, ii: usize) -> (hit: Vec<SheetRow>)
    requires
        forall|i: int| 0 <= i < old(d)@.len() ==> ii < (#[trigger] old(d)@[i]).cells@.len(),
    ensures
        hit@ == rows_with_key(old(d)@, ii as int, key@),
        final(d)@ == rows_without_key(old(d)@, ii as int, key@),
        forall|i: int| 0 <= i < final(d)@.len() ==> ii < (#[trigger] final(d)@[i]).cells@.len(),
{
    let ghost all = old(d)@;
    let mut hit: Vec<SheetRow> = Vec::new();
    let mut miss: Vec<SheetRow> = Vec::new();
    proof {
        assert(all.skip(0) =~= all);
        assert(all.take(0) =~= Seq::<SheetRow>::empty());
    }
    while d.len() > 0
        invariant
            d@.len() <= all.len(),
            d@ == all.skip(all.len() - d@.len()),
            hit@ == rows_with_key(all.take(all.len() - d@.len()), ii as int, key@),
            miss@ == rows_without_key(all.take(all.len() - d@.len()), ii as int, key@),
            forall|i: int| 0 <= i < all.len() ==> ii < (#[trigger] all[i]).cells@.len(),
            forall|i: int| 0 <= i < miss@.len() ==> ii < (#[trigger] miss@[i]).cells@.len(),
        decreases d@.len(),
    {
        let ghost i = all.len() - d@.len();
        let r = d.remove(0);
        proof {
            assert(r == all.skip(i as int)[0]);
            assert(all.skip(i as int)[0] == all[i as int]);
            assert(d@ =~= all.skip(i as int).skip(1));
            assert(all.skip(i as int).skip(1) =~= all.skip(i + 1 as int));
            assert(all.take(i + 1 as int).drop_last() =~= all.take(i as int));
            assert(all.take(i + 1 as int).last() == all[i as int]);
        }
        if r.cells[ii] == *key {
            hit.push(r);
        } else {
            miss.push(r);
        }
    }
    proof {
        assert(all.take(all.len() as int) =~= all);
    }
    *d = miss;
    hit
}

/// Groups data rows per §4.3: deduplicate by (item, size) pair keeping first
/// occurrences, then one group per distinct item key, groups in ascending
/// lexicographic key order, rows of a group in their input order. An empty
/// row sequence is an error.
#[verifier::rlimit(80)]
pub fn group_rows(rows: Vec<SheetRow>, item_code_idx: usize, size_code_idx: usize) -> (r: Result<
    Vec<Vec<SheetRow>>,
    Error,
>)
    requires
        forall|i: int|
            0 <= i < rows@.len() ==> item_code_idx < (#[trigger] rows@[i]).cells@.len()
                && size_code_idx < rows@[i].cells@.len(),
    ensures
        match r {
            Ok(gs) => rows@.len() > 0 && groups_of(gs@) == groups_spec(
                rows@,
                item_code_idx as int,
                size_code_idx as int,
            ) && (forall|g: int| 0 <= g < gs@.len() ==> (#[trigger] gs@[g])@.len() > 0) && (forall|
                g: int,
                j: int,
            |
                0 <= g < gs@.len() && 0 <= j < gs@[g]@.len() ==> rows@.contains(
                    #[trigger] gs@[g]@[j],
                )),
            Err(e) => e is EmptyFile && rows@.len() == 0,
        },
{
    let ghost ii = item_code_idx as int;
    let ghost si = size_code_idx as int;
    if rows.len() == 0 {
        return Err(Error::EmptyFile);
    }
    let ghost rows0 = rows@;
    let d = dedup_rows_exec(rows, item_code_idx, size_code_idx);
    let ghost d0 = d@;
    let keys = sorted_keys_exec(&d, item_code_idx);
    let mut gs: Vec<Vec<SheetRow>> = Vec::new();
    let mut rest = d;
    let mut g: usize = 0;
    while g < keys.len()
        invariant
            g <= keys@.len(),
            gs@.len() == g,
            ii == item_code_idx as int,
            si == size_code_idx as int,
            d0 == dedup_rows(rows0, ii, si),
            str_views(keys@) == sorted_item_keys(d0, ii),
            forall|j: int| 0 <= j < keys@.len() ==> has_item_key(d0, ii, (#[trigger] keys@[j])@),
            forall|j1: int, j2: int|
                0 <= j1 < keys@.len() && 0 <= j2 < keys@.len() && j1 != j2 ==> (
                #[trigger] keys@[j1])@ != (#[trigger] keys@[j2])@,
            forall|a: int|
                0 <= a < g ==> (#[trigger] gs@[a])@ == rows_with_key(d0, ii, keys@[a]@),
            forall|a: int|
                g <= a < keys@.len() ==> rows_with_key(rest@, ii, (#[trigger] keys@[a])@)
                    == rows_with_key(d0, ii, keys@[a]@),
            forall|i: int| 0 <= i < rest@.len() ==> item_code_idx < (#[trigger] rest@[i]).cells@.len(),
        decreases keys@.len() - g,
    {
        let ghost rest_old = rest@;
        let grp = take_key_rows(&mut rest, &keys[g], item_code_idx);
        proof {
            assert(grp@ == rows_with_key(rest_old, ii, keys@[g as int]@));
            assert(rest@ == rows_without_key(rest_old, ii, keys@[g as int]@));
            assert(rows_with_key(rest_old, ii, keys@[g as int]@) == rows_with_key(
                d0,
                ii,
                keys@[g as int]@,
            ));
            assert forall|a: int| g + 1 <= a < keys@.len() implies rows_with_key(
                rest@,
                ii,
                (#[trigger] keys@[a])@,
            ) == rows_with_key(d0, ii, keys@[a]@) by {
                assert(keys@[a]@ != keys@[g as int]@);
                lemma_without_preserves(rest_old, ii, keys@[g as int]@, keys@[a]@);
                assert(rows_with_key(rest_old, ii, keys@[a]@) == rows_with_key(d0, ii, keys@[a]@));
            }
        }
        gs.push(grp);
        proof {
            assert(gs@[g as int] == grp);
            assert(gs@[g as int]@ == rows_with_key(d0, ii, keys@[g as int]@));
        }
        g = g + 1;
    }
    proof {
        assert forall|a: int| 0 <= a < gs@.len() implies (#[trigger] gs@[a])@.len() > 0 by {
            lemma_has_key_nonempty(d0, ii, keys@[a]@);
        }
        assert(groups_of(gs@) =~~= groups_spec(rows0, ii, si));
        lemma_dedup_subset(rows0, ii, si);
        assert forall|a: int, j: int|
            0 <= a < gs@.len() && 0 <= j < gs@[a]@.len() implies rows0.contains(
            #[trigger] gs@[a]@[j],
        ) by {
            lemma_with_key_subset(d0, ii, keys@[a]@);
            assert(d0.contains(gs@[a]@[j]));
            let w = choose|w: int| 0 <= w < d0.len() && d0[w] == gs@[a]@[j];
            assert(rows0.contains(d0[w]));
        }
    }
    Ok(gs)
}

} // verus!
