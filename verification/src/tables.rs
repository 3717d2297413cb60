//! Table assembly: each grouped row's measurement cell is parsed, its names
//! are resolved through the glossary, and one display table per item is
//! emitted. The first failing row aborts the whole run; nothing partial is
//! returned.

use vstd::prelude::*;
use vstd::string::StringExecFns;
use crate::classify::{classify_ok, get_column_indices, label_index};
use crate::errors::Error;
use crate::grammar::{
    details_pairs, first_bad_token, grammar_empty, grammar_ok, grammar_pairs, names_of, values_of,
    SizeDetail, SizeDetails,
};
use crate::group::{group_rows, groups_of, groups_spec, SheetRow};
use crate::models::{ItemCode, SizeCode};
use crate::resolve::{resolve_one, TranslateClient};
use crate::text::str_views;

verus! {

/// One validated row: its codes and its parsed, name-resolved measurements.
pub struct ItemInfo {
    pub item_code: ItemCode,
    pub size_code: SizeCode,
    pub size_text: SizeDetails,
}

/// One item's display table: a header row and one body row per size.
#[derive(Debug, PartialEq, Eq)]
pub struct ItemTable {
    pub head: Vec<String>,
    pub body: Vec<Vec<String>>,
}

/// One item's code, first size code, and table.
#[derive(Debug, PartialEq, Eq)]
pub struct ItemMeta {
    pub code: String,
    pub size_code: String,
    pub table: ItemTable,
}

/// Everything one pipeline run hands back.
#[derive(Debug, PartialEq, Eq)]
pub struct ProcessResponse {
    pub item_meta: Vec<ItemMeta>,
}

/// The measurement-text cell of a row.
pub open spec fn row_text(r: SheetRow, ti: int) -> Seq<char> {
    r.cells@[ti]@
}

/// The first components of a pair list.
pub open spec fn pair_firsts(ps: Seq<(Seq<char>, Seq<char>)>) -> Seq<Seq<char>> {
    ps.map_values(|p: (Seq<char>, Seq<char>)| p.0)
}

/// The second components of a pair list.
pub open spec fn pair_seconds(ps: Seq<(Seq<char>, Seq<char>)>) -> Seq<Seq<char>> {
    ps.map_values(|p: (Seq<char>, Seq<char>)| p.1)
}

/// The measurement names of a row, in token order.
pub open spec fn row_names(r: SheetRow, ti: int) -> Seq<Seq<char>> {
    pair_firsts(grammar_pairs(row_text(r, ti)))
}

/// The measurement values of a row, in token order.
pub open spec fn row_values(r: SheetRow, ti: int) -> Seq<Seq<char>> {
    pair_seconds(grammar_pairs(row_text(r, ti)))
}

/// Each name resolved through the glossary map.
pub open spec fn resolve_all(m: Map<Seq<char>, Seq<char>>, names: Seq<Seq<char>>) -> Seq<
    Seq<char>,
> {
    names.map_values(|n: Seq<char>| resolve_one(m, n))
}

/// Both domain codes parsed and the measurement cell parses.
pub open spec fn row_parses(r: SheetRow, ti: int) -> bool {
    &&& r.item_code is Some
    &&& r.size_code is Some
    &&& grammar_ok(row_text(r, ti))
}

/// The row's measurement names equal those of its group's first row: the
/// emitted table aligns values to the header by position, so mismatched rows
/// are rejected rather than padded or reordered.
pub open spec fn row_conforms(r: SheetRow, first: SheetRow, ti: int) -> bool {
    row_names(r, ti) == row_names(first, ti)
}

/// Row (a, b) of the groups parses and agrees with its group's first row.
pub open spec fn row_good(gs: Seq<Seq<SheetRow>>, a: int, b: int, ti: int) -> bool {
    row_parses(gs[a][b], ti) && row_conforms(gs[a][b], gs[a][0], ti)
}

/// Every row strictly before position (g, j), in group-major order, is good.
pub open spec fn all_good_before(gs: Seq<Seq<SheetRow>>, g: int, j: int, ti: int) -> bool {
    forall|a: int, b: int|
        0 <= a < gs.len() && 0 <= b < gs[a].len() && (a < g || (a == g && b < j))
            ==> #[trigger] row_good(gs, a, b, ti)
}

/// Every row of every group is good.
pub open spec fn all_good(gs: Seq<Seq<SheetRow>>, ti: int) -> bool {
    forall|a: int, b: int|
        0 <= a < gs.len() && 0 <= b < gs[a].len() ==> #[trigger] row_good(gs, a, b, ti)
}

/// The record built from one row: codes moved over, values kept, names
/// resolved through the glossary.
pub open spec fn info_matches(
    info: ItemInfo,
    r: SheetRow,
    ti: int,
    m: Map<Seq<char>, Seq<char>>,
) -> bool {
    &&& r.item_code == Some(info.item_code)
    &&& r.size_code == Some(info.size_code)
    &&& values_of(info.size_text.0@) == row_values(r, ti)
    &&& names_of(info.size_text.0@) == resolve_all(m, row_names(r, ti))
}

/// The table built from one group of validated records: the header is the
/// fixed size-label column followed by the first record's resolved names;
/// each body row is the record's ordinal size label followed by its values.
pub open spec fn meta_matches(meta: ItemMeta, infos: Seq<ItemInfo>) -> bool {
    &&& meta.code == infos[0].item_code.text
    &&& meta.size_code == infos[0].size_code.text
    &&& str_views(meta.table.head@) == seq!["尺码"@] + names_of(infos[0].size_text.0@)
    &&& meta.table.body@.len() == infos.len()
    &&& forall|b: int|
        0 <= b < infos.len() ==> str_views((#[trigger] meta.table.body@[b])@) == seq![
            infos[b].size_code.ordinal@,
        ] + values_of(infos[b].size_text.0@)
}

/// The table that one grouped item yields, straight from its raw rows.
pub open spec fn meta_matches_group(
    meta: ItemMeta,
    grp: Seq<SheetRow>,
    ti: int,
    m: Map<Seq<char>, Seq<char>>,
) -> bool {
    &&& meta.code == grp[0].item_code->0.text
    &&& meta.size_code == grp[0].size_code->0.text
    &&& str_views(meta.table.head@) == seq!["尺码"@] + resolve_all(m, row_names(grp[0], ti))
    &&& meta.table.body@.len() == grp.len()
    &&& forall|b: int|
        0 <= b < grp.len() ==> str_views((#[trigger] meta.table.body@[b])@) == seq![
            grp[b].size_code->0.ordinal@,
        ] + row_values(grp[b], ti)
}

/// Parsed pairs determine the name and value sequences.
proof fn lemma_pairs_to_names_values(ds: Seq<SizeDetail>, s: Seq<char>)
    requires
        details_pairs(ds) == grammar_pairs(s),
    ensures
        names_of(ds) == pair_firsts(grammar_pairs(s)),
        values_of(ds) == pair_seconds(grammar_pairs(s)),
{
    assert(details_pairs(ds).len() == ds.len());
    assert(names_of(ds) =~~= pair_firsts(grammar_pairs(s))) by {
        assert forall|k: int| 0 <= k < ds.len() implies #[trigger] names_of(ds)[k] == pair_firsts(
            grammar_pairs(s),
        )[k] by {
            assert(details_pairs(ds)[k] == grammar_pairs(s)[k]);
        }
    }
    assert(values_of(ds) =~~= pair_seconds(grammar_pairs(s))) by {
        assert forall|k: int| 0 <= k < ds.len() implies #[trigger] values_of(ds)[k]
            == pair_seconds(grammar_pairs(s))[k] by {
            assert(details_pairs(ds)[k] == grammar_pairs(s)[k]);
        }
    }
}

/// Do two string lists agree, view for view?
fn names_eq(a: &Vec<String>, b: &Vec<String>) -> (r: bool)
    ensures
        r == (str_views(a@) == str_views(b@)),
{
    if a.len() != b.len() {
        proof {
            assert(str_views(a@).len() != str_views(b@).len());
        }
        return false;
    }
    let mut i: usize = 0;
    while i < a.len()
        invariant
            i <= a@.len(),
            a@.len() == b@.len(),
            forall|k: int| 0 <= k < i ==> (#[trigger] a@[k])@ == b@[k]@,
        decreases a@.len() - i,
    {
        if !(a[i] == b[i]) {
            proof {
                assert(str_views(a@)[i as int] != str_views(b@)[i as int]);
            }
            return false;
        }
        i = i + 1;
    }
    proof {
        assert(str_views(a@) =~~= str_views(b@));
    }
    true
}

/// Builds one group's records: for each row, in order, the item code, size
/// code and measurement cell must all have parsed; names are then resolved
/// through the client's glossary. The first failure aborts the run.
#[verifier::rlimit(100)]
pub fn process_excel_rows(
    groups: Vec<Vec<SheetRow>>,
    size_text_idx: usize,
    client: &TranslateClient,
) -> (r: Result<Vec<Vec<ItemInfo>>, Error>)
    requires
        forall|a: int, b: int|
            0 <= a < groups@.len() && 0 <= b < (#[trigger] groups@[a])@.len() ==> size_text_idx < (
            #[trigger] groups@[a]@[b]).cells@.len(),
    ensures
        ({
            let gs = groups_of(groups@);
            let ti = size_text_idx as int;
            let m = client.glossary@;
            match r {
                Ok(out) => all_good(gs, ti) && out@.len() == gs.len() && (forall|a: int|
                    0 <= a < gs.len() ==> (#[trigger] out@[a])@.len() == gs[a].len()) && (forall|
                    a: int,
                    b: int,
                |
                    0 <= a < gs.len() && 0 <= b < gs[a].len() ==> info_matches(
                        #[trigger] out@[a]@[b],
                        gs[a][b],
                        ti,
                        m,
                    )),
                Err(e) => match e {
                    Error::InvalidItemCode => exists|a: int, b: int|
                        0 <= a < gs.len() && 0 <= b < gs[a].len() && #[trigger] all_good_before(
                            gs,
                            a,
                            b,
                            ti,
                        ) && gs[a][b].item_code is None,
                    Error::InvalidSizeCode => exists|a: int, b: int|
                        0 <= a < gs.len() && 0 <= b < gs[a].len() && #[trigger] all_good_before(
                            gs,
                            a,
                            b,
                            ti,
                        ) && gs[a][b].item_code is Some && gs[a][b].size_code is None,
                    Error::EmptySizeText => exists|a: int, b: int|
                        0 <= a < gs.len() && 0 <= b < gs[a].len() && #[trigger] all_good_before(
                            gs,
                            a,
                            b,
                            ti,
                        ) && gs[a][b].item_code is Some && gs[a][b].size_code is Some
                            && grammar_empty(row_text(gs[a][b], ti)),
                    Error::InvalidSizeText { error_line } => exists|a: int, b: int|
                        0 <= a < gs.len() && 0 <= b < gs[a].len() && #[trigger] all_good_before(
                            gs,
                            a,
                            b,
                            ti,
                        ) && gs[a][b].item_code is Some && gs[a][b].size_code is Some
                            && !grammar_empty(row_text(gs[a][b], ti)) && !grammar_ok(
                            row_text(gs[a][b], ti),
                        ) && error_line@ == first_bad_token(row_text(gs[a][b], ti)),
                    Error::MismatchedSizeNames { error_line } => exists|a: int, b: int|
                        0 <= a < gs.len() && 0 <= b < gs[a].len() && #[trigger] all_good_before(
                            gs,
                            a,
                            b,
                            ti,
                        ) && row_parses(gs[a][b], ti) && !row_conforms(gs[a][b], gs[a][0], ti)
                            && error_line@ == row_text(gs[a][b], ti),
                    _ => false,
                },
            }
        }),
{
    let ghost gs = groups_of(groups@);
    let ghost ti = size_text_idx as int;
    let ghost m = client.glossary@;
    let mut remg = groups;
    let mut out: Vec<Vec<ItemInfo>> = Vec::new();
    proof {
        assert(gs.skip(0) =~= gs);
    }
    while remg.len() > 0
        invariant
            gs == groups_of(groups@),
            ti == size_text_idx as int,
            m == client.glossary@,
            out@.len() + remg@.len() == gs.len(),
            groups_of(remg@) =~= gs.skip(out@.len() as int),
            forall|a: int, b: int|
                0 <= a < gs.len() && 0 <= b < (#[trigger] gs[a]).len() ==> size_text_idx < (
                #[trigger] gs[a][b]).cells@.len(),
            forall|a: int, b: int|
                0 <= a < out@.len() && 0 <= b < gs[a].len() ==> #[trigger] row_good(gs, a, b, ti),
            forall|a: int| 0 <= a < out@.len() ==> (#[trigger] out@[a])@.len() == gs[a].len(),
            forall|a: int, b: int|
                0 <= a < out@.len() && 0 <= b < gs[a].len() ==> info_matches(
                    #[trigger] out@[a]@[b],
                    gs[a][b],
                    ti,
                    m,
                ),
        decreases remg@.len(),
    {
        let ghost g = out@.len() as int;
        let ghost remg_old = remg@;
        let grp = remg.remove(0);
        proof {
            assert(grp == remg_old[0]);
            assert(remg@ =~= remg_old.skip(1));
            assert(groups_of(remg_old)[0] == grp@);
            assert(gs.skip(g)[0] == gs[g]);
            assert(grp@ == gs[g]);
            assert(groups_of(remg@) =~= gs.skip(g + 1)) by {
                assert forall|t: int| 0 <= t < remg@.len() implies (#[trigger] remg@[t])@ == gs[g
                    + 1 + t] by {
                    assert(remg@[t] == remg_old[t + 1]);
                    assert(groups_of(remg_old)[t + 1] == gs.skip(g)[t + 1]);
                }
            }
        }
        let ghost grow = grp@;
        let mut remr = grp;
        let mut infos: Vec<ItemInfo> = Vec::new();
        let mut first_names: Vec<String> = Vec::new();
        proof {
            assert(grow.skip(0) =~= grow);
        }
        while remr.len() > 0
            invariant
                gs == groups_of(groups@),
                ti == size_text_idx as int,
                m == client.glossary@,
                g == out@.len() as int,
                0 <= g < gs.len(),
                grow == gs[g],
                infos@.len() + remr@.len() == grow.len(),
                remr@ == grow.skip(infos@.len() as int),
                forall|a: int, b: int|
                    0 <= a < gs.len() && 0 <= b < (#[trigger] gs[a]).len() ==> size_text_idx < (
                    #[trigger] gs[a][b]).cells@.len(),
                forall|a: int, b: int|
                    0 <= a < out@.len() && 0 <= b < gs[a].len() ==> #[trigger] row_good(
                        gs,
                        a,
                        b,
                        ti,
                    ),
                forall|a: int| 0 <= a < out@.len() ==> (#[trigger] out@[a])@.len() == gs[a].len(),
                forall|a: int, b: int|
                    0 <= a < out@.len() && 0 <= b < gs[a].len() ==> info_matches(
                        #[trigger] out@[a]@[b],
                        gs[a][b],
                        ti,
                        m,
                    ),
                forall|b: int| 0 <= b < infos@.len() ==> #[trigger] row_good(gs, g, b, ti),
                forall|b: int|
                    0 <= b < infos@.len() ==> info_matches(
                        #[trigger] infos@[b],
                        grow[b],
                        ti,
                        m,
                    ),
                infos@.len() > 0 ==> str_views(first_names@) == row_names(grow[0], ti),
            decreases remr@.len(),
        {
            let ghost j = infos@.len() as int;
            let row = remr.remove(0);
            proof {
                assert(row == grow.skip(j)[0]);
                assert(grow.skip(j)[0] == grow[j]);
                assert(remr@ =~= grow.skip(j).skip(1));
                assert(grow.skip(j).skip(1) =~= grow.skip(j + 1));
                assert(row == gs[g][j]);
                assert forall|a: int, b: int|
                    0 <= a < gs.len() && 0 <= b < gs[a].len() && (a < g || (a == g && b < j))
                        implies #[trigger] row_good(gs, a, b, ti) by {}
                assert(all_good_before(gs, g, j, ti));
            }
            let SheetRow { cells, item_code, size_code } = row;
            let ic = match item_code {
                Some(ic) => ic,
                None => {
                    return Err(Error::InvalidItemCode);
                },
            };
            let sc = match size_code {
                Some(sc) => sc,
                None => {
                    return Err(Error::InvalidSizeCode);
                },
            };
            let text = cells[size_text_idx].clone();
            proof {
                assert(text@ == row_text(gs[g][j], ti));
            }
            let sd = match SizeDetails::parse(text) {
                Ok(sd) => sd,
                Err(e) => {
                    return Err(e);
                },
            };
            proof {
                lemma_pairs_to_names_values(sd.0@, row_text(gs[g][j], ti));
            }
            let names = sd.names();
            if infos.len() == 0 {
                first_names = names;
            } else {
                if !names_eq(&names, &first_names) {
                    proof {
                        assert(str_views(names@) == row_names(gs[g][j], ti));
                        assert(!row_conforms(gs[g][j], gs[g][0], ti));
                        assert(row_parses(gs[g][j], ti));
                    }
                    return Err(
                        Error::MismatchedSizeNames { error_line: cells[size_text_idx].clone() },
                    );
                }
            }
            let sd_zh = match sd.translate_to_zh(client) {
                Ok(sd_zh) => sd_zh,
                Err(e) => {
                    proof {
                        assert(false);
                    }
                    return Err(e);
                },
            };
            proof {
                assert(names_of(sd_zh.0@) =~~= resolve_all(m, row_names(gs[g][j], ti))) by {
                    assert forall|c: int| 0 <= c < names_of(sd_zh.0@).len() implies #[trigger] names_of(
                        sd_zh.0@,
                    )[c] == resolve_all(m, row_names(gs[g][j], ti))[c] by {
                        assert(names_of(sd_zh.0@)[c] == resolve_one(m, names_of(sd.0@)[c]));
                    }
                }
                assert(values_of(sd_zh.0@) == row_values(gs[g][j], ti));
                assert(row_good(gs, g, j, ti));
            }
            infos.push(ItemInfo { item_code: ic, size_code: sc, size_text: sd_zh });
            proof {
                assert(infos@[j] == ItemInfo {
                    item_code: ic,
                    size_code: sc,
                    size_text: sd_zh,
                });
                assert(info_matches(infos@[j], grow[j], ti, m));
            }
        }
        proof {
            assert(grow.skip(grow.len() as int) =~= Seq::<SheetRow>::empty());
            assert(infos@.len() == grow.len());
        }
        out.push(infos);
        proof {
            assert(gs.skip(g).skip(1) =~= gs.skip(g + 1));
        }
    }
    proof {
        assert(out@.len() == gs.len());
    }
    Ok(out)
}

/// Builds one item's table from its validated records: the header is the
/// fixed size-label column (尺码) followed by the first record's names; each
/// body row is the record's ordinal size label followed by its values, column
/// aligned to the header by position.
pub fn create_item_meta(item_infos: Vec<ItemInfo>) -> (r: ItemMeta)
    requires
        item_infos@.len() > 0,
    ensures
        meta_matches(r, item_infos@),
{
    let mut head = item_infos[0].size_text.names();
    let ghost plain = head@;
    head.insert(0, String::from_str("尺码"));
    proof {
        assert(head@ =~= seq![head@[0]] + plain);
        assert(str_views(head@) =~~= seq!["尺码"@] + names_of(item_infos@[0].size_text.0@));
    }
    let mut body: Vec<Vec<String>> = Vec::new();
    let mut rix: usize = 0;
    while rix < item_infos.len()
        invariant
            rix <= item_infos@.len(),
            body@.len() == rix,
            forall|b: int|
                0 <= b < rix ==> str_views((#[trigger] body@[b])@) == seq![
                    item_infos@[b].size_code.ordinal@,
                ] + values_of(item_infos@[b].size_text.0@),
        decreases item_infos@.len() - rix,
    {
        let mut row = item_infos[rix].size_text.values();
        let ghost vals = row@;
        row.insert(0, item_infos[rix].size_code.ordinal.clone());
        body.push(row);
        proof {
            assert(body@[rix as int]@ =~= seq![body@[rix as int]@[0]] + vals);
            assert(str_views(body@[rix as int]@) =~~= seq![item_infos@[rix as int].size_code.ordinal@]
                + values_of(item_infos@[rix as int].size_text.0@));
        }
        rix = rix + 1;
    }
    ItemMeta {
        code: item_infos[0].item_code.text.clone(),
        size_code: item_infos[0].size_code.text.clone(),
        table: ItemTable { head, body },
    }
}

/// Runs the whole pipeline: classify the header columns, group the data rows,
/// validate and parse every row, resolve names through the client's glossary,
/// and emit one table per item. Any failure aborts the run with that failure.
#[verifier::rlimit(100)]
pub fn build_tables(header: &Vec<String>, rows: Vec<SheetRow>, client: &TranslateClient) -> (r:
    Result<ProcessResponse, Error>)
    requires
        forall|i: int|
            0 <= i < rows@.len() ==> header@.len() <= (#[trigger] rows@[i]).cells@.len(),
    ensures
        ({
            let ii = label_index(header@, "品番"@);
            let si = label_index(header@, "SZ"@);
            let ti = label_index(header@, "採寸"@);
            let gs = groups_spec(rows@, ii, si);
            let m = client.glossary@;
            match r {
                Ok(resp) => classify_ok(header@) && rows@.len() > 0 && all_good(gs, ti)
                    && resp.item_meta@.len() == gs.len() && (forall|a: int|
                    0 <= a < gs.len() ==> meta_matches_group(
                        #[trigger] resp.item_meta@[a],
                        gs[a],
                        ti,
                        m,
                    )),
                Err(e) => match e {
                    Error::InvalidSheetFormat => !classify_ok(header@),
                    Error::EmptyFile => classify_ok(header@) && rows@.len() == 0,
                    Error::InvalidItemCode => classify_ok(header@) && rows@.len() > 0 && (exists|
                        a: int,
                        b: int,
                    |
                        0 <= a < gs.len() && 0 <= b < gs[a].len() && #[trigger] all_good_before(
                            gs,
                            a,
                            b,
                            ti,
                        ) && gs[a][b].item_code is None),
                    Error::InvalidSizeCode => classify_ok(header@) && rows@.len() > 0 && (exists|
                        a: int,
                        b: int,
                    |
                        0 <= a < gs.len() && 0 <= b < gs[a].len() && #[trigger] all_good_before(
                            gs,
                            a,
                            b,
                            ti,
                        ) && gs[a][b].item_code is Some && gs[a][b].size_code is None),
                    Error::EmptySizeText => classify_ok(header@) && rows@.len() > 0 && (exists|
                        a: int,
                        b: int,
                    |
                        0 <= a < gs.len() && 0 <= b < gs[a].len() && #[trigger] all_good_before(
                            gs,
                            a,
                            b,
                            ti,
                        ) && gs[a][b].item_code is Some && gs[a][b].size_code is Some
                            && grammar_empty(row_text(gs[a][b], ti))),
                    Error::InvalidSizeText { error_line } => classify_ok(header@) && rows@.len()
                        > 0 && (exists|a: int, b: int|
                        0 <= a < gs.len() && 0 <= b < gs[a].len() && #[trigger] all_good_before(
                            gs,
                            a,
                            b,
                            ti,
                        ) && gs[a][b].item_code is Some && gs[a][b].size_code is Some
                            && !grammar_empty(row_text(gs[a][b], ti)) && !grammar_ok(
                            row_text(gs[a][b], ti),
                        ) && error_line@ == first_bad_token(row_text(gs[a][b], ti))),
                    Error::MismatchedSizeNames { error_line } => classify_ok(header@)
                        && rows@.len() > 0 && (exists|a: int, b: int|
                        0 <= a < gs.len() && 0 <= b < gs[a].len() && #[trigger] all_good_before(
                            gs,
                            a,
                            b,
                            ti,
                        ) && row_parses(gs[a][b], ti) && !row_conforms(gs[a][b], gs[a][0], ti)
                            && error_line@ == row_text(gs[a][b], ti)),
                    _ => false,
                },
            }
        }),
{
    let idx = match get_column_indices(header) {
        Ok(idx) => idx,
        Err(_) => {
            return Err(Error::InvalidSheetFormat);
        },
    };
    let (item_code_idx, size_code_idx, size_text_idx) = idx;
    if rows.len() == 0 {
        return Err(Error::EmptyFile);
    }
    let ghost rows0 = rows@;
    let gs_exec = match group_rows(rows, item_code_idx, size_code_idx) {
        Ok(gs_exec) => gs_exec,
        Err(e) => {
            proof {
                assert(false);
            }
            return Err(e);
        },
    };
    let ghost gs = groups_spec(rows0, item_code_idx as int, size_code_idx as int);
    proof {
        assert(groups_of(gs_exec@) == gs);
        assert forall|a: int, b: int|
            0 <= a < gs_exec@.len() && 0 <= b < (#[trigger] gs_exec@[a])@.len() implies
            size_text_idx < (#[trigger] gs_exec@[a]@[b]).cells@.len() by {
            assert(rows0.contains(gs_exec@[a]@[b]));
            let w = choose|w: int| 0 <= w < rows0.len() && rows0[w] == gs_exec@[a]@[b];
            assert(header@.len() <= rows0[w].cells@.len());
        }
    }
    let infos = match process_excel_rows(gs_exec, size_text_idx, client) {
        Ok(infos) => infos,
        Err(e) => {
            return Err(e);
        },
    };
    let ghost m = client.glossary@;
    let ghost ti = size_text_idx as int;
    let mut item_meta: Vec<ItemMeta> = Vec::new();
    let mut remi = infos;
    proof {
        assert(gs.skip(0) =~= gs);
    }
    while remi.len() > 0
        invariant
            ti == size_text_idx as int,
            m == client.glossary@,
            item_meta@.len() + remi@.len() == gs.len(),
            all_good(gs, ti),
            forall|a: int|
                0 <= a < gs.len() ==> (#[trigger] gs[a]).len() > 0,
            forall|t: int|
                0 <= t < remi@.len() ==> (#[trigger] remi@[t])@.len() == gs[t
                    + item_meta@.len()].len(),
            forall|t: int, b: int| #![trigger remi@[t]@[b]]
                0 <= t < remi@.len() && 0 <= b < gs[t + item_meta@.len()].len() ==> info_matches(
                    remi@[t]@[b],
                    gs[t + item_meta@.len()][b],
                    ti,
                    m,
                ),
            forall|a: int|
                0 <= a < item_meta@.len() ==> meta_matches_group(
                    #[trigger] item_meta@[a],
                    gs[a],
                    ti,
                    m,
                ),
        decreases remi@.len(),
    {
        let ghost a = item_meta@.len() as int;
        let ghost remi_old = remi@;
        let ginfos = remi.remove(0);
        proof {
            assert(ginfos == remi_old[0]);
            assert(remi@ =~= remi_old.skip(1));
            assert(forall|t: int| 0 <= t < remi@.len() ==> remi@[t] == remi_old[t + 1]);
            assert(remi_old[0]@.len() == gs[a].len());
            assert(gs[a].len() > 0);
            assert forall|b: int| 0 <= b < gs[a].len() implies info_matches(
                #[trigger] ginfos@[b],
                gs[a][b],
                ti,
                m,
            ) by {
                assert(info_matches(remi_old[0]@[b], gs[0 + a][b], ti, m));
            }
        }
        let meta = create_item_meta(ginfos);
        proof {
            let grp = gs[a];
            assert(ginfos@.len() == grp.len());
            assert(info_matches(ginfos@[0], grp[0], ti, m));
            assert(meta.code == grp[0].item_code->0.text);
            assert(meta.size_code == grp[0].size_code->0.text);
            assert(names_of(ginfos@[0].size_text.0@) == resolve_all(m, row_names(grp[0], ti)));
            assert(str_views(meta.table.head@) == seq!["尺码"@] + resolve_all(
                m,
                row_names(grp[0], ti),
            ));
            assert forall|b: int| 0 <= b < grp.len() implies str_views(
                (#[trigger] meta.table.body@[b])@,
            ) == seq![grp[b].size_code->0.ordinal@] + row_values(grp[b], ti) by {
                assert(info_matches(ginfos@[b], grp[b], ti, m));
                assert(ginfos@[b].size_code == grp[b].size_code->0);
                assert(values_of(ginfos@[b].size_text.0@) == row_values(grp[b], ti));
            }
            assert(meta_matches_group(meta, grp, ti, m));
        }
        item_meta.push(meta);
    }
    Ok(ProcessResponse { item_meta })
}

} // verus!
