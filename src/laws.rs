use crate::errors::Error;
use crate::sheet::{
    alignment, cell_matches, coord, first_match, first_misaligned, found_in_group, misaligned_at,
    pos, prev_found, scan, sheet_outcome, tag_addresses, Cell, Grid, Sheet,
};
use crate::tags::{catalog, lemma_catalog_shape, ord, TagID, TagInfo, LAST_REQUIRED, TAG_COUNT};
use vstd::prelude::*;

verus! {

/// The required tags of a sequence, in their order.
pub open spec fn required_only(ts: Seq<TagInfo>) -> Seq<TagInfo> {
    ts.filter(|t: TagInfo| t.is_required)
}

/// Some optional tag of `ts` has identifier `k`.
pub open spec fn optional_id(ts: Seq<TagInfo>, k: TagID) -> bool {
    exists|i: int| 0 <= i < ts.len() && !(#[trigger] ts[i]).is_required && ts[i].id == k
}

proof fn lemma_first_match_at_most(cells: Seq<Cell>, t: TagInfo, from: int, p: int)
    requires
        0 <= from <= p < cells.len(),
        cell_matches(t, cells[p]),
    ensures
        from <= first_match(cells, t, from) <= p,
    decreases p - from,
{
    if !cell_matches(t, cells[from]) {
        lemma_first_match_at_most(cells, t, from + 1, p);
    }
}

proof fn lemma_ordered_scan(cells: Seq<Cell>, ts: Seq<TagInfo>, ps: Seq<int>, q: int)
    requires
        ps.len() == ts.len(),
        forall|i: int| 0 <= i < ts.len() && (#[trigger] ts[i]).is_required ==> 0 <= ps[i] < cells.len()
            && cell_matches(ts[i], cells[ps[i]]),
        forall|i: int, j: int| 0 <= i < j < ts.len() && (#[trigger] ts[i]).is_required && (#[trigger] ts[j]).is_required
            ==> ps[i] < ps[j],
        q >= 0,
        forall|i: int| 0 <= i < ts.len() && (#[trigger] ts[i]).is_required ==> ps[i] < q,
    ensures
        scan(cells, ts).0 <= q,
        forall|i: int| 0 <= i < ts.len() && (#[trigger] ts[i]).is_required ==> scan(cells, ts).1.contains_key(ts[i].id),
    decreases ts.len(),
{
    if ts.len() > 0 {
        let n = ts.len() - 1;
        let pre = ts.drop_last();
        let t = ts.last();
        let prev = scan(cells, pre);
        crate::sheet::lemma_scan_bounds(cells, pre, (0, 0));
        assert forall|i: int| 0 <= i < n implies #[trigger] pre[i] == ts[i] && ps.drop_last()[i] == ps[i] by {}
        if t.is_required {
            lemma_ordered_scan(cells, pre, ps.drop_last(), ps[n]);
            lemma_first_match_at_most(cells, t, prev.0, ps[n]);
        } else {
            lemma_ordered_scan(cells, pre, ps.drop_last(), q);
        }
        assert forall|i: int| 0 <= i < ts.len() && (#[trigger] ts[i]).is_required implies scan(cells, ts).1.contains_key(ts[i].id) by {
            if i < n {
                assert(pre[i] == ts[i]);
            }
        }
    }
}

/// A sheet that holds every required tag, matched by cells that come in the
/// catalog's order of the required tags, gets an address for every required
/// tag, the last one included, so the completeness stage passes.
pub proof fn lemma_ordered_sheet_is_complete(cells: Seq<Cell>, ps: Seq<int>)
    requires
        ps.len() == TAG_COUNT,
        forall|i: int| 0 <= i < TAG_COUNT && (#[trigger] catalog()[i]).is_required ==> 0 <= ps[i] < cells.len()
            && cell_matches(catalog()[i], cells[ps[i]]),
        forall|i: int, j: int| 0 <= i < j < TAG_COUNT && (#[trigger] catalog()[i]).is_required && (#[trigger] catalog()[j]).is_required
            ==> ps[i] < ps[j],
    ensures
        forall|i: int| 0 <= i < TAG_COUNT && (#[trigger] catalog()[i]).is_required ==> tag_addresses(cells).contains_key(catalog()[i].id),
        tag_addresses(cells).contains_key(LAST_REQUIRED),
{
    lemma_catalog_shape();
    lemma_ordered_scan(cells, catalog(), ps, cells.len() as int);
    assert(catalog()[TAG_COUNT - 1].is_required);
}

proof fn lemma_scan_keys_from(cells: Seq<Cell>, ts: Seq<TagInfo>, k: TagID)
    requires
        scan(cells, ts).1.contains_key(k),
    ensures
        exists|i: int| 0 <= i < ts.len() && (#[trigger] ts[i]).id == k,
    decreases ts.len(),
{
    if ts.len() > 0 && ts.last().id != k {
        lemma_scan_keys_from(cells, ts.drop_last(), k);
        let i = choose|i: int| 0 <= i < ts.drop_last().len() && (#[trigger] ts.drop_last()[i]).id == k;
        assert(ts[i] == ts.drop_last()[i]);
    }
}

proof fn lemma_exhausted(cells: Seq<Cell>, ts: Seq<TagInfo>, m: int)
    requires
        0 <= m <= ts.len(),
        scan(cells, ts.take(m)).0 == cells.len(),
    ensures
        scan(cells, ts).0 == cells.len(),
    decreases ts.len(),
{
    if ts.len() == m {
        assert(ts.take(m) =~= ts);
    } else {
        assert(ts.drop_last().take(m) =~= ts.take(m));
        lemma_exhausted(cells, ts.drop_last(), m);
    }
}

/// When some required tag has no matching cell at or after the cursor that
/// the earlier required tags left (its label stands only before the tag found
/// last, or nowhere), the last required tag gets no address: the sheet is
/// refused as incomplete, and no coordinate is attributed to it.
pub proof fn lemma_out_of_order_is_incomplete(cells: Seq<Cell>, t: int)
    requires
        0 <= t < TAG_COUNT,
        catalog()[t].is_required,
        forall|j: int| scan(cells, catalog().take(t)).0 <= j < cells.len() && 0 <= j ==> !cell_matches(catalog()[t], #[trigger] cells[j]),
    ensures
        !tag_addresses(cells).contains_key(LAST_REQUIRED),
        forall|r: Result<Sheet, Error>, path: String, name: String, g: Grid|
            g.cells@ == cells && g.start is Some && #[trigger] sheet_outcome(r, path, name, g)
            ==> r == Err::<Sheet, Error>(Error::SheetNotContainAllNecessaryData { file_path: path }),
{
    lemma_catalog_shape();
    let cur = scan(cells, catalog().take(t)).0;
    crate::sheet::lemma_scan_bounds(cells, catalog().take(t), (0, 0));
    lemma_no_match_after(cells, catalog()[t], cur);
    assert(catalog().take(t + 1).drop_last() =~= catalog().take(t));
    assert(catalog().take(t + 1).last() == catalog()[t]);
    assert(scan(cells, catalog().take(t + 1)).0 == cells.len());
    let last = TAG_COUNT - 1;
    let pre = catalog().take(last as int);
    if t < last {
        assert(pre.take(t + 1) =~= catalog().take(t + 1));
        lemma_exhausted(cells, pre, t + 1);
        lemma_no_match_after(cells, catalog()[last as int], cells.len() as int);
    } else {
        assert(pre =~= catalog().take(t));
    }
    assert(catalog().drop_last() =~= pre);
    assert(first_match(cells, catalog()[last as int], scan(cells, pre).0) == cells.len());
    if scan(cells, pre).1.contains_key(LAST_REQUIRED) {
        lemma_scan_keys_from(cells, pre, LAST_REQUIRED);
        let i = choose|i: int| 0 <= i < pre.len() && (#[trigger] pre[i]).id == LAST_REQUIRED;
        assert(pre[i] == catalog()[i]);
        assert(ord(catalog()[i].id) == i);
    }
}

proof fn lemma_no_match_after(cells: Seq<Cell>, t: TagInfo, from: int)
    requires
        0 <= from <= cells.len(),
        forall|j: int| from <= j < cells.len() ==> !cell_matches(t, #[trigger] cells[j]),
    ensures
        first_match(cells, t, from) == cells.len(),
    decreases cells.len() - from,
{
    if from < cells.len() {
        lemma_no_match_after(cells, t, from + 1);
    }
}

/// Optional tags never move the cursor shared by the required tags, and
/// never change what is found for an identifier that no optional tag uses:
/// scanning a tag sequence and scanning only its required tags agree on both,
/// wherever the optional tags stand in the sequence and whether or not they
/// are found.
pub proof fn lemma_optional_tags_are_independent(cells: Seq<Cell>, ts: Seq<TagInfo>)
    ensures
        scan(cells, ts).0 == scan(cells, required_only(ts)).0,
        forall|k: TagID| !optional_id(ts, k) ==> (#[trigger] scan(cells, ts).1.contains_key(k)
            <==> scan(cells, required_only(ts)).1.contains_key(k)) && (scan(cells, ts).1.contains_key(k)
            ==> scan(cells, ts).1[k] == scan(cells, required_only(ts)).1[k]),
    decreases ts.len(),
{
    if ts.len() > 0 {
        let pre = ts.drop_last();
        let t = ts.last();
        lemma_optional_tags_are_independent(cells, pre);
        let fpre = required_only(pre);
        reveal(Seq::filter);
        assert(required_only(ts) == if t.is_required { fpre.push(t) } else { fpre });
        if t.is_required {
            assert(fpre.push(t).drop_last() =~= fpre);
        }
        assert forall|k: TagID| !optional_id(ts, k) implies !optional_id(pre, k) by {
            if optional_id(pre, k) {
                let i = choose|i: int| 0 <= i < pre.len() && !(#[trigger] pre[i]).is_required && pre[i].id == k;
                assert(ts[i] == pre[i]);
            }
        }
        assert forall|k: TagID| !optional_id(ts, k) && !t.is_required implies k != t.id by {
            assert(ts[ts.len() - 1] == t);
        }
    }
}

proof fn lemma_prev_found(m: Map<TagID, (usize, usize)>, is_row: bool, g: int, y: int, x: int)
    requires
        0 <= x < y,
        found_in_group(m, is_row, g, x),
    ensures
        x <= prev_found(m, is_row, g, y) < y,
        found_in_group(m, is_row, g, prev_found(m, is_row, g, y)),
    decreases y,
{
    if !found_in_group(m, is_row, g, y - 1) {
        lemma_prev_found(m, is_row, g, y - 1, x);
    }
}

proof fn lemma_first_misaligned_none(m: Map<TagID, (usize, usize)>, is_row: bool, j: int, x: int)
    requires
        0 <= j <= x < TAG_COUNT,
        first_misaligned(m, is_row, j) == TAG_COUNT,
    ensures
        !misaligned_at(m, is_row, x),
    decreases x - j,
{
    if j < x {
        lemma_first_misaligned_none(m, is_row, j + 1, x);
    }
}

proof fn lemma_first_misaligned_is(m: Map<TagID, (usize, usize)>, is_row: bool, j: int, y: int)
    requires
        0 <= j <= y < TAG_COUNT,
        misaligned_at(m, is_row, y),
        forall|x: int| j <= x < y ==> !#[trigger] misaligned_at(m, is_row, x),
    ensures
        first_misaligned(m, is_row, j) == y,
    decreases y - j,
{
    if j < y {
        lemma_first_misaligned_is(m, is_row, j + 1, y);
    }
}

proof fn lemma_group_shares_coord(m: Map<TagID, (usize, usize)>, is_row: bool, g: int, x: int, y: int)
    requires
        0 <= x < y < TAG_COUNT,
        found_in_group(m, is_row, g, x),
        found_in_group(m, is_row, g, y),
        forall|z: int| 0 <= z < TAG_COUNT ==> !#[trigger] misaligned_at(m, is_row, z),
    ensures
        coord(m[catalog()[x].id], is_row) == coord(m[catalog()[y].id], is_row),
    decreases y,
{
    lemma_prev_found(m, is_row, g, y, x);
    let k = prev_found(m, is_row, g, y);
    assert(!misaligned_at(m, is_row, y));
    if k > x {
        lemma_group_shares_coord(m, is_row, g, x, k);
    }
}

/// Two tags of one alignment group found on different rows (or columns) make
/// the alignment pass of that axis fail. When they are the first such pair,
/// the second found right after the first within the group and nothing
/// misaligned before, the error names exactly these two tags, with their
/// one-based indices on the sheet: the used range's first cell at `start`
/// is added to the coordinates within the range.
pub proof fn lemma_misaligned_pair_fails(
    m: Map<TagID, (usize, usize)>,
    start: (usize, usize),
    is_row: bool,
    g: int,
    x: int,
    y: int,
    path: String,
)
    requires
        0 <= x < y < TAG_COUNT,
        found_in_group(m, is_row, g, x),
        found_in_group(m, is_row, g, y),
        coord(m[catalog()[x].id], is_row) != coord(m[catalog()[y].id], is_row),
        coord(start, is_row) + coord(m[catalog()[x].id], is_row) < usize::MAX,
        coord(start, is_row) + coord(m[catalog()[y].id], is_row) < usize::MAX,
    ensures
        alignment(m, start, is_row, path) is Err,
        alignment(m, start, is_row, path) matches Err(Error::SheetMisalignment { is_row_algmnt_check, .. })
            && is_row_algmnt_check == is_row,
        (prev_found(m, is_row, g, y) == x && forall|z: int| 0 <= z < y ==> !#[trigger] misaligned_at(m, is_row, z))
            ==> alignment(m, start, is_row, path) == Err::<(), Error>(Error::SheetMisalignment {
            is_row_algmnt_check: is_row,
            fst_tag: catalog()[x].id,
            fst_tag_index_on_sheet: (coord(start, is_row) + coord(m[catalog()[x].id], is_row) + 1) as usize,
            snd_tag: catalog()[y].id,
            snd_tag_index_on_sheet: (coord(start, is_row) + coord(m[catalog()[y].id], is_row) + 1) as usize,
            file_path: path,
        }),
{
    if first_misaligned(m, is_row, 0) == TAG_COUNT {
        assert forall|z: int| 0 <= z < TAG_COUNT implies !#[trigger] misaligned_at(m, is_row, z) by {
            lemma_first_misaligned_none(m, is_row, 0, z);
        }
        lemma_group_shares_coord(m, is_row, g, x, y);
    }
    lemma_first_misaligned_range(m, is_row, 0);
    if prev_found(m, is_row, g, y) == x && forall|z: int| 0 <= z < y ==> !#[trigger] misaligned_at(m, is_row, z) {
        assert(misaligned_at(m, is_row, y));
        lemma_first_misaligned_is(m, is_row, 0, y);
    }
}

proof fn lemma_first_misaligned_range(m: Map<TagID, (usize, usize)>, is_row: bool, j: int)
    requires
        0 <= j <= TAG_COUNT,
    ensures
        j <= first_misaligned(m, is_row, j) <= TAG_COUNT,
        first_misaligned(m, is_row, j) < TAG_COUNT ==> misaligned_at(m, is_row, first_misaligned(m, is_row, j)),
    decreases TAG_COUNT - j,
{
    if j < TAG_COUNT && !misaligned_at(m, is_row, j) {
        lemma_first_misaligned_range(m, is_row, j + 1);
    }
}

/// Building a sheet twice from the same range gives the same outcome: the
/// same error, or sheets with identical tag addresses.
pub proof fn lemma_scan_is_deterministic(r1: Result<Sheet, Error>, r2: Result<Sheet, Error>, path: String, name: String, range: Grid)
    requires
        sheet_outcome(r1, path, name, range),
        sheet_outcome(r2, path, name, range),
    ensures
        r1 is Ok <==> r2 is Ok,
        r1 is Err ==> r1 == r2,
        r1 is Ok ==> r1->Ok_0.tag_address_map@ == r2->Ok_0.tag_address_map@,
        r1 is Ok ==> r1->Ok_0.tag_address_map@ == tag_addresses(range.cells@),
{
}

/// For the catalog: whatever the optional tags find, every required tag gets
/// the address that a scan of the required tags alone gives it.
pub proof fn lemma_catalog_required_ignore_optional(cells: Seq<Cell>)
    ensures
        forall|i: int| 0 <= i < TAG_COUNT && (#[trigger] catalog()[i]).is_required ==> (tag_addresses(cells).contains_key(
            catalog()[i].id,
        ) <==> scan(cells, required_only(catalog())).1.contains_key(catalog()[i].id)) && (tag_addresses(
            cells,
        ).contains_key(catalog()[i].id) ==> tag_addresses(cells)[catalog()[i].id] == scan(
            cells,
            required_only(catalog()),
        ).1[catalog()[i].id]),
{
    lemma_catalog_shape();
    lemma_optional_tags_are_independent(cells, catalog());
    assert forall|i: int| 0 <= i < TAG_COUNT && (#[trigger] catalog()[i]).is_required implies !optional_id(
        catalog(),
        catalog()[i].id,
    ) by {
        if optional_id(catalog(), catalog()[i].id) {
            let x = choose|x: int| 0 <= x < catalog().len() && !(#[trigger] catalog()[x]).is_required
                && catalog()[x].id == catalog()[i].id;
            assert(ord(catalog()[x].id) == x);
            assert(ord(catalog()[i].id) == i);
        }
    }
}

proof fn lemma_scan_sound(cells: Seq<Cell>, ts: Seq<TagInfo>)
    ensures
        forall|k: TagID| #[trigger] scan(cells, ts).1.contains_key(k) ==> exists|i: int, j: int|
            0 <= i < ts.len() && 0 <= j < cells.len() && ts[i].id == k && #[trigger] cell_matches(ts[i], cells[j])
                && pos(cells[j]) == scan(cells, ts).1[k],
    decreases ts.len(),
{
    if ts.len() > 0 {
        let pre = ts.drop_last();
        let t = ts.last();
        lemma_scan_sound(cells, pre);
        let prev = scan(cells, pre);
        let from = if t.is_required { prev.0 } else { 0 };
        crate::sheet::lemma_scan_bounds(cells, pre, (0, 0));
        crate::sheet::lemma_first_match_bound(cells, t, from);
        let j = first_match(cells, t, from);
        assert forall|k: TagID| #[trigger] scan(cells, ts).1.contains_key(k) implies exists|i: int, j: int|
            0 <= i < ts.len() && 0 <= j < cells.len() && ts[i].id == k && #[trigger] cell_matches(ts[i], cells[j])
                && pos(cells[j]) == scan(cells, ts).1[k] by {
            if j < cells.len() && k == t.id {
                assert(ts[ts.len() - 1] == t);
                assert(cell_matches(ts[ts.len() - 1], cells[j]));
            } else {
                assert(prev.1.contains_key(k));
                let (i, j2) = choose|i: int, j2: int|
                    0 <= i < pre.len() && 0 <= j2 < cells.len() && pre[i].id == k && #[trigger] cell_matches(pre[i], cells[j2])
                        && pos(cells[j2]) == prev.1[k];
                assert(ts[i] == pre[i]);
                assert(cell_matches(ts[i], cells[j2]));
            }
        }
    }
}

/// No coordinate is ever attributed to a tag wrongly: every address the scan
/// records is the position of a cell that the tag's own catalog entry matches.
pub proof fn lemma_addresses_are_matching_cells(cells: Seq<Cell>, k: TagID)
    requires
        tag_addresses(cells).contains_key(k),
    ensures
        exists|j: int| 0 <= j < cells.len() && #[trigger] cell_matches(catalog()[ord(k)], cells[j])
            && pos(cells[j]) == tag_addresses(cells)[k],
{
    lemma_catalog_shape();
    lemma_scan_sound(cells, catalog());
    let (i, j) = choose|i: int, j: int|
        0 <= i < catalog().len() && 0 <= j < cells.len() && catalog()[i].id == k && #[trigger] cell_matches(catalog()[i], cells[j])
            && pos(cells[j]) == scan(cells, catalog()).1[k];
    assert(ord(catalog()[i].id) == i);
    assert(cell_matches(catalog()[ord(k)], cells[j]));
}

/// The cell matches some required tag of the catalog.
pub open spec fn matches_required(c: Cell) -> bool {
    exists|i: int| 0 <= i < required_only(catalog()).len() && #[trigger] cell_matches(required_only(catalog())[i], c)
}

/// The cells that match some required tag, in their order.
pub open spec fn relevant_cells(cells: Seq<Cell>) -> Seq<Cell> {
    cells.filter(|c: Cell| matches_required(c))
}

spec fn cnt(cells: Seq<Cell>, c: int) -> int {
    relevant_cells(cells.take(c)).len() as int
}

proof fn lemma_relevant_step(cells: Seq<Cell>, c: int)
    requires
        0 <= c < cells.len(),
    ensures
        relevant_cells(cells.take(c + 1)) == if matches_required(cells[c]) {
            relevant_cells(cells.take(c)).push(cells[c])
        } else {
            relevant_cells(cells.take(c))
        },
{
    reveal(Seq::filter);
    assert(cells.take(c + 1).drop_last() =~= cells.take(c));
    assert(cells.take(c + 1).last() == cells[c]);
}

proof fn lemma_relevant_prefix(cells: Seq<Cell>, c: int)
    requires
        0 <= c <= cells.len(),
    ensures
        cnt(cells, c) <= relevant_cells(cells).len(),
        forall|i: int| 0 <= i < cnt(cells, c) ==> relevant_cells(cells.take(c))[i] == #[trigger] relevant_cells(cells)[i],
    decreases cells.len() - c,
{
    if c == cells.len() {
        assert(cells.take(c) =~= cells);
    } else {
        lemma_relevant_prefix(cells, c + 1);
        lemma_relevant_step(cells, c);
        assert forall|i: int| 0 <= i < cnt(cells, c) implies relevant_cells(cells.take(c))[i] == #[trigger] relevant_cells(cells)[i] by {
            assert(relevant_cells(cells.take(c))[i] == relevant_cells(cells.take(c + 1))[i]);
        }
    }
}

/// A relevant cell at `c` stands at `cnt(c)` among the relevant cells.
proof fn lemma_relevant_at(cells: Seq<Cell>, c: int)
    requires
        0 <= c < cells.len(),
        matches_required(cells[c]),
    ensures
        cnt(cells, c) < relevant_cells(cells).len(),
        relevant_cells(cells)[cnt(cells, c)] == cells[c],
        cnt(cells, c + 1) == cnt(cells, c) + 1,
{
    lemma_relevant_step(cells, c);
    lemma_relevant_prefix(cells, c + 1);
    assert(relevant_cells(cells.take(c + 1))[cnt(cells, c)] == cells[c]);
}

proof fn lemma_first_match_relevant(cells: Seq<Cell>, t: TagInfo, c: int)
    requires
        0 <= c <= cells.len(),
        forall|x: Cell| cell_matches(t, x) ==> #[trigger] matches_required(x),
    ensures
        ({
            let f = relevant_cells(cells);
            let j = first_match(cells, t, c);
            let jf = first_match(f, t, cnt(cells, c));
            if j < cells.len() {
                0 <= j && jf == cnt(cells, j) && jf < f.len() && f[jf] == cells[j] && cnt(cells, j + 1) == jf + 1
            } else {
                jf == f.len()
            }
        }),
    decreases cells.len() - c,
{
    let f = relevant_cells(cells);
    if c == cells.len() {
        assert(cells.take(c) =~= cells);
    } else {
        lemma_relevant_prefix(cells, c);
        lemma_first_match_relevant(cells, t, c + 1);
        lemma_relevant_step(cells, c);
        if matches_required(cells[c]) {
            lemma_relevant_at(cells, c);
        }
    }
}

proof fn lemma_scan_relevant(cells: Seq<Cell>, ts: Seq<TagInfo>)
    requires
        forall|i: int| 0 <= i < ts.len() ==> (#[trigger] ts[i]).is_required && forall|x: Cell|
            cell_matches(ts[i], x) ==> #[trigger] matches_required(x),
    ensures
        scan(relevant_cells(cells), ts).0 == cnt(cells, scan(cells, ts).0),
        scan(relevant_cells(cells), ts).1 == scan(cells, ts).1,
    decreases ts.len(),
{
    if ts.len() == 0 {
        reveal(Seq::filter);
        assert(cells.take(0) =~= Seq::<Cell>::empty());
        assert(relevant_cells(cells.take(0)).len() == 0);
    } else {
        let pre = ts.drop_last();
        assert forall|i: int| 0 <= i < pre.len() implies (#[trigger] pre[i]).is_required && forall|x: Cell|
            cell_matches(pre[i], x) ==> #[trigger] matches_required(x) by {
            assert(pre[i] == ts[i]);
        }
        lemma_scan_relevant(cells, pre);
        let t = ts.last();
        assert(ts[ts.len() - 1] == t);
        crate::sheet::lemma_scan_bounds(cells, pre, (0, 0));
        lemma_first_match_relevant(cells, t, scan(cells, pre).0);
        let f = relevant_cells(cells);
        let j = first_match(cells, t, scan(cells, pre).0);
        crate::sheet::lemma_first_match_bound(cells, t, scan(cells, pre).0);
        assert(t.is_required);
        if j == cells.len() {
            assert(cells.take(cells.len() as int) =~= cells);
            assert(cnt(cells, cells.len() as int) == f.len());
            assert(scan(cells, ts).0 == cells.len());
            assert(scan(f, ts).0 == f.len());
        } else {
            assert(scan(cells, ts).0 == j + 1);
            assert(scan(f, ts).0 == cnt(cells, j) + 1);
        }
    }
}

/// Cells that match no required tag have no effect on the required tags:
/// two sheets whose cells matching some required tag are the same, in the
/// same order, whatever other cells they add or lack (optional labels among
/// them), give every required tag the same address, or none in both, and so
/// pass or fail the completeness stage alike.
pub proof fn lemma_irrelevant_cells_do_not_matter(cells1: Seq<Cell>, cells2: Seq<Cell>)
    requires
        relevant_cells(cells1) == relevant_cells(cells2),
    ensures
        forall|i: int| 0 <= i < TAG_COUNT && (#[trigger] catalog()[i]).is_required ==> (tag_addresses(cells1).contains_key(
            catalog()[i].id,
        ) <==> tag_addresses(cells2).contains_key(catalog()[i].id)) && (tag_addresses(cells1).contains_key(
            catalog()[i].id,
        ) ==> tag_addresses(cells1)[catalog()[i].id] == tag_addresses(cells2)[catalog()[i].id]),
        tag_addresses(cells1).contains_key(LAST_REQUIRED) == tag_addresses(cells2).contains_key(LAST_REQUIRED),
{
    let rs = required_only(catalog());
    assert forall|i: int| 0 <= i < rs.len() implies (#[trigger] rs[i]).is_required && forall|x: Cell|
        cell_matches(rs[i], x) ==> #[trigger] matches_required(x) by {
        catalog().lemma_filter_pred(|t: TagInfo| t.is_required, i);
    }
    lemma_scan_relevant(cells1, rs);
    lemma_scan_relevant(cells2, rs);
    lemma_catalog_required_ignore_optional(cells1);
    lemma_catalog_required_ignore_optional(cells2);
    lemma_catalog_shape();
    assert(catalog()[TAG_COUNT - 1].is_required);
}

} // verus!
