use crate::errors::Error;
use crate::tags::{
    catalog, lemma_catalog_shape, tag_catalog, Column, Row, TagAddressMap, TagID, TagInfo,
    TextCmp, LAST_REQUIRED, TAG_COUNT,
};
use crate::tags::label;
use crate::text::{
    contains, ends_with, is_infix, is_prefix, is_suffix, lower_of, lowercase, starts_with,
};
use vstd::prelude::*;

verus! {

/// A populated cell: its position in the used range and its text, if the
/// cell holds text (a number or an error holds none).
#[derive(Clone, Debug)]
pub struct Cell {
    pub row: usize,
    pub col: usize,
    pub text: Option<String>,
}

/// The used range of a worksheet: the coordinate of its first populated cell,
/// if there is one, and its populated cells in reading order (row by row, left
/// to right).
#[derive(Clone, Debug)]
pub struct Grid {
    pub start: Option<(usize, usize)>,
    pub cells: Vec<Cell>,
}

/// Every cell's one-based row and column on the sheet, counted from the
/// range's first cell at `start`, fits a `usize`.
pub open spec fn coords_fit(cells: Seq<Cell>, start: (usize, usize)) -> bool {
    forall|i: int| 0 <= i < cells.len() ==> start.0 + #[trigger] cells[i].row < usize::MAX && start.1 + cells[i].col < usize::MAX
}

/// The one-based index on the sheet of a coordinate of the used range.
pub open spec fn sheet_index(start: (usize, usize), p: (usize, usize), is_row: bool) -> usize {
    (coord(start, is_row) + coord(p, is_row) + 1) as usize
}

/// The form in which a tag compares a text: as it is, or in lowercase.
pub open spec fn normal(t: TagInfo, s: Seq<char>) -> Seq<char> {
    if t.match_case { s } else { lower_of(s) }
}

pub open spec fn compares(mode: TextCmp, c: Seq<char>, p: Seq<char>) -> bool {
    match mode {
        TextCmp::Whole => c == p,
        TextCmp::Part => is_infix(c, p),
        TextCmp::StartsWith => is_prefix(c, p),
        TextCmp::EndsWith => is_suffix(c, p),
    }
}

/// The cell holds text that the tag's label matches under the tag's mode.
pub open spec fn cell_matches(t: TagInfo, c: Cell) -> bool {
    match c.text {
        Some(s) => compares(t.look_at, normal(t, s@), normal(t, label(t.id))),
        None => false,
    }
}

/// Index of the first cell at or after `from` that the tag matches, or the
/// number of cells if there is none.
pub open spec fn first_match(cells: Seq<Cell>, t: TagInfo, from: int) -> int
    decreases cells.len() - from,
{
    if from < 0 || from >= cells.len() {
        cells.len() as int
    } else if cell_matches(t, cells[from]) {
        from
    } else {
        first_match(cells, t, from + 1)
    }
}

pub open spec fn pos(c: Cell) -> (usize, usize) {
    (c.row, c.col)
}

/// The scan of `cells` for the tags `ts` in order: the position of the cursor
/// shared by the required tags, and where each tag found stands. A required
/// tag is searched from the cursor, which then moves past the cell found, or
/// to the end when there is none. An optional tag is searched over all cells
/// and leaves the cursor where it is.
pub open spec fn scan(cells: Seq<Cell>, ts: Seq<TagInfo>) -> (int, Map<TagID, (usize, usize)>)
    decreases ts.len(),
{
    if ts.len() == 0 {
        (0, Map::empty())
    } else {
        let (cur, m) = scan(cells, ts.drop_last());
        let t = ts.last();
        let j = first_match(cells, t, if t.is_required { cur } else { 0 });
        if j < cells.len() {
            (if t.is_required { j + 1 } else { cur }, m.insert(t.id, pos(cells[j])))
        } else {
            (if t.is_required { cells.len() as int } else { cur }, m)
        }
    }
}

/// Where the catalog's tags stand on a sheet with these cells.
pub open spec fn tag_addresses(cells: Seq<Cell>) -> Map<TagID, (usize, usize)> {
    scan(cells, catalog()).1
}

/// Alignment group of a tag on an axis (rows when `is_row`).
pub open spec fn group(t: TagInfo, is_row: bool) -> Option<int> {
    if is_row {
        match t.group_by_row {
            Some(Row::TableHeader) => Some(0int),
            None => None,
        }
    } else {
        match t.group_by_col {
            Some(Column::Initial) => Some(0int),
            Some(Column::Contract) => Some(1int),
            None => None,
        }
    }
}

pub open spec fn coord(p: (usize, usize), is_row: bool) -> usize {
    if is_row { p.0 } else { p.1 }
}

/// Catalog entry `k` belongs to group `g` on the axis and was found.
pub open spec fn found_in_group(m: Map<TagID, (usize, usize)>, is_row: bool, g: int, k: int) -> bool {
    group(catalog()[k], is_row) == Some(g) && m.contains_key(catalog()[k].id)
}

/// The nearest catalog index below `j` of a found member of group `g`, or -1.
pub open spec fn prev_found(m: Map<TagID, (usize, usize)>, is_row: bool, g: int, j: int) -> int
    decreases j,
{
    if j <= 0 {
        -1
    } else if found_in_group(m, is_row, g, j - 1) {
        j - 1
    } else {
        prev_found(m, is_row, g, j - 1)
    }
}

/// Catalog entry `j` was found, and the member of its group found just before
/// it lies on another row (or column).
pub open spec fn misaligned_at(m: Map<TagID, (usize, usize)>, is_row: bool, j: int) -> bool {
    match group(catalog()[j], is_row) {
        Some(g) => {
            let k = prev_found(m, is_row, g, j);
            m.contains_key(catalog()[j].id) && k >= 0 && coord(m[catalog()[k].id], is_row) != coord(
                m[catalog()[j].id],
                is_row,
            )
        },
        None => false,
    }
}

/// The first catalog index at or after `j` that is misaligned, or the
/// catalog's length.
pub open spec fn first_misaligned(m: Map<TagID, (usize, usize)>, is_row: bool, j: int) -> int
    decreases TAG_COUNT - j,
{
    if j < 0 || j >= TAG_COUNT {
        TAG_COUNT as int
    } else if misaligned_at(m, is_row, j) {
        j
    } else {
        first_misaligned(m, is_row, j + 1)
    }
}

/// The error for the first misaligned pair on an axis, at catalog index `j`,
/// for a used range whose first cell is at `start`.
pub open spec fn misalignment(
    m: Map<TagID, (usize, usize)>,
    start: (usize, usize),
    is_row: bool,
    j: int,
    path: String,
) -> Error {
    let k = prev_found(m, is_row, group(catalog()[j], is_row)->Some_0, j);
    Error::SheetMisalignment {
        is_row_algmnt_check: is_row,
        fst_tag: catalog()[k].id,
        fst_tag_index_on_sheet: sheet_index(start, m[catalog()[k].id], is_row),
        snd_tag: catalog()[j].id,
        snd_tag_index_on_sheet: sheet_index(start, m[catalog()[j].id], is_row),
        file_path: path,
    }
}

/// The outcome of one alignment pass over the tags found.
pub open spec fn alignment(
    m: Map<TagID, (usize, usize)>,
    start: (usize, usize),
    is_row: bool,
    path: String,
) -> Result<(), Error> {
    let j = first_misaligned(m, is_row, 0);
    if j < TAG_COUNT {
        Err(misalignment(m, start, is_row, j, path))
    } else {
        Ok(())
    }
}

pub open spec fn map_fits(m: Map<TagID, (usize, usize)>, start: (usize, usize)) -> bool {
    forall|k: TagID| #[trigger] m.contains_key(k) ==> start.0 + m[k].0 < usize::MAX && start.1 + m[k].1 < usize::MAX
}

/// The result of a sheet: every stage of the scan, then validation, passed.
pub struct Sheet {
    pub path: String,
    pub sheet_name: String,
    pub data: Grid,
    pub tag_address_map: TagAddressMap,
    pub range_start: (usize, usize),
}

/// Whether `c` compares with `p` under `mode`.
pub fn text_compares(mode: TextCmp, c: &str, p: &str) -> (r: bool)
    ensures
        r == compares(mode, c@, p@),
{
    match mode {
        TextCmp::Whole => {
            let same_len = c.unicode_len() == p.unicode_len();
            let r = same_len && starts_with(c, p);
            proof {
                assert(c@.subrange(0, c@.len() as int) =~= c@);
                if same_len {
                    assert(c@.subrange(0, p@.len() as int) =~= c@);
                }
            }
            r
        },
        TextCmp::Part => contains(c, p),
        TextCmp::StartsWith => starts_with(c, p),
        TextCmp::EndsWith => ends_with(c, p),
    }
}

/// Whether the tag's label matches the cell's text.
pub fn matches_cell(t: &TagInfo, c: &Cell) -> (r: bool)
    ensures
        r == cell_matches(*t, *c),
{
    match &c.text {
        Some(s) => {
            let label = t.id.as_str();
            if t.match_case {
                text_compares(t.look_at, s.as_str(), label)
            } else {
                let cl = lowercase(s.as_str());
                let pl = lowercase(label);
                text_compares(t.look_at, cl.as_str(), pl.as_str())
            }
        },
        None => false,
    }
}

/// Index of the first cell at or after `from` that the tag matches, or the
/// number of cells if none does.
pub fn find_cell(cells: &Vec<Cell>, t: &TagInfo, from: usize) -> (r: usize)
    ensures
        r == first_match(cells@, *t, from as int),
        r <= cells@.len(),
{
    if from >= cells.len() {
        return cells.len();
    }
    let mut i: usize = from;
    while i < cells.len()
        invariant
            from <= i <= cells@.len(),
            first_match(cells@, *t, from as int) == first_match(cells@, *t, i as int),
        decreases cells@.len() - i,
    {
        if matches_cell(t, &cells[i]) {
            return i;
        }
        i = i + 1;
    }
    i
}

pub(crate) proof fn lemma_first_match_bound(cells: Seq<Cell>, t: TagInfo, from: int)
    ensures
        from <= first_match(cells, t, from) || first_match(cells, t, from) == cells.len(),
        first_match(cells, t, from) <= cells.len(),
        first_match(cells, t, from) < cells.len() ==> 0 <= first_match(cells, t, from)
            && cell_matches(t, cells[first_match(cells, t, from)]),
    decreases cells.len() - from,
{
    if 0 <= from < cells.len() && !cell_matches(t, cells[from]) {
        lemma_first_match_bound(cells, t, from + 1);
    }
}

pub(crate) proof fn lemma_scan_bounds(cells: Seq<Cell>, ts: Seq<TagInfo>, start: (usize, usize))
    ensures
        0 <= scan(cells, ts).0 <= cells.len(),
        coords_fit(cells, start) ==> map_fits(scan(cells, ts).1, start),
    decreases ts.len(),
{
    if ts.len() > 0 {
        let prev = scan(cells, ts.drop_last());
        lemma_scan_bounds(cells, ts.drop_last(), start);
        let t = ts.last();
        let from = if t.is_required { prev.0 } else { 0 };
        let j = first_match(cells, t, from);
        lemma_first_match_bound(cells, t, from);
        if j < cells.len() {
            assert(scan(cells, ts).1 == prev.1.insert(t.id, pos(cells[j])));
            if coords_fit(cells, start) {
                assert(start.0 + cells[j].row < usize::MAX && start.1 + cells[j].col < usize::MAX);
                let m = scan(cells, ts).1;
                assert forall|k: TagID| #[trigger] m.contains_key(k) implies start.0 + m[k].0 < usize::MAX
                    && start.1 + m[k].1 < usize::MAX by {
                    if k != t.id {
                        assert(prev.1.contains_key(k));
                    }
                }
            }
        } else {
            assert(scan(cells, ts).1 == prev.1);
        }
    }
}

/// Runs the catalog over the cells: required tags with one cursor that only
/// moves forward, optional tags each over all cells.
pub fn scan_cells(cells: &Vec<Cell>) -> (r: TagAddressMap)
    ensures
        r.wf(),
        r@ == tag_addresses(cells@),
{
    let cat = tag_catalog();
    proof { lemma_catalog_shape(); }
    let mut map = TagAddressMap::new();
    let mut cursor: usize = 0;
    let mut i: usize = 0;
    while i < TAG_COUNT
        invariant
            i <= TAG_COUNT,
            cat@ == catalog(),
            catalog().len() == TAG_COUNT,
            map.wf(),
            cursor <= cells@.len(),
            scan(cells@, cat@.take(i as int)) == (cursor as int, map@),
        decreases TAG_COUNT - i,
    {
        let t = cat[i];
        proof {
            assert(cat@.take(i + 1).drop_last() =~= cat@.take(i as int));
            assert(cat@.take(i + 1).last() == t);
        }
        if t.is_required {
            let j = find_cell(cells, &t, cursor);
            if j < cells.len() {
                map.insert(t.id, (cells[j].row, cells[j].col));
                cursor = j + 1;
            } else {
                cursor = cells.len();
            }
        } else {
            let j = find_cell(cells, &t, 0);
            if j < cells.len() {
                map.insert(t.id, (cells[j].row, cells[j].col));
            }
        }
        i = i + 1;
    }
    assert(cat@.take(TAG_COUNT as int) =~= catalog());
    map
}

/// Alignment group of a tag on an axis (rows when `is_row`).
pub fn group_of(t: &TagInfo, is_row: bool) -> (r: Option<usize>)
    ensures
        match r {
            Some(g) => group(*t, is_row) == Some(g as int),
            None => group(*t, is_row) is None,
        },
{
    if is_row {
        match t.group_by_row {
            Some(Row::TableHeader) => Some(0),
            None => None,
        }
    } else {
        match t.group_by_col {
            Some(Column::Initial) => Some(0),
            Some(Column::Contract) => Some(1),
            None => None,
        }
    }
}

/// Index of the coordinate that an axis reads: the row, or the column.
pub fn coord_of(p: (usize, usize), is_row: bool) -> (r: usize)
    ensures
        r == coord(p, is_row),
{
    if is_row { p.0 } else { p.1 }
}

/// One alignment pass: within each group of the axis, every found member
/// must share the row (or column) of the member found just before it. The
/// first pair that does not is reported, with the one-based indices that the
/// sheet shows: the map holds coordinates within a used range whose first
/// cell is at `start`.
pub fn check_alignment(map: &TagAddressMap, start: (usize, usize), is_row: bool, path: &String) -> (r: Result<(), Error>)
    requires
        map.wf(),
        map_fits(map@, start),
    ensures
        r == alignment(map@, start, is_row, *path),
{
    let cat = tag_catalog();
    proof { lemma_catalog_shape(); }
    let mut j: usize = 0;
    while j < TAG_COUNT
        invariant
            j <= TAG_COUNT,
            cat@ == catalog(),
            catalog().len() == TAG_COUNT,
            map.wf(),
            map_fits(map@, start),
            first_misaligned(map@, is_row, 0) == first_misaligned(map@, is_row, j as int),
        decreases TAG_COUNT - j,
    {
        let t = cat[j];
        if let Some(g) = group_of(&t, is_row) {
            if let Ok(pj) = map.get(&t.id) {
                // the nearest found member of the same group below j
                let mut k: usize = j;
                let mut prev: Option<(usize, usize)> = None;
                while k > 0 && prev.is_none()
                    invariant
                        k <= j < TAG_COUNT,
                        cat@ == catalog(),
                        catalog().len() == TAG_COUNT,
                        map.wf(),
                        match prev {
                            None => prev_found(map@, is_row, g as int, j as int) == prev_found(map@, is_row, g as int, k as int),
                            Some(p) => prev_found(map@, is_row, g as int, j as int) == k as int
                                && p == map@[catalog()[k as int].id] && found_in_group(map@, is_row, g as int, k as int),
                        },
                    decreases k,
                {
                    let tk = cat[k - 1];
                    match group_of(&tk, is_row) {
                        Some(gk) if gk == g => {
                            if let Ok(pk) = map.get(&tk.id) {
                                prev = Some(*pk);
                            }
                        },
                        _ => {},
                    }
                    k = k - 1;
                }
                if let Some(pk) = prev {
                    let a = coord_of(pk, is_row);
                    let b = coord_of(*pj, is_row);
                    if a != b {
                        let tk = cat[k];
                        let base = coord_of(start, is_row);
                        proof {
                            assert(map@.contains_key(catalog()[k as int].id));
                        }
                        return Err(Error::SheetMisalignment {
                            is_row_algmnt_check: is_row,
                            fst_tag: tk.id,
                            fst_tag_index_on_sheet: base + a + 1,
                            snd_tag: t.id,
                            snd_tag_index_on_sheet: base + b + 1,
                            file_path: path.clone(),
                        });
                    }
                }
            }
        }
        j = j + 1;
    }
    Ok(())
}

/// Index of the first name whose lowercase form is `q`, or the number of names.
pub open spec fn name_index(names: Seq<String>, q: Seq<char>, i: int) -> int
    decreases names.len() - i,
{
    if i < 0 || i >= names.len() {
        names.len() as int
    } else if lower_of(names[i]@) == q {
        i
    } else {
        name_index(names, q, i + 1)
    }
}

/// Picks the workbook's sheet whose name equals the requested one, case
/// aside; the first such sheet if there are several. The name comes back as
/// the workbook writes it.
pub fn resolve_sheet_name(file_path: &String, sheet_names: &Vec<String>, user_entered_sh_name: &str) -> (r: Result<String, Error>)
    ensures
        ({
            let i = name_index(sheet_names@, lower_of(user_entered_sh_name@), 0);
            if i < sheet_names@.len() {
                r == Ok::<String, Error>(sheet_names@[i])
            } else {
                match r {
                    Err(Error::CalamineSheetOfTheBookIsUndetectable { file_path: p, sh_name_for_search: q, sh_names: v }) =>
                        p == *file_path && q@ == user_entered_sh_name@ && v@ == sheet_names@,
                    _ => false,
                }
            }
        }),
{
    let wanted = lowercase(user_entered_sh_name);
    let mut i: usize = 0;
    while i < sheet_names.len()
        invariant
            i <= sheet_names@.len(),
            wanted@ == lower_of(user_entered_sh_name@),
            name_index(sheet_names@, wanted@, 0) == name_index(sheet_names@, wanted@, i as int),
        decreases sheet_names@.len() - i,
    {
        let low = lowercase(sheet_names[i].as_str());
        if low == wanted {
            return Ok(sheet_names[i].clone());
        }
        i = i + 1;
    }
    let mut names: Vec<String> = Vec::new();
    let mut k: usize = 0;
    while k < sheet_names.len()
        invariant
            k <= sheet_names@.len(),
            names@ == sheet_names@.take(k as int),
        decreases sheet_names@.len() - k,
    {
        names.push(sheet_names[k].clone());
        proof {
            assert(sheet_names@.take(k + 1) =~= sheet_names@.take(k as int).push(sheet_names@[k as int]));
        }
        k = k + 1;
    }
    assert(sheet_names@.take(k as int) =~= sheet_names@);
    Err(Error::CalamineSheetOfTheBookIsUndetectable {
        file_path: file_path.clone(),
        sh_name_for_search: user_entered_sh_name.to_owned(),
        sh_names: names,
    })
}

/// The outcome that building a sheet owes: the empty range is refused, then
/// a document without all required tags in order, then a row misalignment,
/// then a column misalignment.
pub open spec fn sheet_outcome(r: Result<Sheet, Error>, path: String, sheet_name: String, range: Grid) -> bool {
    let m = tag_addresses(range.cells@);
    match range.start {
        None => r == Err::<Sheet, Error>(Error::EmptySheetRange { file_path: path, sh_name: sheet_name }),
        Some(start) => if !m.contains_key(LAST_REQUIRED) {
            r == Err::<Sheet, Error>(Error::SheetNotContainAllNecessaryData { file_path: path })
        } else if alignment(m, start, true, path) is Err {
            r == Err::<Sheet, Error>(alignment(m, start, true, path)->Err_0)
        } else if alignment(m, start, false, path) is Err {
            r == Err::<Sheet, Error>(alignment(m, start, false, path)->Err_0)
        } else {
            match r {
                Ok(sh) => sh.path == path && sh.sheet_name == sheet_name && sh.data == range
                    && sh.tag_address_map.wf() && sh.tag_address_map@ == m && sh.range_start == start,
                Err(_) => false,
            }
        },
    }
}

/// Row alignment of a built sheet.
pub fn check_row_type_alignment(sheet: &Sheet) -> (r: Result<(), Error>)
    requires
        sheet.tag_address_map.wf(),
        map_fits(sheet.tag_address_map@, sheet.range_start),
    ensures
        r == alignment(sheet.tag_address_map@, sheet.range_start, true, sheet.path),
{
    check_alignment(&sheet.tag_address_map, sheet.range_start, true, &sheet.path)
}

/// Column alignment of a built sheet.
pub fn check_col_type_alignment(sheet: &Sheet) -> (r: Result<(), Error>)
    requires
        sheet.tag_address_map.wf(),
        map_fits(sheet.tag_address_map@, sheet.range_start),
    ensures
        r == alignment(sheet.tag_address_map@, sheet.range_start, false, sheet.path),
{
    check_alignment(&sheet.tag_address_map, sheet.range_start, false, &sheet.path)
}

impl Sheet {
    /// Scans the used range of the sheet named `sheet_name` (already resolved)
    /// for the catalog's tags and validates where they stand. No sheet is
    /// returned unless every stage passes.
    pub fn new(path: String, sheet_name: String, range: Grid) -> (r: Result<Sheet, Error>)
        requires
            range.start is Some ==> coords_fit(range.cells@, range.start->Some_0),
        ensures
            sheet_outcome(r, path, sheet_name, range),
    {
        let start = match range.start {
            Some(s) => s,
            None => {
                return Err(Error::EmptySheetRange { file_path: path, sh_name: sheet_name });
            },
        };
        let tag_address_map = scan_cells(&range.cells);
        proof { lemma_scan_bounds(range.cells@, catalog(), start); }
        // The last required tag stands for all of them: the shared cursor
        // reaches the end as soon as one of them is missed.
        if tag_address_map.get(&LAST_REQUIRED).is_err() {
            return Err(Error::SheetNotContainAllNecessaryData { file_path: path });
        }
        let result = Sheet { path, sheet_name, data: range, tag_address_map, range_start: start };
        check_row_type_alignment(&result)?;
        check_col_type_alignment(&result)?;
        Ok(result)
    }
}

} // verus!
