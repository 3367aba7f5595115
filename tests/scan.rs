use ks2_etl::errors::Error;
use ks2_etl::sheet::{
    check_alignment, find_cell, matches_cell, resolve_sheet_name, scan_cells, text_compares, Cell,
    Grid, Sheet,
};
use ks2_etl::tags::{tag_catalog, TagAddressMap, TagID, TextCmp, LAST_REQUIRED};

fn text(row: usize, col: usize, s: &str) -> Cell {
    Cell { row, col, text: Some(s.to_string()) }
}

fn number(row: usize, col: usize) -> Cell {
    Cell { row, col, text: None }
}

/// A well-formed act: header block, banner, table header and the materials line.
fn act_cells(object_col: usize) -> Vec<Cell> {
    vec![
        text(0, 0, "Стройка"),
        text(0, 3, "Жилой дом"),
        text(1, object_col, "Объект"),
        text(4, 1, "Договор подряда"),
        number(4, 4),
        text(5, 1, "Доп. Соглашение"),
        text(6, 2, "Номер документа"),
        text(7, 0, "О ПРИЕМКЕ ВЫПОЛНЕННЫХ РАБОТ"),
        text(9, 0, "Наименование работ и затрат"),
        text(9, 1, "Стоимость в ценах 2001 г."),
        text(9, 2, "Стоимость в текущих ценах"),
        number(10, 1),
        text(12, 0, "Стоимость материальных ресурсов (всего)"),
    ]
}

fn grid(cells: Vec<Cell>) -> Grid {
    Grid { start: Some((0, 0)), cells }
}

fn path() -> String {
    "acts/act1.xlsm".to_string()
}

fn build(cells: Vec<Cell>) -> Result<Sheet, Error> {
    Sheet::new(path(), "Лист1".to_string(), grid(cells))
}

fn addr(sheet: &Sheet, id: TagID) -> (usize, usize) {
    *sheet.tag_address_map.get(&id).unwrap()
}

#[test]
fn well_formed_act_is_scanned() {
    let sheet = build(act_cells(0)).unwrap();
    assert_eq!(addr(&sheet, TagID::Construction), (0, 0));
    assert_eq!(addr(&sheet, TagID::Object), (1, 0));
    assert_eq!(addr(&sheet, TagID::WorkContract), (4, 1));
    assert_eq!(addr(&sheet, TagID::Amendment), (5, 1));
    assert_eq!(addr(&sheet, TagID::DocumentNumber), (6, 2));
    assert_eq!(addr(&sheet, TagID::AcceptanceBanner), (7, 0));
    assert_eq!(addr(&sheet, TagID::WorkName), (9, 0));
    assert_eq!(addr(&sheet, TagID::CostBasePrices), (9, 1));
    assert_eq!(addr(&sheet, TagID::CostCurrentPrices), (9, 2));
    assert_eq!(addr(&sheet, TagID::MaterialsCostTotal), (12, 0));
    assert_eq!(sheet.range_start, (0, 0));
    assert_eq!(sheet.sheet_name, "Лист1");
    assert_eq!(sheet.path, path());
}

#[test]
fn every_required_tag_gets_an_address() {
    let sheet = build(act_cells(0)).unwrap();
    for info in tag_catalog() {
        if info.is_required {
            assert!(sheet.tag_address_map.get(&info.id).is_ok());
        } else {
            assert!(sheet.tag_address_map.get(&info.id).is_err());
        }
    }
}

#[test]
fn header_pairs_share_their_columns() {
    let sheet = build(act_cells(0)).unwrap();
    assert_eq!(addr(&sheet, TagID::Construction).1, 0);
    assert_eq!(addr(&sheet, TagID::Object).1, 0);
    assert_eq!(addr(&sheet, TagID::WorkContract).1, 1);
    assert_eq!(addr(&sheet, TagID::Amendment).1, 1);
}

#[test]
fn object_in_another_column_is_misaligned() {
    let err = build(act_cells(2)).err().unwrap();
    assert_eq!(
        err,
        Error::SheetMisalignment {
            is_row_algmnt_check: false,
            fst_tag: TagID::Construction,
            fst_tag_index_on_sheet: 1,
            snd_tag: TagID::Object,
            snd_tag_index_on_sheet: 3,
            file_path: path(),
        }
    );
}

#[test]
fn missing_materials_total_is_incomplete() {
    let mut cells = act_cells(0);
    cells.pop();
    let err = build(cells).err().unwrap();
    assert_eq!(err, Error::SheetNotContainAllNecessaryData { file_path: path() });
}

#[test]
fn required_tag_before_its_predecessor_is_incomplete() {
    let mut cells = act_cells(0);
    // "Объект" above "Стройка"
    cells[0] = text(0, 0, "Объект");
    cells[2] = text(1, 0, "Стройка");
    let err = build(cells).err().unwrap();
    assert_eq!(err, Error::SheetNotContainAllNecessaryData { file_path: path() });
}

#[test]
fn optional_tags_do_not_change_required_addresses() {
    let plain = build(act_cells(0)).unwrap();
    let mut cells = act_cells(0);
    // optional tags, one of them after everything else on the sheet
    cells.insert(0, text(0, 0, "Генподрядчик"));
    cells[1] = text(0, 5, "Стройка");
    cells.push(text(14, 0, "Итого по акту:"));
    let mut shifted = act_cells(0);
    shifted[0] = text(0, 5, "Стройка");
    shifted.insert(0, text(0, 0, "Генподрядчик"));
    let with_optional = scan_cells(&cells);
    let without = scan_cells(&shifted);
    for info in tag_catalog() {
        if info.is_required {
            assert_eq!(with_optional.get(&info.id).unwrap(), without.get(&info.id).unwrap());
        }
    }
    assert_eq!(with_optional.get(&TagID::ActTotal).unwrap(), &(14, 0));
    assert!(without.get(&TagID::ActTotal).is_err());
    assert_eq!(plain.tag_address_map.get(&TagID::Object).unwrap(), &(1, 0));
}

#[test]
fn optional_tag_misaligned_with_its_group() {
    let mut cells = act_cells(0);
    cells.push(text(14, 3, "Итого по акту:"));
    let err = build(cells).err().unwrap();
    assert_eq!(
        err,
        Error::SheetMisalignment {
            is_row_algmnt_check: false,
            fst_tag: TagID::AcceptanceBanner,
            fst_tag_index_on_sheet: 1,
            snd_tag: TagID::ActTotal,
            snd_tag_index_on_sheet: 4,
            file_path: path(),
        }
    );
}

#[test]
fn table_header_on_two_rows_is_misaligned() {
    let mut cells = act_cells(0);
    cells[10] = text(10, 2, "Стоимость в текущих ценах");
    cells[11] = number(11, 1);
    let err = build(cells).err().unwrap();
    assert_eq!(
        err,
        Error::SheetMisalignment {
            is_row_algmnt_check: true,
            fst_tag: TagID::CostBasePrices,
            fst_tag_index_on_sheet: 10,
            snd_tag: TagID::CostCurrentPrices,
            snd_tag_index_on_sheet: 11,
            file_path: path(),
        }
    );
}

#[test]
fn row_misalignment_is_reported_before_column_misalignment() {
    let mut cells = act_cells(2);
    cells[10] = text(10, 2, "Стоимость в текущих ценах");
    cells[11] = number(11, 1);
    match build(cells).err().unwrap() {
        Error::SheetMisalignment { is_row_algmnt_check, .. } => assert!(is_row_algmnt_check),
        other => panic!("unexpected {:?}", other),
    }
}

#[test]
fn empty_range_is_refused() {
    let err = Sheet::new(path(), "Лист1".to_string(), Grid { start: None, cells: vec![] })
        .err()
        .unwrap();
    assert_eq!(
        err,
        Error::EmptySheetRange { file_path: path(), sh_name: "Лист1".to_string() }
    );
}

#[test]
fn scanning_twice_gives_the_same_addresses() {
    let g = grid(act_cells(0));
    let a = scan_cells(&g.cells);
    let b = scan_cells(&g.clone().cells);
    for info in tag_catalog() {
        assert_eq!(a.get(&info.id).ok(), b.get(&info.id).ok());
    }
}

#[test]
fn sheet_name_is_matched_ignoring_case() {
    let names = vec!["Свод".to_string(), "Лист1".to_string()];
    assert_eq!(resolve_sheet_name(&path(), &names, "лист1"), Ok("Лист1".to_string()));
    assert_eq!(resolve_sheet_name(&path(), &names, "ЛИСТ1"), Ok("Лист1".to_string()));
}

#[test]
fn unknown_sheet_name_lists_the_sheets() {
    let names = vec!["Свод".to_string(), "Лист1".to_string()];
    let err = resolve_sheet_name(&path(), &names, "\"Лист1\"").err().unwrap();
    assert!(err.quoted_sheet_request());
    assert_eq!(
        err,
        Error::CalamineSheetOfTheBookIsUndetectable {
            file_path: path(),
            sh_name_for_search: "\"Лист1\"".to_string(),
            sh_names: names.clone(),
        }
    );
    let err = resolve_sheet_name(&path(), &names, "Лист2").err().unwrap();
    assert!(!err.quoted_sheet_request());
}

#[test]
fn address_map_get_and_insert() {
    let mut m = TagAddressMap::new();
    assert_eq!(m.get(&TagID::Object), Err(Error::InternalLogic { missing_tag: TagID::Object }));
    m.insert(TagID::Object, (3, 4));
    assert_eq!(m.get(&TagID::Object), Ok(&(3, 4)));
    m.insert(TagID::Object, (5, 6));
    assert_eq!(m.get(&TagID::Object), Ok(&(5, 6)));
    assert!(m.get(&TagID::Construction).is_err());
}

#[test]
fn labels_of_tags() {
    assert_eq!(TagID::Construction.as_str(), "Стройка");
    assert_eq!(TagID::Amendment.as_str(), "Доп. соглашение");
    assert_eq!(LAST_REQUIRED.as_str(), "Стоимость материальных ресурсов (всего)");
    let cat = tag_catalog();
    assert_eq!(cat.len(), 15);
    for (i, info) in cat.iter().enumerate() {
        assert_eq!(info.id.index(), i);
    }
}

#[test]
fn comparison_modes() {
    assert!(text_compares(TextCmp::Whole, "Объект", "Объект"));
    assert!(!text_compares(TextCmp::Whole, "Объект 1", "Объект"));
    assert!(text_compares(TextCmp::StartsWith, "Объект 1", "Объект"));
    assert!(!text_compares(TextCmp::StartsWith, "1 Объект", "Объект"));
    assert!(text_compares(TextCmp::EndsWith, "1 Объект", "Объект"));
    assert!(!text_compares(TextCmp::EndsWith, "Объект 1", "Объект"));
    assert!(text_compares(TextCmp::Part, "1 Объект 1", "Объект"));
    assert!(!text_compares(TextCmp::Part, "1 Объ 1", "Объект"));
}

#[test]
fn case_relaxed_tag_matches_other_case() {
    let cat = tag_catalog();
    let amendment = cat[TagID::Amendment.index()];
    let object = cat[TagID::Object.index()];
    assert!(matches_cell(&amendment, &text(0, 0, "ДОП. СОГЛАШЕНИЕ")));
    assert!(!matches_cell(&object, &text(0, 0, "объект")));
    assert!(!matches_cell(&object, &number(0, 0)));
    let cells = vec![number(0, 0), text(0, 1, "объект"), text(0, 2, "Объект")];
    assert_eq!(find_cell(&cells, &object, 0), 2);
    assert_eq!(find_cell(&cells, &object, 3), 3);
}

#[test]
fn alignment_pass_on_a_map() {
    let mut m = TagAddressMap::new();
    m.insert(TagID::WorkContract, (4, 1));
    m.insert(TagID::Amendment, (5, 2));
    assert_eq!(check_alignment(&m, (0, 0), true, &path()), Ok(()));
    assert_eq!(
        check_alignment(&m, (0, 0), false, &path()),
        Err(Error::SheetMisalignment {
            is_row_algmnt_check: false,
            fst_tag: TagID::WorkContract,
            fst_tag_index_on_sheet: 2,
            snd_tag: TagID::Amendment,
            snd_tag_index_on_sheet: 3,
            file_path: path(),
        })
    );
}

#[test]
fn misalignment_reports_indices_of_the_sheet() {
    // the used range starts in column B, row 3: cell (1, 2) of the range is D4
    let g = Grid { start: Some((2, 1)), cells: act_cells(2) };
    let err = Sheet::new(path(), "Лист1".to_string(), g).err().unwrap();
    assert_eq!(
        err,
        Error::SheetMisalignment {
            is_row_algmnt_check: false,
            fst_tag: TagID::Construction,
            fst_tag_index_on_sheet: 2,
            snd_tag: TagID::Object,
            snd_tag_index_on_sheet: 4,
            file_path: path(),
        }
    );
}

#[test]
fn row_misalignment_counts_from_the_range_start() {
    let mut cells = act_cells(0);
    cells[10] = text(10, 2, "Стоимость в текущих ценах");
    cells[11] = number(11, 1);
    let g = Grid { start: Some((0, 1)), cells };
    let err = Sheet::new(path(), "Лист1".to_string(), g).err().unwrap();
    assert_eq!(
        err,
        Error::SheetMisalignment {
            is_row_algmnt_check: true,
            fst_tag: TagID::CostBasePrices,
            fst_tag_index_on_sheet: 10,
            snd_tag: TagID::CostCurrentPrices,
            snd_tag_index_on_sheet: 11,
            file_path: path(),
        }
    );
}

#[test]
fn alignment_pass_adds_the_range_start() {
    let mut m = TagAddressMap::new();
    m.insert(TagID::WorkContract, (4, 1));
    m.insert(TagID::Amendment, (5, 2));
    assert_eq!(
        check_alignment(&m, (0, 1), false, &path()),
        Err(Error::SheetMisalignment {
            is_row_algmnt_check: false,
            fst_tag: TagID::WorkContract,
            fst_tag_index_on_sheet: 3,
            snd_tag: TagID::Amendment,
            snd_tag_index_on_sheet: 4,
            file_path: path(),
        })
    );
}

#[test]
fn unrelated_cells_leave_required_addresses_alone() {
    let mut cells = act_cells(0);
    cells.insert(1, text(0, 1, "Исполнитель"));
    cells.insert(5, text(3, 0, "Стройка 2"));
    cells.push(number(13, 0));
    let plain = scan_cells(&act_cells(0));
    let busy = scan_cells(&cells);
    for info in tag_catalog() {
        if info.is_required {
            assert_eq!(plain.get(&info.id).unwrap(), busy.get(&info.id).unwrap());
        }
    }
    assert_eq!(busy.get(&TagID::Performer).unwrap(), &(0, 1));
    assert!(plain.get(&TagID::Performer).is_err());
}
