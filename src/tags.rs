use crate::errors::Error;
use vstd::prelude::*;

verus! {

/// Column groups: tags of one group are expected in the same column.
#[derive(Clone, Copy, Debug, PartialEq, Eq, Structural)]
pub enum Column {
    Initial,
    Contract,
}

/// Row groups: tags of one group are expected in the same row.
#[derive(Clone, Copy, Debug, PartialEq, Eq, Structural)]
pub enum Row {
    TableHeader,
}

/// One identifier per field of interest on the act.
#[derive(Clone, Copy, Debug, PartialEq, Eq, Hash, Structural)]
pub enum TagID {
    GeneralContractor,
    Subcontractor,
    Performer,
    Construction,
    Object,
    WorkContract,
    Amendment,
    DocumentNumber,
    AcceptanceBanner,
    WorkName,
    CostBasePrices,
    CostCurrentPrices,
    LaborCostTotal,
    ActTotal,
    MaterialsCostTotal,
}

/// Number of identifiers, and so of catalog entries.
pub const TAG_COUNT: usize = 15;

/// Position of an identifier in the declaration order.
pub open spec fn ord(id: TagID) -> int {
    match id {
        TagID::GeneralContractor => 0,
        TagID::Subcontractor => 1,
        TagID::Performer => 2,
        TagID::Construction => 3,
        TagID::Object => 4,
        TagID::WorkContract => 5,
        TagID::Amendment => 6,
        TagID::DocumentNumber => 7,
        TagID::AcceptanceBanner => 8,
        TagID::WorkName => 9,
        TagID::CostBasePrices => 10,
        TagID::CostCurrentPrices => 11,
        TagID::LaborCostTotal => 12,
        TagID::ActTotal => 13,
        TagID::MaterialsCostTotal => 14,
    }
}

/// The text searched for on the sheet for each identifier.
pub open spec fn label(id: TagID) -> Seq<char> {
    match id {
        TagID::GeneralContractor => "Генподрядчик"@,
        TagID::Subcontractor => "Субподрядчик"@,
        TagID::Performer => "Исполнитель"@,
        TagID::Construction => "Стройка"@,
        TagID::Object => "Объект"@,
        TagID::WorkContract => "Договор подряда"@,
        TagID::Amendment => "Доп. соглашение"@,
        TagID::DocumentNumber => "Номер документа"@,
        TagID::AcceptanceBanner => "О ПРИЕМКЕ ВЫПОЛНЕННЫХ РАБОТ"@,
        TagID::WorkName => "Наименование работ и затрат"@,
        TagID::CostBasePrices => "Стоимость в ценах 2001"@,
        TagID::CostCurrentPrices => "Стоимость в текущих ценах"@,
        TagID::LaborCostTotal => "ЗТР всего чел"@,
        TagID::ActTotal => "Итого по акту:"@,
        TagID::MaterialsCostTotal => "Стоимость материальных ресурсов (всего)"@,
    }
}

pub proof fn lemma_ord_injective(a: TagID, b: TagID)
    ensures
        0 <= ord(a) < TAG_COUNT,
        ord(a) == ord(b) ==> a == b,
{
}

impl TagID {
    /// The label of the tag as it is written on the sheet.
    pub fn as_str(&self) -> (r: &'static str)
        ensures
            r@ == label(*self),
    {
        match self {
            TagID::GeneralContractor => "Генподрядчик",
            TagID::Subcontractor => "Субподрядчик",
            TagID::Performer => "Исполнитель",
            TagID::Construction => "Стройка",
            TagID::Object => "Объект",
            TagID::WorkContract => "Договор подряда",
            // Excel raises the letter after a full stop, so this one is matched ignoring case
            TagID::Amendment => "Доп. соглашение",
            TagID::DocumentNumber => "Номер документа",
            TagID::AcceptanceBanner => "О ПРИЕМКЕ ВЫПОЛНЕННЫХ РАБОТ",
            TagID::WorkName => "Наименование работ и затрат",
            TagID::CostBasePrices => "Стоимость в ценах 2001",
            TagID::CostCurrentPrices => "Стоимость в текущих ценах",
            TagID::LaborCostTotal => "ЗТР всего чел",
            TagID::ActTotal => "Итого по акту:",
            TagID::MaterialsCostTotal => "Стоимость материальных ресурсов (всего)",
        }
    }

    /// Position of the identifier in the declaration order.
    pub fn index(&self) -> (r: usize)
        ensures
            r == ord(*self),
            r < TAG_COUNT,
    {
        match self {
            TagID::GeneralContractor => 0,
            TagID::Subcontractor => 1,
            TagID::Performer => 2,
            TagID::Construction => 3,
            TagID::Object => 4,
            TagID::WorkContract => 5,
            TagID::Amendment => 6,
            TagID::DocumentNumber => 7,
            TagID::AcceptanceBanner => 8,
            TagID::WorkName => 9,
            TagID::CostBasePrices => 10,
            TagID::CostCurrentPrices => 11,
            TagID::LaborCostTotal => 12,
            TagID::ActTotal => 13,
            TagID::MaterialsCostTotal => 14,
        }
    }
}

/// How a cell's text is compared with a tag's label.
#[derive(Clone, Copy, Debug, PartialEq, Eq, Structural)]
pub enum TextCmp {
    Part,
    Whole,
    StartsWith,
    EndsWith,
}

/// A catalog entry: what to search for and how the result is grouped.
#[derive(Clone, Copy, Debug, PartialEq, Eq, Structural)]
pub struct TagInfo {
    pub id: TagID,
    pub is_required: bool,
    pub group_by_row: Option<Row>,
    pub group_by_col: Option<Column>,
    pub look_at: TextCmp,
    pub match_case: bool,
}

pub open spec fn entry(
    id: TagID,
    is_required: bool,
    group_by_row: Option<Row>,
    group_by_col: Option<Column>,
    look_at: TextCmp,
    match_case: bool,
) -> TagInfo {
    TagInfo { id, is_required, group_by_row, group_by_col, look_at, match_case }
}

/// The catalog, in the order in which the tags appear on a well-formed act
/// read left to right and top to bottom. The scan relies on that order.
pub open spec fn catalog() -> Seq<TagInfo> {
    let hdr = Some(Row::TableHeader);
    let ini = Some(Column::Initial);
    let con = Some(Column::Contract);
    seq![
        entry(TagID::GeneralContractor, false, None, ini, TextCmp::Whole, true),
        entry(TagID::Subcontractor, false, None, ini, TextCmp::Whole, true),
        entry(TagID::Performer, false, None, ini, TextCmp::Whole, true),
        entry(TagID::Construction, true, None, ini, TextCmp::Whole, true),
        entry(TagID::Object, true, None, ini, TextCmp::Whole, true),
        entry(TagID::WorkContract, true, None, con, TextCmp::Whole, true),
        entry(TagID::Amendment, true, None, con, TextCmp::Whole, false),
        entry(TagID::DocumentNumber, true, None, None, TextCmp::Whole, true),
        entry(TagID::AcceptanceBanner, true, None, ini, TextCmp::Whole, true),
        entry(TagID::WorkName, true, hdr, None, TextCmp::Whole, true),
        entry(TagID::CostBasePrices, true, hdr, None, TextCmp::StartsWith, true),
        entry(TagID::CostCurrentPrices, true, hdr, None, TextCmp::Whole, true),
        entry(TagID::LaborCostTotal, false, hdr, None, TextCmp::StartsWith, true),
        entry(TagID::ActTotal, false, None, ini, TextCmp::Whole, true),
        entry(TagID::MaterialsCostTotal, true, None, None, TextCmp::Whole, true),
    ]
}

/// The last required tag of the catalog. The required tags are searched with
/// one cursor that only moves forward, so once any of them is missed the
/// cursor is exhausted and this one cannot be found either: its presence
/// stands for the presence of all of them.
pub const LAST_REQUIRED: TagID = TagID::MaterialsCostTotal;

/// The catalog as a vector, entry `i` describing the tag of index `i`.
pub fn tag_catalog() -> (r: Vec<TagInfo>)
    ensures
        r@ == catalog(),
{
    let hdr = Some(Row::TableHeader);
    let ini = Some(Column::Initial);
    let con = Some(Column::Contract);
    let r = vec![
        TagInfo { id: TagID::GeneralContractor, is_required: false, group_by_row: None, group_by_col: ini, look_at: TextCmp::Whole, match_case: true },
        TagInfo { id: TagID::Subcontractor, is_required: false, group_by_row: None, group_by_col: ini, look_at: TextCmp::Whole, match_case: true },
        TagInfo { id: TagID::Performer, is_required: false, group_by_row: None, group_by_col: ini, look_at: TextCmp::Whole, match_case: true },
        TagInfo { id: TagID::Construction, is_required: true, group_by_row: None, group_by_col: ini, look_at: TextCmp::Whole, match_case: true },
        TagInfo { id: TagID::Object, is_required: true, group_by_row: None, group_by_col: ini, look_at: TextCmp::Whole, match_case: true },
        TagInfo { id: TagID::WorkContract, is_required: true, group_by_row: None, group_by_col: con, look_at: TextCmp::Whole, match_case: true },
        TagInfo { id: TagID::Amendment, is_required: true, group_by_row: None, group_by_col: con, look_at: TextCmp::Whole, match_case: false },
        TagInfo { id: TagID::DocumentNumber, is_required: true, group_by_row: None, group_by_col: None, look_at: TextCmp::Whole, match_case: true },
        TagInfo { id: TagID::AcceptanceBanner, is_required: true, group_by_row: None, group_by_col: ini, look_at: TextCmp::Whole, match_case: true },
        TagInfo { id: TagID::WorkName, is_required: true, group_by_row: hdr, group_by_col: None, look_at: TextCmp::Whole, match_case: true },
        TagInfo { id: TagID::CostBasePrices, is_required: true, group_by_row: hdr, group_by_col: None, look_at: TextCmp::StartsWith, match_case: true },
        TagInfo { id: TagID::CostCurrentPrices, is_required: true, group_by_row: hdr, group_by_col: None, look_at: TextCmp::Whole, match_case: true },
        TagInfo { id: TagID::LaborCostTotal, is_required: false, group_by_row: hdr, group_by_col: None, look_at: TextCmp::StartsWith, match_case: true },
        TagInfo { id: TagID::ActTotal, is_required: false, group_by_row: None, group_by_col: ini, look_at: TextCmp::Whole, match_case: true },
        TagInfo { id: TagID::MaterialsCostTotal, is_required: true, group_by_row: None, group_by_col: None, look_at: TextCmp::Whole, match_case: true },
    ];
    assert(r@ =~= catalog());
    r
}

/// Each catalog entry describes the identifier of its own index, so every
/// identifier has exactly one entry; the last required entry is the last one.
pub proof fn lemma_catalog_shape()
    ensures
        catalog().len() == TAG_COUNT,
        forall|i: int| 0 <= i < TAG_COUNT ==> ord(#[trigger] catalog()[i].id) == i,
        forall|k: TagID| #[trigger] catalog()[ord(k)].id == k,
        catalog()[TAG_COUNT - 1].id == LAST_REQUIRED,
        catalog()[TAG_COUNT - 1].is_required,
{
    assert forall|k: TagID| #[trigger] catalog()[ord(k)].id == k by {
        match k {
            _ => {},
        }
    }
}

/// Where each tag was found, as (row, column) of the worksheet's cell grid.
#[derive(Debug)]
pub struct TagAddressMap {
    data: Vec<Option<(usize, usize)>>,
}

impl TagAddressMap {
    pub closed spec fn wf(&self) -> bool {
        self.data@.len() == TAG_COUNT
    }

    pub closed spec fn view(&self) -> Map<TagID, (usize, usize)> {
        Map::new(
            |k: TagID| self.data@[ord(k)] is Some,
            |k: TagID| self.data@[ord(k)]->Some_0,
        )
    }

    pub fn new() -> (r: Self)
        ensures
            r.wf(),
            r@ == Map::<TagID, (usize, usize)>::empty(),
    {
        let mut data: Vec<Option<(usize, usize)>> = Vec::new();
        let mut i: usize = 0;
        while i < TAG_COUNT
            invariant
                i <= TAG_COUNT,
                data@.len() == i,
                forall|j: int| 0 <= j < i ==> data@[j] is None,
            decreases TAG_COUNT - i,
        {
            data.push(None);
            i = i + 1;
        }
        let r = TagAddressMap { data };
        assert(r@ =~= Map::<TagID, (usize, usize)>::empty()) by {
            assert forall|k: TagID| !r@.contains_key(k) by {
                lemma_ord_injective(k, k);
            }
        }
        r
    }

    /// The coordinates of a tag; a missing key is an internal defect.
    pub fn get(&self, key: &TagID) -> (r: Result<&(usize, usize), Error>)
        requires
            self.wf(),
        ensures
            match r {
                Ok(p) => self@.contains_key(*key) && *p == self@[*key],
                Err(e) => !self@.contains_key(*key) && e == (Error::InternalLogic { missing_tag: *key }),
            },
    {
        let i = key.index();
        match &self.data[i] {
            Some(p) => Ok(p),
            None => Err(Error::InternalLogic { missing_tag: *key }),
        }
    }

    pub fn insert(&mut self, key: TagID, data: (usize, usize))
        requires
            old(self).wf(),
        ensures
            final(self).wf(),
            final(self)@ == old(self)@.insert(key, data),
    {
        let i = key.index();
        self.data.set(i, Some(data));
        proof {
            assert forall|k: TagID| #[trigger] ord(k) == ord(key) implies k == key by {
                lemma_ord_injective(k, key);
            }
            assert forall|k: TagID| 0 <= #[trigger] ord(k) < TAG_COUNT by {
                lemma_ord_injective(k, key);
            }
            assert(self@ =~= old(self)@.insert(key, data));
        }
    }
}

} // verus!
