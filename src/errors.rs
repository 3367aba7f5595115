use crate::tags::TagID;
use vstd::prelude::*;

verus! {

/// What can go wrong while a worksheet is resolved, scanned and validated.
/// Paths and sheet names are carried as opaque text for the message only.
#[derive(Debug, PartialEq, Eq)]
pub enum Error {
    /// A lookup that scanning should have made safe failed: a defect of the
    /// catalog or of the scan, never of the input.
    InternalLogic { missing_tag: TagID },
    /// No sheet of the workbook has the requested name, case aside.
    CalamineSheetOfTheBookIsUndetectable {
        file_path: String,
        sh_name_for_search: String,
        sh_names: Vec<String>,
    },
    /// The sheet exists but its cells could not be read.
    CalamineSheetOfTheBookIsUnreadable { file_path: String, sh_name: String, err: String },
    /// The sheet has no populated cell.
    EmptySheetRange { file_path: String, sh_name: String },
    /// Some required tag is missing or out of its expected order.
    SheetNotContainAllNecessaryData { file_path: String },
    /// Two tags of one alignment group stand in different rows (or columns).
    /// The indices are one-based positions on the sheet, counted from its
    /// first row and column rather than from the used range, as a user reads them.
    SheetMisalignment {
        is_row_algmnt_check: bool,
        fst_tag: TagID,
        fst_tag_index_on_sheet: usize,
        snd_tag: TagID,
        snd_tag_index_on_sheet: usize,
        file_path: String,
    },
}

impl Error {
    /// Whether the requested sheet name was typed inside double quotes, which
    /// is the likely cause of a sheet that cannot be found.
    pub fn quoted_sheet_request(&self) -> (r: bool)
        ensures
            r == (match self {
                Error::CalamineSheetOfTheBookIsUndetectable { sh_name_for_search, .. } =>
                    quoted(sh_name_for_search@),
                _ => false,
            }),
    {
        match self {
            Error::CalamineSheetOfTheBookIsUndetectable { sh_name_for_search, .. } => {
                let s = sh_name_for_search.as_str();
                let n = s.unicode_len();
                n >= 1 && s.get_char(0) == '"' && s.get_char(n - 1) == '"'
            },
            _ => false,
        }
    }
}

/// The text opens and closes with a double quote.
pub open spec fn quoted(s: Seq<char>) -> bool {
    s.len() >= 1 && s[0] == '"' && s[s.len() - 1] == '"'
}

} // verus!
