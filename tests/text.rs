use ks2_etl::text::{contains, ends_with, occurs_at_exec, starts_with};

#[test]
fn prefix_and_suffix_edges() {
    assert!(starts_with("Стоимость в ценах 2001 г.", "Стоимость в ценах 2001"));
    assert!(starts_with("абв", ""));
    assert!(!starts_with("аб", "абв"));
    assert!(ends_with("Итого по акту:", "акту:"));
    assert!(ends_with("абв", ""));
    assert!(!ends_with("бв", "абв"));
    assert!(!ends_with("абв", "аб"));
}

#[test]
fn substring_edges() {
    assert!(contains("ЗТР всего чел.-ч", "всего"));
    assert!(contains("абв", "абв"));
    assert!(contains("", ""));
    assert!(!contains("аб", "абв"));
    assert!(!contains("абвг", "вб"));
    assert!(contains("абвг", "вг"));
}

#[test]
fn occurrence_at_a_position() {
    assert!(occurs_at_exec("абвг", "вг", 2));
    assert!(!occurs_at_exec("абвг", "вг", 1));
    assert!(!occurs_at_exec("абвг", "вг", 3));
    assert!(!occurs_at_exec("абвг", "", 5));
    assert!(occurs_at_exec("абвг", "", 4));
}
