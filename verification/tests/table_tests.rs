use confusable_expand::table::{cyrillic_table, ConfusableTable, TableError};

fn class(s: &str) -> Vec<char> {
    s.chars().collect()
}

#[test]
fn empty_table_is_accepted() {
    let t = ConfusableTable::new(Vec::new());
    assert!(t.is_ok());
    assert_eq!(t.unwrap().class_count(), 0);
}

#[test]
fn class_with_one_character_is_rejected() {
    let t = ConfusableTable::new(vec![class("A")]);
    assert_eq!(t.err(), Some(TableError::ClassTooSmall));
}

#[test]
fn empty_class_is_rejected() {
    let t = ConfusableTable::new(vec![class("AB"), class("")]);
    assert_eq!(t.err(), Some(TableError::ClassTooSmall));
}

#[test]
fn repeated_character_within_class_is_rejected() {
    let t = ConfusableTable::new(vec![class("AA")]);
    assert_eq!(t.err(), Some(TableError::DuplicateInClass));
}

#[test]
fn overlapping_classes_are_rejected() {
    let t = ConfusableTable::new(vec![class("AB"), class("CB")]);
    assert_eq!(t.err(), Some(TableError::OverlappingClasses));
}

#[test]
fn disjoint_classes_are_accepted() {
    let t = ConfusableTable::new(vec![class("AB"), class("CD")]);
    assert!(t.is_ok());
    assert_eq!(t.unwrap().class_count(), 2);
}

#[test]
fn cyrillic_table_is_well_formed() {
    let t = cyrillic_table();
    assert_eq!(t.class_count(), 20);
    // The authored classes are pairwise disjoint: no character is found in
    // two classes, so every member of a class maps back to that class.
    for i in 0..t.class_count() {
        for c in t.class_at(i) {
            assert_eq!(t.class_index_of(*c), Some(i));
        }
    }
}

#[test]
fn lookup_finds_the_class_of_each_member() {
    let t = ConfusableTable::new(vec![class("AB"), class("CD")]).unwrap();
    let ia = t.class_index_of('A').unwrap();
    let ib = t.class_index_of('B').unwrap();
    assert_eq!(ia, ib);
    let ic = t.class_index_of('C').unwrap();
    assert_ne!(ia, ic);
    assert!(t.class_at(ia).contains(&'A'));
    assert!(t.class_at(ia).contains(&'B'));
}

#[test]
fn lookup_of_unclassified_character_is_none() {
    let t = ConfusableTable::new(vec![class("AB")]).unwrap();
    assert_eq!(t.class_index_of('Z'), None);
}

#[test]
fn lookup_twice_yields_the_same_class() {
    let t = cyrillic_table();
    let first = t.class_index_of('A');
    let second = t.class_index_of('A');
    assert_eq!(first, second);
    assert!(first.is_some());
}

#[test]
fn cyrillic_lookup_pairs_latin_with_cyrillic() {
    let t = cyrillic_table();
    let i = t.class_index_of('A').unwrap();
    assert!(t.class_at(i).contains(&'\u{0410}'));
    let j = t.class_index_of('3').unwrap();
    assert!(t.class_at(j).contains(&'\u{0417}'));
    assert!(t.class_at(j).contains(&'\u{0437}'));
}
