use confusable_expand::expand::{expand, permutation, replace_nth_char, VariantSet};
use confusable_expand::table::{cyrillic_table, ConfusableTable};

fn word(s: &str) -> Vec<char> {
    s.chars().collect()
}

fn table(classes: &[&str]) -> ConfusableTable {
    ConfusableTable::new(classes.iter().map(|c| c.chars().collect()).collect()).unwrap()
}

fn as_strings(vs: &VariantSet) -> Vec<String> {
    let mut out = Vec::new();
    let mut i = 0;
    while i < vs.len() {
        out.push(vs.get(i).iter().collect::<String>());
        i += 1;
    }
    out
}

#[test]
fn single_substitutable_position_yields_one_variant() {
    // Latin A and Cyrillic A in one class; C and T have no class.
    let t = table(&["A\u{0410}"]);
    let vs = expand(&t, &word("CAT"));
    assert_eq!(vs.len(), 1);
    assert!(vs.contains_word(&word("C\u{0410}T")));
}

#[test]
fn substitutions_compose_across_positions() {
    let t = table(&["A\u{0410}", "O\u{041e}"]);
    let vs = expand(&t, &word("AO"));
    assert_eq!(vs.len(), 3);
    assert!(vs.contains_word(&word("\u{0410}O")));
    assert!(vs.contains_word(&word("A\u{041e}")));
    assert!(vs.contains_word(&word("\u{0410}\u{041e}")));
    assert!(!vs.contains_word(&word("AO")));
}

#[test]
fn every_alternate_is_produced_and_no_self_mapping() {
    // E with Cyrillic Ie and Greek Epsilon as alternates.
    let t = table(&["E\u{0415}\u{0395}"]);
    let vs = expand(&t, &word("E"));
    assert_eq!(vs.len(), 2);
    assert!(vs.contains_word(&word("\u{0415}")));
    assert!(vs.contains_word(&word("\u{0395}")));
    assert!(!vs.contains_word(&word("E")));
}

#[test]
fn all_combinations_of_substitutable_positions_are_enumerated() {
    // Every character of CATOK has exactly one Cyrillic alternate, so the
    // expansion holds all non-empty subsets of five positions.
    let t = cyrillic_table();
    let vs = expand(&t, &word("CATOK"));
    assert_eq!(vs.len(), 31);
}

#[test]
fn same_class_at_two_positions_composes() {
    let t = table(&["A\u{0410}"]);
    let vs = expand(&t, &word("AA"));
    assert_eq!(vs.len(), 3);
    assert!(vs.contains_word(&word("\u{0410}A")));
    assert!(vs.contains_word(&word("A\u{0410}")));
    assert!(vs.contains_word(&word("\u{0410}\u{0410}")));
}

#[test]
fn empty_word_expands_to_empty_set() {
    let t = cyrillic_table();
    let vs = expand(&t, &word(""));
    assert_eq!(vs.len(), 0);
}

#[test]
fn word_without_confusable_characters_has_no_variants() {
    let t = cyrillic_table();
    let vs = expand(&t, &word("qwf"));
    assert_eq!(vs.len(), 0);
}

#[test]
fn variants_keep_the_length_of_the_word() {
    let t = cyrillic_table();
    let w = "CATOK";
    let vs = expand(&t, &word(w));
    assert!(vs.len() > 0);
    for v in as_strings(&vs) {
        assert_eq!(v.chars().count(), w.chars().count());
    }
}

#[test]
fn variants_differ_only_at_classified_positions() {
    let t = cyrillic_table();
    let w = word("CATOK");
    let vs = expand(&t, &w);
    for v in as_strings(&vs) {
        let v: Vec<char> = v.chars().collect();
        let mut differing = 0;
        for p in 0..w.len() {
            if v[p] != w[p] {
                differing += 1;
                assert!(t.class_index_of(w[p]).is_some());
            }
        }
        assert!(differing >= 1);
    }
}

#[test]
fn expansion_is_deterministic() {
    let t = cyrillic_table();
    let first = expand(&t, &word("CATOK"));
    let second = expand(&t, &word("CATOK"));
    assert_eq!(first.len(), second.len());
    for v in as_strings(&first) {
        assert!(second.contains_word(&word(&v)));
    }
}

#[test]
fn digit_three_expands_to_both_ze_forms() {
    let t = cyrillic_table();
    let vs = expand(&t, &word("3"));
    assert_eq!(vs.len(), 2);
    assert!(vs.contains_word(&word("\u{0417}")));
    assert!(vs.contains_word(&word("\u{0437}")));
}

#[test]
fn permutation_starts_at_the_given_index() {
    let t = table(&["A\u{0410}", "O\u{041e}"]);
    let mut vs = VariantSet::new();
    permutation(&t, &word("AO"), &mut vs, 1);
    assert_eq!(vs.len(), 1);
    assert!(vs.contains_word(&word("A\u{041e}")));
}

#[test]
fn permutation_adds_to_what_the_set_already_holds() {
    let t = table(&["A\u{0410}"]);
    let mut vs = VariantSet::new();
    vs.insert(word("zz"));
    permutation(&t, &word("A"), &mut vs, 0);
    assert_eq!(vs.len(), 2);
    assert!(vs.contains_word(&word("zz")));
    assert!(vs.contains_word(&word("\u{0410}")));
}

#[test]
fn permutation_past_the_end_adds_nothing() {
    let t = table(&["A\u{0410}"]);
    let mut vs = VariantSet::new();
    permutation(&t, &word("A"), &mut vs, 1);
    assert_eq!(vs.len(), 0);
}

#[test]
fn variant_set_insert_deduplicates() {
    let mut vs = VariantSet::new();
    vs.insert(word("ab"));
    vs.insert(word("ab"));
    assert_eq!(vs.len(), 1);
    assert!(vs.contains_word(&word("ab")));
    assert!(!vs.contains_word(&word("ba")));
}

#[test]
fn replace_nth_char_replaces_only_that_position() {
    let r = replace_nth_char(&word("CAT"), 1, '\u{0410}');
    assert_eq!(r, word("C\u{0410}T"));
}

#[test]
fn replace_nth_char_past_the_end_changes_nothing() {
    let r = replace_nth_char(&word("CAT"), 3, 'X');
    assert_eq!(r, word("CAT"));
}

#[test]
fn replace_nth_char_keeps_the_length() {
    let r = replace_nth_char(&word("CAT"), 0, '\u{0421}');
    assert_eq!(r.len(), 3);
    assert_eq!(r, word("\u{0421}AT"));
}
