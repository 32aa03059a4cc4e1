//! Laws of the expansion engine, stated over the spec-level model and proved
//! once for all tables and words.

use crate::expand::{expansion, is_variant, is_variant_from, lemma_unequal_seqs_differ};
use crate::table::{classes_wf, confusable_with, in_some_class, lemma_class_of_unique};
use vstd::prelude::*;

verus! {

/// A word none of whose characters belongs to any confusable class has no
/// variants: its expansion is the empty set.
pub proof fn lemma_expansion_empty_without_confusables(t: Seq<Seq<char>>, w: Seq<char>)
    requires
        forall|p: int| 0 <= p < w.len() ==> !(#[trigger] in_some_class(t, w[p])),
    ensures
        expansion(t, w) == Set::<Seq<char>>::empty(),
{
    assert forall|v: Seq<char>| !(#[trigger] expansion(t, w).contains(v)) by {
        if is_variant_from(t, w, 0, v) {
            lemma_unequal_seqs_differ(v, w);
            let q = choose|q: int| #![trigger v[q]] #![trigger w[q]] 0 <= q < v.len() && v[q] != w[q];
            assert(confusable_with(t, w[q], v[q]));
            let ci = choose|ci: int|
                0 <= ci < t.len() && #[trigger] t[ci].contains(w[q]) && t[ci].contains(v[q]);
            assert(in_some_class(t, w[q]));
        }
    }
    assert(expansion(t, w) =~= Set::<Seq<char>>::empty());
}

/// Expansion is deterministic: the variant set is a function of the table and
/// the word alone, so any two sets that `expand` returns for them are one and
/// the same, whatever order their elements are stored in.
pub proof fn lemma_expansion_deterministic(
    t: Seq<Seq<char>>,
    w: Seq<char>,
    s1: Set<Seq<char>>,
    s2: Set<Seq<char>>,
)
    requires
        s1 == expansion(t, w),
        s2 == expansion(t, w),
    ensures
        s1 == s2,
{
}

/// Substitution never inserts or removes characters: every variant of `w` has
/// the length of `w`.
pub proof fn lemma_variant_same_length(t: Seq<Seq<char>>, w: Seq<char>, v: Seq<char>)
    requires
        expansion(t, w).contains(v),
    ensures
        v.len() == w.len(),
{
}

/// Every variant of `w` differs from `w` in at least one position, and at
/// every differing position the original character belongs to some confusable
/// class.
pub proof fn lemma_variant_differs_in_class(t: Seq<Seq<char>>, w: Seq<char>, v: Seq<char>)
    requires
        expansion(t, w).contains(v),
    ensures
        v != w,
        exists|p: int| #![trigger v[p]] #![trigger w[p]] 0 <= p < w.len() && v[p] != w[p],
        forall|p: int|
            #![trigger v[p]]
            #![trigger w[p]]
            0 <= p < w.len() && v[p] != w[p] ==> in_some_class(t, w[p]),
{
    lemma_unequal_seqs_differ(v, w);
    let q = choose|q: int| #![trigger v[q]] #![trigger w[q]] 0 <= q < v.len() && v[q] != w[q];
    assert(0 <= q < w.len() && v[q] != w[q]);
    assert forall|p: int|
        #![trigger v[p]]
        #![trigger w[p]]
    0 <= p < w.len() && v[p] != w[p] implies in_some_class(t, w[p]) by {
        assert(confusable_with(t, w[p], v[p]));
        let ci = choose|ci: int|
            0 <= ci < t.len() && #[trigger] t[ci].contains(w[p]) && t[ci].contains(v[p]);
        assert(in_some_class(t, w[p]));
    }
}

/// Replacing one classified character with a distinct alternate of its class
/// always yields a variant: the expansion is never missing a single
/// substitution.
pub proof fn lemma_single_substitution_is_variant(
    t: Seq<Seq<char>>,
    w: Seq<char>,
    p: int,
    c: char,
)
    requires
        0 <= p < w.len(),
        confusable_with(t, w[p], c),
        c != w[p],
    ensures
        expansion(t, w).contains(w.update(p, c)),
{
    let v = w.update(p, c);
    assert(v[p] != w[p]);
    assert forall|q: int|
        #![trigger v[q]]
        #![trigger w[q]]
    0 <= q < w.len() && v[q] != w[q] implies 0 <= q && confusable_with(t, w[q], v[q]) by {
        if q != p {
            assert(v[q] == w[q]);
        }
    }
    assert(is_variant_from(t, w, 0, v));
}

/// Substitutions compose: with a well-formed table, a variant of a variant of
/// `w` is itself a variant of `w` — unless the later substitutions undid the
/// earlier ones and led back to `w` itself, which is never in its own
/// expansion.
pub proof fn lemma_variants_compose(t: Seq<Seq<char>>, w: Seq<char>, v: Seq<char>, u: Seq<char>)
    requires
        classes_wf(t),
        is_variant(t, w, v),
        is_variant(t, v, u),
        u != w,
    ensures
        is_variant(t, w, u),
{
    assert forall|q: int|
        #![trigger u[q]]
        #![trigger w[q]]
    0 <= q < w.len() && u[q] != w[q] implies 0 <= q && confusable_with(t, w[q], u[q]) by {
        if u[q] == v[q] {
            assert(v[q] != w[q]);
            assert(confusable_with(t, w[q], v[q]));
        } else if v[q] == w[q] {
            assert(u[q] != v[q]);
            assert(confusable_with(t, v[q], u[q]));
        } else {
            assert(confusable_with(t, w[q], v[q]));
            assert(confusable_with(t, v[q], u[q]));
            let i = choose|i: int|
                0 <= i < t.len() && #[trigger] t[i].contains(w[q]) && t[i].contains(v[q]);
            let j = choose|j: int|
                0 <= j < t.len() && #[trigger] t[j].contains(v[q]) && t[j].contains(u[q]);
            lemma_class_of_unique(t, v[q], i, j);
            assert(t[i].contains(w[q]) && t[i].contains(u[q]));
        }
    }
}

} // verus!
