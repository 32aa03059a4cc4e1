//! The expansion engine: produces every distinct word reachable from an input
//! word by substituting characters with confusable alternates, substitutions
//! composing strictly left to right.

use crate::table::{confusable_with, views_of, ConfusableTable};
use vstd::prelude::*;

verus! {

/// No position of `v` below `p` differs from `w`.
pub open spec fn unchanged_below(w: Seq<char>, v: Seq<char>, p: int) -> bool {
    forall|q: int| #![trigger v[q]] #![trigger w[q]] 0 <= q < p ==> v[q] == w[q]
}

/// `v` arises from `w` by substituting confusable alternates at one or more
/// positions, all of them at or after `idx`. This is the contract of the
/// expansion engine: a variant has the length of the word it came from,
/// differs from it somewhere, and differs only where the table allows.
pub open spec fn is_variant_from(t: Seq<Seq<char>>, w: Seq<char>, idx: int, v: Seq<char>) -> bool {
    &&& v.len() == w.len()
    &&& v != w
    &&& forall|p: int|
        #![trigger v[p]]
        #![trigger w[p]]
        0 <= p < w.len() && v[p] != w[p] ==> idx <= p && confusable_with(t, w[p], v[p])
}

/// `v` arises from `w` by substituting confusable alternates anywhere.
pub open spec fn is_variant(t: Seq<Seq<char>>, w: Seq<char>, v: Seq<char>) -> bool {
    is_variant_from(t, w, 0, v)
}

/// All variants of `w` whose substitutions sit at or after `idx`.
pub open spec fn variants_from(t: Seq<Seq<char>>, w: Seq<char>, idx: int) -> Set<Seq<char>> {
    Set::new(|v: Seq<char>| is_variant_from(t, w, idx, v))
}

/// The full variant set of `w`: what `expand` returns.
pub open spec fn expansion(t: Seq<Seq<char>>, w: Seq<char>) -> Set<Seq<char>> {
    variants_from(t, w, 0)
}

/// Variants whose leftmost substituted position lies below `bound`.
spec fn prefix_variants(t: Seq<Seq<char>>, w: Seq<char>, idx: int, bound: int) -> Set<Seq<char>> {
    Set::new(
        |v: Seq<char>|
            is_variant_from(t, w, idx, v) && exists|q: int|
                #![trigger v[q]]
                #![trigger w[q]]
                0 <= q < bound && v[q] != w[q],
    )
}

/// Variants untouched below `p` whose substitution at `p` uses one of the
/// first `j` characters of the class `cls`.
spec fn pos_variants(
    t: Seq<Seq<char>>,
    w: Seq<char>,
    idx: int,
    p: int,
    cls: Seq<char>,
    j: int,
) -> Set<Seq<char>> {
    Set::new(
        |v: Seq<char>|
            is_variant_from(t, w, idx, v) && unchanged_below(w, v, p) && 0 <= p < w.len() && v[p]
                != w[p] && cls.subrange(0, j).contains(v[p]),
    )
}

/// Variants untouched below `p` that substitute exactly `c` at `p`.
spec fn branch_variants(t: Seq<Seq<char>>, w: Seq<char>, idx: int, p: int, c: char) -> Set<
    Seq<char>,
> {
    Set::new(
        |v: Seq<char>|
            is_variant_from(t, w, idx, v) && unchanged_below(w, v, p) && 0 <= p < w.len() && v[p]
                == c,
    )
}

/// Two equally long but unequal sequences differ at some position.
pub(crate) proof fn lemma_unequal_seqs_differ(a: Seq<char>, b: Seq<char>)
    requires
        a.len() == b.len(),
        a != b,
    ensures
        exists|q: int| #![trigger a[q]] #![trigger b[q]] 0 <= q < a.len() && a[q] != b[q],
{
    if forall|q: int| #![trigger a[q]] #![trigger b[q]] 0 <= q < a.len() ==> a[q] == b[q] {
        assert(a =~= b);
    }
}

/// `cls.subrange(0, j + 1)` holds exactly what `cls.subrange(0, j)` holds,
/// plus `cls[j]`.
proof fn lemma_subrange_succ_contains(cls: Seq<char>, j: int, x: char)
    requires
        0 <= j < cls.len(),
    ensures
        cls.subrange(0, j + 1).contains(x) <==> (cls.subrange(0, j).contains(x) || cls[j] == x),
{
    assert(cls.subrange(0, j + 1) =~= cls.subrange(0, j).push(cls[j]));
    vstd::seq_lib::lemma_seq_contains_after_push(cls.subrange(0, j), cls[j], x);
}

/// The words reachable by substituting `c` at position `p` and then anything
/// strictly to the right are exactly the variants of `w` that are untouched
/// below `p` and carry `c` at `p`.
proof fn lemma_branch_variants(t: Seq<Seq<char>>, w: Seq<char>, idx: int, p: int, c: char)
    requires
        0 <= idx <= p < w.len(),
        confusable_with(t, w[p], c),
        c != w[p],
    ensures
        variants_from(t, w.update(p, c), p + 1).insert(w.update(p, c)) == branch_variants(
            t,
            w,
            idx,
            p,
            c,
        ),
{
    let w2 = w.update(p, c);
    let lhs = variants_from(t, w2, p + 1).insert(w2);
    let rhs = branch_variants(t, w, idx, p, c);
    assert(w2[p] == c);
    assert forall|v: Seq<char>| #[trigger] lhs.contains(v) implies rhs.contains(v) by {
        if v == w2 {
            assert forall|q: int|
                #![trigger v[q]]
                #![trigger w[q]]
            0 <= q < w.len() && v[q] != w[q] implies idx <= q && confusable_with(
                t,
                w[q],
                v[q],
            ) by {
                if q != p {
                    assert(w2[q] == w[q]);
                }
            }
            assert(v[p] != w[p]);
            assert(is_variant_from(t, w, idx, v));
        } else {
            assert(is_variant_from(t, w2, p + 1, v));
            assert forall|q: int| #![trigger v[q]] #![trigger w[q]] 0 <= q < p implies v[q] == w[q] by {
                assert(w2[q] == w[q]);
                if v[q] != w2[q] {
                    assert(p + 1 <= q);
                }
            }
            assert(unchanged_below(w, v, p));
            if v[p] != w2[p] {
                assert(p + 1 <= p);
            }
            assert(v[p] == c);
            assert(v[p] != w[p]);
            assert forall|q: int|
                #![trigger v[q]]
                #![trigger w[q]]
            0 <= q < w.len() && v[q] != w[q] implies idx <= q && confusable_with(
                t,
                w[q],
                v[q],
            ) by {
                if q < p {
                    assert(v[q] == w[q]);
                } else if q == p {
                    assert(confusable_with(t, w[p], c));
                } else {
                    assert(w2[q] == w[q]);
                    assert(v[q] != w2[q]);
                    assert(confusable_with(t, w2[q], v[q]));
                }
            }
            assert(is_variant_from(t, w, idx, v));
        }
    }
    assert forall|v: Seq<char>| #[trigger] rhs.contains(v) implies lhs.contains(v) by {
        if v != w2 {
            assert(v.len() == w2.len());
            assert forall|q: int|
                #![trigger v[q]]
                #![trigger w2[q]]
            0 <= q < w2.len() && v[q] != w2[q] implies p + 1 <= q && confusable_with(
                t,
                w2[q],
                v[q],
            ) by {
                if q < p {
                    assert(v[q] == w[q]);
                    assert(w2[q] == w[q]);
                } else if q == p {
                    assert(v[p] == c);
                } else {
                    assert(w2[q] == w[q]);
                    assert(v[q] != w[q]);
                    assert(confusable_with(t, w[q], v[q]));
                }
            }
            assert(is_variant_from(t, w2, p + 1, v));
            assert(variants_from(t, w2, p + 1).contains(v));
        }
    }
    assert(lhs =~= rhs);
}

/// A set of distinct words, accumulated for one input word across a whole
/// expansion. Insertion is the sole deduplication mechanism; iteration order
/// carries no meaning.
pub struct VariantSet {
    words: Vec<Vec<char>>,
}

impl View for VariantSet {
    type V = Set<Seq<char>>;

    closed spec fn view(&self) -> Set<Seq<char>> {
        views_of(self.words@).to_set()
    }
}

/// Whether two words hold the same characters.
fn words_equal(a: &Vec<char>, b: &Vec<char>) -> (r: bool)
    ensures
        r == (a@ == b@),
{
    if a.len() != b.len() {
        return false;
    }
    let mut i: usize = 0;
    while i < a.len()
        invariant
            i <= a@.len(),
            a@.len() == b@.len(),
            forall|q: int| #![trigger a@[q]] 0 <= q < i ==> a@[q] == b@[q],
        decreases a@.len() - i,
    {
        if a[i] != b[i] {
            return false;
        }
        i = i + 1;
    }
    proof {
        assert(a@ =~= b@);
    }
    true
}

impl VariantSet {
    /// The words of the set are stored without repetition, so the stored
    /// count is the cardinality of the set.
    pub closed spec fn wf(&self) -> bool {
        views_of(self.words@).no_duplicates()
    }

    /// An empty variant set.
    pub fn new() -> (r: VariantSet)
        ensures
            r.wf(),
            r@ == Set::<Seq<char>>::empty(),
    {
        let r = VariantSet { words: Vec::new() };
        proof {
            assert(views_of(r.words@) =~= Seq::<Seq<char>>::empty());
            assert(r@ =~= Set::<Seq<char>>::empty());
        }
        r
    }

    /// Whether `w` is already in the set.
    pub fn contains_word(&self, w: &Vec<char>) -> (r: bool)
        ensures
            r == self@.contains(w@),
    {
        let n = self.words.len();
        let mut i: usize = 0;
        while i < n
            invariant
                n == self.words@.len(),
                i <= n,
                forall|q: int| 0 <= q < i ==> #[trigger] views_of(self.words@)[q] != w@,
            decreases n - i,
        {
            if words_equal(&self.words[i], w) {
                assert(views_of(self.words@)[i as int] == w@);
                assert(views_of(self.words@).contains(w@));
                return true;
            }
            i = i + 1;
        }
        assert(!views_of(self.words@).contains(w@));
        false
    }

    /// Inserts `w`; inserting a word already present leaves the set as it
    /// was.
    pub fn insert(&mut self, w: Vec<char>)
        requires
            old(self).wf(),
        ensures
            final(self).wf(),
            final(self)@ == old(self)@.insert(w@),
    {
        let ghost wv = w@;
        if !self.contains_word(&w) {
            proof {
                assert(!views_of(self.words@).contains(wv));
            }
            let ghost before = self.words@;
            self.words.push(w);
            proof {
                assert(views_of(self.words@) =~= views_of(before).push(wv));
                assert forall|a: int, b: int|
                    0 <= a < b < views_of(self.words@).len() implies views_of(self.words@)[a]
                    != views_of(self.words@)[b] by {
                    if b < views_of(before).len() {
                    } else {
                        assert(views_of(self.words@)[b] == wv);
                        assert(views_of(before).contains(views_of(before)[a]));
                    }
                }
                assert(views_of(self.words@).no_duplicates());
                views_of(before).lemma_push_to_set_commute(wv);
                assert(self@ == old(self)@.insert(wv));
            }
        } else {
            proof {
                assert(self@ =~= old(self)@.insert(wv));
            }
        }
    }

    /// The number of distinct words in the set.
    pub fn len(&self) -> (r: usize)
        requires
            self.wf(),
        ensures
            r == self@.len(),
    {
        proof {
            views_of(self.words@).unique_seq_to_set();
        }
        self.words.len()
    }

    /// The `i`-th stored word, in an order that carries no meaning.
    pub fn get(&self, i: usize) -> (r: &Vec<char>)
        requires
            self.wf(),
            i < self@.len(),
        ensures
            self@.contains(r@),
    {
        proof {
            views_of(self.words@).unique_seq_to_set();
        }
        let r = &self.words[i];
        proof {
            assert(views_of(self.words@)[i as int] == r@);
            assert(views_of(self.words@).contains(r@));
        }
        r
    }
}

/// The word `s` with the character at `idx` replaced by `newchar`; a word is
/// never lengthened or shortened, and an index past the end replaces nothing.
pub fn replace_nth_char(s: &Vec<char>, idx: usize, newchar: char) -> (r: Vec<char>)
    ensures
        idx < s@.len() ==> r@ == s@.update(idx as int, newchar),
        idx >= s@.len() ==> r@ == s@,
{
    let mut r: Vec<char> = Vec::new();
    let mut i: usize = 0;
    while i < s.len()
        invariant
            i <= s@.len(),
            r@.len() == i as int,
            forall|k: int|
                #![trigger r@[k]]
                0 <= k < i ==> r@[k] == (if k == idx { newchar } else { s@[k] }),
        decreases s@.len() - i,
    {
        if i == idx {
            r.push(newchar);
        } else {
            r.push(s[i]);
        }
        i = i + 1;
    }
    proof {
        if idx < s@.len() {
            assert(r@ =~= s@.update(idx as int, newchar));
        } else {
            assert(r@ =~= s@);
        }
    }
    r
}

/// Walks `word` from `index` to the end; at each position whose character has
/// a confusable class, substitutes every alternate of that class, records the
/// new word, and recurses strictly to the right of the substituted position.
/// Adds to `words` exactly the variants of `word` whose substitutions sit at
/// or after `index`.
pub fn permutation(table: &ConfusableTable, word: &Vec<char>, words: &mut VariantSet, index: usize)
    requires
        table.wf(),
        old(words).wf(),
    ensures
        final(words).wf(),
        final(words)@ == old(words)@.union(variants_from(table@, word@, index as int)),
    decreases word@.len() - index,
{
    let ghost t = table@;
    let ghost w = word@;
    let ghost base = words@;
    let n = word.len();
    if index >= n {
        proof {
            assert forall|v: Seq<char>| !(#[trigger] variants_from(t, w, index as int).contains(
                v,
            )) by {
                if is_variant_from(t, w, index as int, v) {
                    assert forall|q: int| #![trigger v[q]] 0 <= q < w.len() implies v[q] == w[q] by {
                        if v[q] != w[q] {
                            assert(index as int <= q);
                        }
                    }
                    assert(v =~= w);
                }
            }
            assert(base.union(variants_from(t, w, index as int)) =~= base);
        }
        return ;
    }
    let mut p: usize = index;
    proof {
        assert forall|v: Seq<char>| !(#[trigger] prefix_variants(t, w, index as int, p as int).contains(
            v,
        )) by {
            if is_variant_from(t, w, index as int, v) {
                if exists|q: int| #![trigger v[q]] #![trigger w[q]] 0 <= q < p as int && v[q] != w[q] {
                    let q = choose|q: int|
                        #![trigger v[q]]
                        #![trigger w[q]]
                    0 <= q < p as int && v[q] != w[q];
                    assert(index as int <= q);
                }
            }
        }
        assert(words@ =~= base.union(prefix_variants(t, w, index as int, p as int)));
    }
    while p < n
        invariant
            n == w.len(),
            w == word@,
            t == table@,
            table.wf(),
            words.wf(),
            index <= p <= n,
            words@ == base.union(prefix_variants(t, w, index as int, p as int)),
        decreases n - p,
    {
        let c0 = word[p];
        assert(c0 == w[p as int]);
        match table.class_index_of(c0) {
            None => {
                proof {
                    assert forall|v: Seq<char>| #[trigger] prefix_variants(
                        t,
                        w,
                        index as int,
                        p as int + 1,
                    ).contains(v) implies prefix_variants(t, w, index as int, p as int).contains(
                        v,
                    ) by {
                        let q = choose|q: int|
                            #![trigger v[q]]
                            #![trigger w[q]]
                        0 <= q < p as int + 1 && v[q] != w[q];
                        if q == p as int {
                            assert(confusable_with(t, w[q], v[q]));
                            let ci = choose|ci: int|
                                0 <= ci < t.len() && #[trigger] t[ci].contains(w[q]) && t[ci].contains(
                                    v[q],
                                );
                            assert(crate::table::in_some_class(t, w[p as int]));
                            assert(false);
                        }
                    }
                    assert(prefix_variants(t, w, index as int, p as int + 1) =~= prefix_variants(
                        t,
                        w,
                        index as int,
                        p as int,
                    ));
                }
            },
            Some(ci) => {
                let cl = table.class_at(ci);
                let ghost cls = cl@;
                proof {
                    assert(cls.contains(w[p as int]));
                    assert forall|v: Seq<char>| !(#[trigger] pos_variants(
                        t,
                        w,
                        index as int,
                        p as int,
                        cls,
                        0,
                    ).contains(v)) by {
                        if cls.subrange(0, 0).contains(v[p as int]) {
                            let k = choose|k: int| 0 <= k < 0 && cls.subrange(0, 0)[k] == v[p as int];
                        }
                    }
                    assert(words@ =~= base.union(
                        prefix_variants(t, w, index as int, p as int),
                    ).union(pos_variants(t, w, index as int, p as int, cls, 0)));
                }
                let m = cl.len();
                let mut j: usize = 0;
                while j < m
                    invariant
                        n == w.len(),
                        w == word@,
                        t == table@,
                        table.wf(),
                        words.wf(),
                        index <= p < n,
                        m == cls.len(),
                        j <= m,
                        cl@ == cls,
                        cls == table@[ci as int],
                        ci < table@.len(),
                        cls.contains(w[p as int]),
                        words@ == base.union(prefix_variants(t, w, index as int, p as int)).union(
                            pos_variants(t, w, index as int, p as int, cls, j as int),
                        ),
                    decreases m - j,
                {
                    let c = cl[j];
                    assert(c == cls[j as int]);
                    if c != word[p] {
                        let new_word = replace_nth_char(word, p, c);
                        assert(new_word@ == w.update(p as int, c));
                        let ghost mid = words@;
                        permutation(table, &new_word, words, p + 1);
                        words.insert(new_word);
                        proof {
                            assert(confusable_with(t, w[p as int], c)) by {
                                assert(t[ci as int].contains(w[p as int]));
                                assert(t[ci as int].contains(c));
                            }
                            lemma_branch_variants(t, w, index as int, p as int, c);
                            assert(words@ =~= mid.union(
                                branch_variants(t, w, index as int, p as int, c),
                            ));
                            assert forall|v: Seq<char>| #[trigger] pos_variants(
                                t,
                                w,
                                index as int,
                                p as int,
                                cls,
                                j as int + 1,
                            ).contains(v) implies pos_variants(
                                t,
                                w,
                                index as int,
                                p as int,
                                cls,
                                j as int,
                            ).contains(v) || branch_variants(t, w, index as int, p as int, c).contains(
                                v,
                            ) by {
                                lemma_subrange_succ_contains(cls, j as int, v[p as int]);
                            }
                            assert forall|v: Seq<char>| #[trigger] branch_variants(
                                t,
                                w,
                                index as int,
                                p as int,
                                c,
                            ).contains(v) implies pos_variants(
                                t,
                                w,
                                index as int,
                                p as int,
                                cls,
                                j as int + 1,
                            ).contains(v) by {
                                lemma_subrange_succ_contains(cls, j as int, v[p as int]);
                            }
                            assert forall|v: Seq<char>| #[trigger] pos_variants(
                                t,
                                w,
                                index as int,
                                p as int,
                                cls,
                                j as int,
                            ).contains(v) implies pos_variants(
                                t,
                                w,
                                index as int,
                                p as int,
                                cls,
                                j as int + 1,
                            ).contains(v) by {
                                lemma_subrange_succ_contains(cls, j as int, v[p as int]);
                            }
                            assert(words@ =~= base.union(
                                prefix_variants(t, w, index as int, p as int),
                            ).union(pos_variants(t, w, index as int, p as int, cls, j as int + 1)));
                        }
                    } else {
                        proof {
                            assert forall|v: Seq<char>|
                                #[trigger] pos_variants(
                                    t,
                                    w,
                                    index as int,
                                    p as int,
                                    cls,
                                    j as int + 1,
                                ).contains(v) == pos_variants(
                                    t,
                                    w,
                                    index as int,
                                    p as int,
                                    cls,
                                    j as int,
                                ).contains(v) by {
                                lemma_subrange_succ_contains(cls, j as int, v[p as int]);
                            }
                            assert(pos_variants(t, w, index as int, p as int, cls, j as int + 1)
                                =~= pos_variants(t, w, index as int, p as int, cls, j as int));
                        }
                    }
                    j = j + 1;
                }
                proof {
                    assert(cls.subrange(0, m as int) =~= cls);
                    assert forall|v: Seq<char>| #[trigger] prefix_variants(
                        t,
                        w,
                        index as int,
                        p as int + 1,
                    ).contains(v) implies prefix_variants(t, w, index as int, p as int).contains(v)
                        || pos_variants(t, w, index as int, p as int, cls, m as int).contains(
                        v,
                    ) by {
                        if !prefix_variants(t, w, index as int, p as int).contains(v) {
                            assert forall|q: int|
                                #![trigger v[q]]
                                #![trigger w[q]]
                            0 <= q < p as int implies v[q] == w[q] by {
                                if v[q] != w[q] {
                                    assert(prefix_variants(t, w, index as int, p as int).contains(
                                        v,
                                    ));
                                }
                            }
                            assert(unchanged_below(w, v, p as int));
                            let q = choose|q: int|
                                #![trigger v[q]]
                                #![trigger w[q]]
                            0 <= q < p as int + 1 && v[q] != w[q];
                            assert(q == p as int);
                            assert(confusable_with(t, w[p as int], v[p as int]));
                            let cj = choose|cj: int|
                                0 <= cj < t.len() && #[trigger] t[cj].contains(w[p as int])
                                    && t[cj].contains(v[p as int]);
                            crate::table::lemma_class_of_unique(t, w[p as int], cj, ci as int);
                            assert(cls.contains(v[p as int]));
                        }
                    }
                    assert forall|v: Seq<char>| #[trigger] pos_variants(
                        t,
                        w,
                        index as int,
                        p as int,
                        cls,
                        m as int,
                    ).contains(v) implies prefix_variants(t, w, index as int, p as int + 1).contains(
                        v,
                    ) by {
                        assert(v[p as int] != w[p as int]);
                    }
                    assert forall|v: Seq<char>| #[trigger] prefix_variants(
                        t,
                        w,
                        index as int,
                        p as int,
                    ).contains(v) implies prefix_variants(t, w, index as int, p as int + 1).contains(
                        v,
                    ) by {
                        let q = choose|q: int|
                            #![trigger v[q]]
                            #![trigger w[q]]
                        0 <= q < p as int && v[q] != w[q];
                        assert(0 <= q < p as int + 1 && v[q] != w[q]);
                    }
                    assert(words@ =~= base.union(
                        prefix_variants(t, w, index as int, p as int + 1),
                    ));
                }
            },
        }
        p = p + 1;
    }
    proof {
        assert forall|v: Seq<char>| #[trigger] variants_from(t, w, index as int).contains(
            v,
        ) implies prefix_variants(t, w, index as int, n as int).contains(v) by {
            lemma_unequal_seqs_differ(v, w);
            let q = choose|q: int| #![trigger v[q]] #![trigger w[q]] 0 <= q < v.len() && v[q] != w[q];
            assert(0 <= q < n as int && v[q] != w[q]);
        }
        assert(words@ =~= base.union(variants_from(t, w, index as int)));
    }
}

/// Produces the full variant set of `word`: every distinct word reachable by
/// substituting one or more positions with a confusable alternate. The input
/// word itself is never in the result, and a word with no confusable
/// character yields the empty set.
pub fn expand(table: &ConfusableTable, word: &Vec<char>) -> (r: VariantSet)
    requires
        table.wf(),
    ensures
        r.wf(),
        r@ == expansion(table@, word@),
{
    let mut words = VariantSet::new();
    permutation(table, word, &mut words, 0);
    proof {
        assert(Set::<Seq<char>>::empty().union(variants_from(table@, word@, 0)) =~= expansion(
            table@,
            word@,
        ));
    }
    words
}

} // verus!
