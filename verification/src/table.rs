//! The confusable table: disjoint classes of characters that are visually
//! mistakable for one another, with a lookup from a character to its class.

use vstd::prelude::*;

verus! {

/// The views of a sequence of character vectors.
pub open spec fn views_of(cs: Seq<Vec<char>>) -> Seq<Seq<char>> {
    Seq::new(cs.len(), |i: int| cs[i]@)
}

/// Some class of `t` contains `c`.
pub open spec fn in_some_class(t: Seq<Seq<char>>, c: char) -> bool {
    exists|i: int| 0 <= i < t.len() && #[trigger] t[i].contains(c)
}

/// The characters `a` and `b` stand together in one class of `t`, so that one
/// may be substituted for the other.
pub open spec fn confusable_with(t: Seq<Seq<char>>, a: char, b: char) -> bool {
    exists|i: int| 0 <= i < t.len() && #[trigger] t[i].contains(a) && t[i].contains(b)
}

/// Every class holds at least two characters: a canonical form and at least
/// one alternate.
pub open spec fn classes_large_enough(t: Seq<Seq<char>>) -> bool {
    forall|i: int| 0 <= i < t.len() ==> #[trigger] t[i].len() >= 2
}

/// No character is listed twice within one class.
pub open spec fn class_distinct(cl: Seq<char>) -> bool {
    forall|k: int, l: int| 0 <= k < l < cl.len() ==> cl[k] != cl[l]
}

/// Every class lists its characters without repetition.
pub open spec fn classes_distinct(t: Seq<Seq<char>>) -> bool {
    forall|i: int| 0 <= i < t.len() ==> class_distinct(#[trigger] t[i])
}

/// No character belongs to two classes.
pub open spec fn classes_disjoint(t: Seq<Seq<char>>) -> bool {
    forall|i: int, j: int, c: char|
        #![trigger t[i].contains(c), t[j].contains(c)]
        0 <= i < j < t.len() && t[i].contains(c) ==> !t[j].contains(c)
}

/// A well-formed table: each class has at least two distinct characters, and
/// a character belongs to at most one class.
pub open spec fn classes_wf(t: Seq<Seq<char>>) -> bool {
    &&& classes_large_enough(t)
    &&& classes_distinct(t)
    &&& classes_disjoint(t)
}

/// In a well-formed table a character determines its class: two classes that
/// contain the same character are the same class. In particular, looking a
/// character up twice always yields the same class.
pub proof fn lemma_class_of_unique(t: Seq<Seq<char>>, c: char, i: int, j: int)
    requires
        classes_wf(t),
        0 <= i < t.len(),
        0 <= j < t.len(),
        t[i].contains(c),
        t[j].contains(c),
    ensures
        i == j,
{
    if i < j {
        assert(!t[j].contains(c));
    }
    if j < i {
        assert(!t[i].contains(c));
    }
}

/// Why a proposed table was rejected at construction time.
#[derive(Debug, Clone, Copy, PartialEq, Eq, Structural)]
pub enum TableError {
    /// Some class holds fewer than two characters.
    ClassTooSmall,
    /// Some class lists the same character twice.
    DuplicateInClass,
    /// Two classes share a character.
    OverlappingClasses,
}

/// Whether the characters of `cl` include `c`.
pub(crate) fn chars_contain(cl: &Vec<char>, c: char) -> (r: bool)
    ensures
        r == cl@.contains(c),
{
    let mut k: usize = 0;
    while k < cl.len()
        invariant
            k <= cl@.len(),
            forall|q: int| 0 <= q < k ==> cl@[q] != c,
        decreases cl@.len() - k,
    {
        if cl[k] == c {
            return true;
        }
        k = k + 1;
    }
    false
}

/// An immutable table of disjoint confusable classes, constructed once and
/// only read thereafter.
pub struct ConfusableTable {
    classes: Vec<Vec<char>>,
}

impl View for ConfusableTable {
    type V = Seq<Seq<char>>;

    closed spec fn view(&self) -> Seq<Seq<char>> {
        views_of(self.classes@)
    }
}

impl ConfusableTable {
    /// The table's construction-time invariant.
    pub open spec fn wf(&self) -> bool {
        classes_wf(self@)
    }

    /// Validates the proposed classes and builds the table. Construction
    /// fails fast on malformed data instead of producing inconsistent
    /// expansions later.
    pub fn new(classes: Vec<Vec<char>>) -> (r: Result<ConfusableTable, TableError>)
        ensures
            r matches Ok(t) ==> t@ == views_of(classes@) && t.wf(),
            r is Ok <==> classes_wf(views_of(classes@)),
            r == Err::<ConfusableTable, TableError>(TableError::ClassTooSmall) <==> !classes_large_enough(
                views_of(classes@),
            ),
            r == Err::<ConfusableTable, TableError>(TableError::DuplicateInClass) <==> (
            classes_large_enough(views_of(classes@)) && !classes_distinct(views_of(classes@))),
            r == Err::<ConfusableTable, TableError>(TableError::OverlappingClasses) <==> (
            classes_large_enough(views_of(classes@)) && classes_distinct(views_of(classes@))
                && !classes_disjoint(views_of(classes@))),
    {
        let ghost t = views_of(classes@);
        let n = classes.len();
        let mut i: usize = 0;
        while i < n
            invariant
                n == classes@.len(),
                t == views_of(classes@),
                i <= n,
                forall|q: int| 0 <= q < i ==> #[trigger] t[q].len() >= 2,
            decreases n - i,
        {
            if classes[i].len() < 2 {
                proof {
                    assert(t[i as int].len() < 2);
                    assert(!classes_large_enough(t));
                }
                return Err(TableError::ClassTooSmall);
            }
            i = i + 1;
        }
        assert(classes_large_enough(t));

        let mut i: usize = 0;
        while i < n
            invariant
                n == classes@.len(),
                t == views_of(classes@),
                i <= n,
                classes_large_enough(t),
                forall|q: int| 0 <= q < i ==> class_distinct(#[trigger] t[q]),
            decreases n - i,
        {
            let m = classes[i].len();
            let mut k: usize = 0;
            while k < m
                invariant
                    n == classes@.len(),
                    t == views_of(classes@),
                    i < n,
                    m == t[i as int].len(),
                    k <= m,
                    classes_large_enough(t),
                    forall|a: int, b: int| 0 <= a < b < t[i as int].len() && a < k ==> t[i as int][a]
                        != t[i as int][b],
                decreases m - k,
            {
                let mut l: usize = k + 1;
                while l < m
                    invariant
                        n == classes@.len(),
                        t == views_of(classes@),
                        i < n,
                        m == t[i as int].len(),
                        k < m,
                        k < l,
                        l <= m,
                        classes_large_enough(t),
                        forall|b: int| k < b < l ==> t[i as int][k as int] != t[i as int][b],
                    decreases m - l,
                {
                    if classes[i][k] == classes[i][l] {
                        assert(!class_distinct(t[i as int]));
                        assert(!classes_distinct(t));
                        return Err(TableError::DuplicateInClass);
                    }
                    l = l + 1;
                }
                k = k + 1;
            }
            assert(class_distinct(t[i as int]));
            i = i + 1;
        }
        assert(classes_distinct(t));

        let mut j: usize = 0;
        while j < n
            invariant
                n == classes@.len(),
                t == views_of(classes@),
                j <= n,
                classes_large_enough(t),
                classes_distinct(t),
                forall|a: int, b: int, c: char|
                    #![trigger t[a].contains(c), t[b].contains(c)]
                    0 <= a < b < j && t[a].contains(c) ==> !t[b].contains(c),
            decreases n - j,
        {
            let mut i: usize = 0;
            while i < j
                invariant
                    n == classes@.len(),
                    t == views_of(classes@),
                    j < n,
                    i <= j,
                    classes_large_enough(t),
                    classes_distinct(t),
                    forall|a: int, b: int, c: char|
                        #![trigger t[a].contains(c), t[b].contains(c)]
                        0 <= a < b < j && t[a].contains(c) ==> !t[b].contains(c),
                    forall|a: int, c: char|
                        #![trigger t[a].contains(c)]
                        0 <= a < i && t[a].contains(c) ==> !t[j as int].contains(c),
                decreases j - i,
            {
                let m = classes[j].len();
                let mut k: usize = 0;
                while k < m
                    invariant
                        n == classes@.len(),
                        t == views_of(classes@),
                        j < n,
                        i < j,
                        m == t[j as int].len(),
                        k <= m,
                        classes_large_enough(t),
                        classes_distinct(t),
                        forall|q: int| 0 <= q < k ==> !t[i as int].contains(#[trigger] t[j as int][q]),
                    decreases m - k,
                {
                    if chars_contain(&classes[i], classes[j][k]) {
                        assert(t[i as int].contains(t[j as int][k as int]));
                        assert(t[j as int].contains(t[j as int][k as int]));
                        assert(!classes_disjoint(t));
                        return Err(TableError::OverlappingClasses);
                    }
                    k = k + 1;
                }
                assert forall|c: char| #[trigger] t[j as int].contains(c) implies !t[i as int].contains(
                    c,
                ) by {
                    let q = choose|q: int| 0 <= q < t[j as int].len() && t[j as int][q] == c;
                    assert(!t[i as int].contains(t[j as int][q]));
                }
                i = i + 1;
            }
            j = j + 1;
        }
        assert(classes_disjoint(t));

        Ok(ConfusableTable { classes })
    }

    /// The number of classes.
    pub fn class_count(&self) -> (r: usize)
        ensures
            r == self@.len(),
    {
        self.classes.len()
    }

    /// The class at index `i`.
    pub fn class_at(&self, i: usize) -> (r: &Vec<char>)
        requires
            i < self@.len(),
        ensures
            r@ == self@[i as int],
    {
        &self.classes[i]
    }

    /// The index of the class containing `c`, or `None` when `c` has no
    /// confusable alternates. In a well-formed table at most one class
    /// contains `c`, so the answer is the same however often it is asked.
    pub fn class_index_of(&self, c: char) -> (r: Option<usize>)
        ensures
            match r {
                Some(i) => i < self@.len() && self@[i as int].contains(c),
                None => !in_some_class(self@, c),
            },
    {
        let n = self.classes.len();
        let mut i: usize = 0;
        while i < n
            invariant
                n == self@.len(),
                i <= n,
                forall|q: int| 0 <= q < i ==> !(#[trigger] self@[q].contains(c)),
            decreases n - i,
        {
            if chars_contain(&self.classes[i], c) {
                return Some(i);
            }
            i = i + 1;
        }
        None
    }
}

/// The classes of the standard table: each lists the Cyrillic character
/// first, as the canonical form, then the Latin letters or digits that look
/// like it. The letters ze and the digit three all resemble one another, so
/// they share one class: a character belongs to at most one class.
pub open spec fn cyrillic_confusables() -> Seq<Seq<char>> {
    seq![
        seq!['\u{0410}', 'A'],
        seq!['\u{0430}', 'a'],
        seq!['\u{0412}', 'B'],
        seq!['\u{0421}', 'C'],
        seq!['\u{0441}', 'c'],
        seq!['\u{0415}', 'E'],
        seq!['\u{0435}', 'e'],
        seq!['\u{041a}', 'K'],
        seq!['\u{043a}', 'k'],
        seq!['\u{0417}', '3', '\u{0437}'],
        seq!['\u{041c}', 'M'],
        seq!['\u{041d}', 'H'],
        seq!['\u{041e}', 'O'],
        seq!['\u{043e}', 'o'],
        seq!['\u{0420}', 'P'],
        seq!['\u{0440}', 'p'],
        seq!['\u{0422}', 'T'],
        seq!['\u{0425}', 'X'],
        seq!['\u{0445}', 'x'],
        seq!['\u{0443}', 'y'],
    ]
}

/// A class of two characters.
fn class_pair(a: char, b: char) -> (r: Vec<char>)
    ensures
        r@ == seq![a, b],
{
    let mut r: Vec<char> = Vec::new();
    r.push(a);
    r.push(b);
    proof {
        assert(r@ =~= seq![a, b]);
    }
    r
}

/// A class of three characters.
fn class_triple(a: char, b: char, c: char) -> (r: Vec<char>)
    ensures
        r@ == seq![a, b, c],
{
    let mut r: Vec<char> = Vec::new();
    r.push(a);
    r.push(b);
    r.push(c);
    proof {
        assert(r@ =~= seq![a, b, c]);
    }
    r
}

/// Builds the standard Cyrillic/Latin table. The class data is authored by
/// hand, so it passes through the same construction-time validation as any
/// other table; the validation provably succeeds on it.
pub fn cyrillic_table() -> (r: ConfusableTable)
    ensures
        r@ == cyrillic_confusables(),
        r.wf(),
{
    let mut cs: Vec<Vec<char>> = Vec::new();
    cs.push(class_pair('\u{0410}', 'A'));
    cs.push(class_pair('\u{0430}', 'a'));
    cs.push(class_pair('\u{0412}', 'B'));
    cs.push(class_pair('\u{0421}', 'C'));
    cs.push(class_pair('\u{0441}', 'c'));
    cs.push(class_pair('\u{0415}', 'E'));
    cs.push(class_pair('\u{0435}', 'e'));
    cs.push(class_pair('\u{041a}', 'K'));
    cs.push(class_pair('\u{043a}', 'k'));
    cs.push(class_triple('\u{0417}', '3', '\u{0437}'));
    cs.push(class_pair('\u{041c}', 'M'));
    cs.push(class_pair('\u{041d}', 'H'));
    cs.push(class_pair('\u{041e}', 'O'));
    cs.push(class_pair('\u{043e}', 'o'));
    cs.push(class_pair('\u{0420}', 'P'));
    cs.push(class_pair('\u{0440}', 'p'));
    cs.push(class_pair('\u{0422}', 'T'));
    cs.push(class_pair('\u{0425}', 'X'));
    cs.push(class_pair('\u{0445}', 'x'));
    cs.push(class_pair('\u{0443}', 'y'));
    proof {
        assert(views_of(cs@) =~~= cyrillic_confusables());
    }
    match ConfusableTable::new(cs) {
        Ok(t) => t,
        Err(_) => vstd::pervasive::unreached(),
    }
}

} // verus!
