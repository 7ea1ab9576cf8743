//! Product terms (cubes): construction, adjacency, merging and rendering.

use vstd::prelude::*;

use crate::bit::Bit;
use vstd::string::StringExecFns;

verus! {

/// An input variable's index and the polarity it must have.
pub type Variable = (usize, bool);

/// Indices strictly increase along the cube: each variable is constrained at most once.
pub open spec fn ascending(c: Seq<Variable>) -> bool {
    forall|i: int, j: int| 0 <= i < j < c.len() ==> c[i].0 < c[j].0
}

/// Every index the cube constrains is below `n`.
pub open spec fn within(c: Seq<Variable>, n: nat) -> bool {
    forall|k: int| 0 <= k < c.len() ==> (c[k].0 as nat) < n
}

/// The cube is true on input row `x`: every constrained bit matches.
pub open spec fn covers(c: Seq<Variable>, x: Seq<bool>) -> bool {
    forall|k: int|
        0 <= k < c.len() ==> (c[k].0 as int) < x.len() && x[c[k].0 as int] == c[k].1
}

/// Both cubes constrain the same indices, position by position.
pub open spec fn same_positions(a: Seq<Variable>, b: Seq<Variable>) -> bool {
    &&& a.len() == b.len()
    &&& forall|k: int| 0 <= k < a.len() ==> a[k].0 == b[k].0
}

/// Position `k` is the one and only position where the polarities differ.
pub open spec fn differs_only_at(a: Seq<Variable>, b: Seq<Variable>, k: int) -> bool {
    &&& 0 <= k < a.len()
    &&& a[k].1 != b[k].1
    &&& forall|j: int| 0 <= j < a.len() && j != k ==> a[j].1 == b[j].1
}

/// Hypercube adjacency: same variables, exactly one of them with opposite polarity.
pub open spec fn adjacent(a: Seq<Variable>, b: Seq<Variable>) -> bool {
    &&& same_positions(a, b)
    &&& exists|k: int| differs_only_at(a, b, k)
}

/// The position at which two adjacent cubes differ.
pub open spec fn diff_position(a: Seq<Variable>, b: Seq<Variable>) -> int {
    choose|k: int| differs_only_at(a, b, k)
}

/// The cube that two adjacent cubes merge into: the differing variable is dropped.
pub open spec fn merged(a: Seq<Variable>, b: Seq<Variable>) -> Seq<Variable> {
    a.remove(diff_position(a, b))
}

/// The cube that constrains every position of a fully specified row.
pub open spec fn minterm_of(row: Seq<Bit>) -> Seq<Variable> {
    Seq::new(row.len(), |i: int| (i as usize, row[i] == Bit::On))
}

/// No position of the row is eliminated.
pub open spec fn specified(row: Seq<Bit>) -> bool {
    forall|i: int| 0 <= i < row.len() ==> row[i] != Bit::NA
}

/// Variables ordered by index, then by polarity (negated before plain).
pub open spec fn variable_lt(a: Variable, b: Variable) -> bool {
    a.0 < b.0 || (a.0 == b.0 && !a.1 && b.1)
}

/// Lexicographic order on cubes by their (index, polarity) sequences.
pub open spec fn lex_lt(a: Seq<Variable>, b: Seq<Variable>) -> bool
    decreases a.len(),
{
    if a.len() == 0 {
        b.len() > 0
    } else if b.len() == 0 {
        false
    } else if a[0] != b[0] {
        variable_lt(a[0], b[0])
    } else {
        lex_lt(a.drop_first(), b.drop_first())
    }
}

/// The texts of the names.
pub open spec fn texts(names: Seq<String>) -> Seq<Seq<char>> {
    names.map_values(|s: String| s@)
}

/// A variable written as its name, followed by `'` when negated.
pub open spec fn literal_text(v: Variable, names: Seq<Seq<char>>) -> Seq<char> {
    names[v.0 as int] + if v.1 {
        Seq::<char>::empty()
    } else {
        seq!['\'']
    }
}

/// A cube written as its literals side by side (`a'bc`).
pub open spec fn term_text(c: Seq<Variable>, names: Seq<Seq<char>>) -> Seq<char>
    decreases c.len(),
{
    if c.len() == 0 {
        Seq::empty()
    } else {
        term_text(c.drop_last(), names) + literal_text(c.last(), names)
    }
}

/// A product term over the input variables; variables it does not mention are don't-cares.
#[derive(Debug)]
pub struct Term {
    bits: Vec<Variable>,
}

impl View for Term {
    type V = Seq<Variable>;

    closed spec fn view(&self) -> Seq<Variable> {
        self.bits@
    }
}

impl Term {
    /// Cubes are kept with their indices in ascending order.
    pub open spec fn wf(&self) -> bool {
        ascending(self@)
    }

    pub fn new(vals: Vec<Variable>) -> (r: Term)
        requires
            ascending(vals@),
        ensures
            r@ == vals@,
            r.wf(),
    {
        Term { bits: vals }
    }

    /// The minterm of a fully specified row: position `i` constrained to the row's bit `i`.
    pub fn compute(bits: &Vec<Bit>) -> (r: Term)
        requires
            specified(bits@),
        ensures
            r@ == minterm_of(bits@),
            r.wf(),
    {
        let mut rv: Vec<Variable> = Vec::new();
        let mut i: usize = 0;
        while i < bits.len()
            invariant
                i <= bits.len(),
                specified(bits@),
                rv@ == minterm_of(bits@).take(i as int),
            decreases bits.len() - i,
        {
            match bits[i] {
                Bit::On => rv.push((i, true)),
                Bit::Off => rv.push((i, false)),
                Bit::NA => {},
            }
            i = i + 1;
        }
        assert(rv@ == minterm_of(bits@));
        Term { bits: rv }
    }

    pub fn len(&self) -> (r: usize)
        ensures
            r == self@.len(),
    {
        self.bits.len()
    }

    /// The variable at position `k`.
    pub fn variable(&self, k: usize) -> (r: Variable)
        requires
            k < self@.len(),
        ensures
            r == self@[k as int],
    {
        self.bits[k]
    }

    /// The variables of the term, in order.
    pub fn variables(&self) -> (r: Vec<Variable>)
        ensures
            r@ == self@,
    {
        let mut rv: Vec<Variable> = Vec::new();
        let mut i: usize = 0;
        while i < self.bits.len()
            invariant
                i <= self.bits.len(),
                rv@ == self.bits@.take(i as int),
            decreases self.bits.len() - i,
        {
            rv.push(self.bits[i]);
            i = i + 1;
        }
        assert(rv@ == self.bits@);
        rv
    }

    /// A term equal to this one.
    pub fn copy(&self) -> (r: Term)
        ensures
            r@ == self@,
    {
        Term { bits: self.variables() }
    }

    /// True when both terms are the same sequence of variables.
    pub fn same(&self, other: &Term) -> (r: bool)
        ensures
            r == (self@ == other@),
    {
        if self.bits.len() != other.bits.len() {
            return false;
        }
        let mut i: usize = 0;
        while i < self.bits.len()
            invariant
                i <= self.bits.len(),
                self.bits@.len() == other.bits@.len(),
                forall|j: int| 0 <= j < i ==> self.bits@[j] == other.bits@[j],
            decreases self.bits.len() - i,
        {
            let (ai, ap) = self.bits[i];
            let (bi, bp) = other.bits[i];
            if ai != bi || ap != bp {
                return false;
            }
            i = i + 1;
        }
        assert(self.bits@ =~= other.bits@);
        true
    }

    /// The term written with `names[i]` for variable `i`, or `None` when a variable
    /// has no name.
    pub fn render(&self, names: &Vec<String>) -> (r: Option<String>)
        ensures
            r is Some <==> within(self@, names@.len()),
            r matches Some(s) ==> s@ == term_text(self@, texts(names@)),
    {
        let mut s = String::new();
        let mut k: usize = 0;
        while k < self.bits.len()
            invariant
                k <= self@.len(),
                within(self@.take(k as int), names@.len()),
                s@ == term_text(self@.take(k as int), texts(names@)),
            decreases self@.len() - k,
        {
            let v = self.bits[k];
            if v.0 >= names.len() {
                return None;
            }
            s.append(names[v.0].as_str());
            if !v.1 {
                proof {
                    reveal_strlit("'");
                }
                s.append("'");
            }
            assert(self@.take(k + 1).drop_last() =~= self@.take(k as int));
            k = k + 1;
            assert(s@ =~= term_text(self@.take(k as int), texts(names@)));
        }
        assert(self@.take(self@.len() as int) =~= self@);
        Some(s)
    }

    /// True when this term comes before `other` in lexicographic (index, polarity) order.
    pub fn lex_less(&self, other: &Term) -> (r: bool)
        ensures
            r == lex_lt(self@, other@),
    {
        let a = &self.bits;
        let b = &other.bits;
        let mut k: usize = 0;
        assert(a@.subrange(0, a@.len() as int) =~= a@);
        assert(b@.subrange(0, b@.len() as int) =~= b@);
        while k < a.len() && k < b.len() && a[k].0 == b[k].0 && a[k].1 == b[k].1
            invariant
                k <= a@.len(),
                k <= b@.len(),
                lex_lt(a@, b@) == lex_lt(a@.subrange(k as int, a@.len() as int), b@.subrange(k as int, b@.len() as int)),
            decreases a@.len() - k,
        {
            let ghost sa = a@.subrange(k as int, a@.len() as int);
            let ghost sb = b@.subrange(k as int, b@.len() as int);
            assert(sa.drop_first() =~= a@.subrange(k + 1, a@.len() as int));
            assert(sb.drop_first() =~= b@.subrange(k + 1, b@.len() as int));
            k = k + 1;
        }
        let ghost sa = a@.subrange(k as int, a@.len() as int);
        let ghost sb = b@.subrange(k as int, b@.len() as int);
        if k == a.len() {
            assert(sa.len() == 0);
            k < b.len()
        } else if k == b.len() {
            false
        } else {
            assert(sa[0] == a@[k as int] && sb[0] == b@[k as int]);
            a[k].0 < b[k].0 || (a[k].0 == b[k].0 && !a[k].1 && b[k].1)
        }
    }

    /// True when the two terms constrain the same variables and differ in the
    /// polarity of exactly one of them (a'b' and ab').
    pub fn mergeable(&self, other: &Term) -> (r: bool)
        ensures
            r == adjacent(self@, other@),
    {
        if self.bits.len() != other.bits.len() {
            return false;
        }
        let n = self.bits.len();
        let mut seen = false;
        let mut pos: usize = 0;
        let mut k: usize = 0;
        while k < n
            invariant
                n == self@.len(),
                n == other@.len(),
                k <= n,
                forall|j: int| 0 <= j < k ==> self@[j].0 == other@[j].0,
                seen ==> pos < k && self@[pos as int].1 != other@[pos as int].1,
                seen ==> forall|j: int| 0 <= j < k && j != pos ==> self@[j].1 == other@[j].1,
                !seen ==> forall|j: int| 0 <= j < k ==> self@[j].1 == other@[j].1,
            decreases n - k,
        {
            let a = self.bits[k];
            let b = other.bits[k];
            if a.0 != b.0 {
                assert(!same_positions(self@, other@));
                return false;
            }
            if a.1 != b.1 {
                if seen {
                    assert forall|m: int| !differs_only_at(self@, other@, m) by {
                        if differs_only_at(self@, other@, m) {
                            if m == pos as int {
                                assert(self@[k as int].1 != other@[k as int].1);
                            } else {
                                assert(self@[pos as int].1 != other@[pos as int].1);
                            }
                        }
                    }
                    return false;
                }
                seen = true;
                pos = k;
            }
            k = k + 1;
        }
        if seen {
            assert(differs_only_at(self@, other@, pos as int));
        } else {
            assert forall|m: int| !differs_only_at(self@, other@, m) by {}
        }
        seen
    }

    /// The term that covers exactly what either of two adjacent terms covers:
    /// this term without the variable of opposite polarity.
    pub fn merge(&self, other: &Term) -> (r: Term)
        requires
            adjacent(self@, other@),
        ensures
            r@ == merged(self@, other@),
            self.wf() ==> r.wf(),
    {
        let ghost d = diff_position(self@, other@);
        let n = self.bits.len();
        let mut k: usize = 0;
        while k < n && self.bits[k].1 == other.bits[k].1
            invariant
                n == self@.len(),
                n == other@.len(),
                k <= d,
                differs_only_at(self@, other@, d),
            decreases n - k,
        {
            k = k + 1;
        }
        assert(k == d);
        let mut rv: Vec<Variable> = Vec::new();
        let mut i: usize = 0;
        while i < n
            invariant
                n == self@.len(),
                k < n,
                i <= n,
                rv@ == (if i <= k {
                    self@.take(i as int)
                } else {
                    self@.take(k as int) + self@.subrange(k + 1, i as int)
                }),
            decreases n - i,
        {
            if i != k {
                rv.push(self.bits[i]);
            }
            i = i + 1;
        }
        assert(rv@ =~= self@.remove(k as int));
        Term { bits: rv }
    }
}

/// Adjacency is symmetric: `a` can be merged with `b` exactly when `b` can be merged with `a`.
pub proof fn lemma_mergeable_symmetric(a: Seq<Variable>, b: Seq<Variable>)
    ensures
        adjacent(a, b) == adjacent(b, a),
{
    if adjacent(a, b) {
        let k = diff_position(a, b);
        assert(differs_only_at(b, a, k));
    }
    if adjacent(b, a) {
        let k = diff_position(b, a);
        assert(differs_only_at(a, b, k));
    }
}

/// A merged cube has one variable fewer.
pub proof fn lemma_merged_len(a: Seq<Variable>, b: Seq<Variable>)
    requires
        adjacent(a, b),
    ensures
        merged(a, b).len() == a.len() - 1,
{
    assert(differs_only_at(a, b, diff_position(a, b)));
}

/// Merging two adjacent cubes gives a cube with one variable fewer that is true on
/// exactly the rows where either of them is true, whichever of them comes first.
pub proof fn lemma_merge_covers(a: Seq<Variable>, b: Seq<Variable>, x: Seq<bool>)
    requires
        adjacent(a, b),
        within(a, x.len()),
    ensures
        merged(a, b).len() == a.len() - 1,
        covers(merged(a, b), x) == (covers(a, x) || covers(b, x)),
        merged(a, b) == merged(b, a),
{
    let d = diff_position(a, b);
    let m = merged(a, b);
    assert(differs_only_at(a, b, d));
    assert(differs_only_at(b, a, d));
    let e = diff_position(b, a);
    assert(differs_only_at(b, a, e));
    assert(e == d);
    assert forall|j: int| 0 <= j < a.len() && j != d implies a[j] == b[j] by {
        assert(a[j].0 == b[j].0);
        assert(a[j].1 == b[j].1);
    }
    assert(merged(b, a) =~= m);
    assert forall|j: int| 0 <= j < m.len() implies m[j] == (if j < d { a[j] } else { a[j + 1] })
        by {}
    if covers(a, x) {
        assert forall|j: int| 0 <= j < m.len() implies (m[j].0 as int) < x.len() && x[m[j].0 as int]
            == m[j].1 by {
            if j >= d {
                assert(a[j + 1] == m[j]);
            }
        }
    }
    if covers(b, x) {
        assert forall|j: int| 0 <= j < m.len() implies (m[j].0 as int) < x.len() && x[m[j].0 as int]
            == m[j].1 by {
            if j >= d {
                assert(a[j + 1] == m[j]);
                assert(b[j + 1].1 == a[j + 1].1);
            } else {
                assert(b[j].1 == a[j].1);
            }
        }
    }
    if covers(m, x) && !covers(a, x) {
        let i = a[d].0 as int;
        assert(i < x.len());
        assert forall|k: int| 0 <= k < a.len() && k != d implies (a[k].0 as int) < x.len()
            && x[a[k].0 as int] == a[k].1 by {
            if k < d {
                assert(m[k] == a[k]);
            } else {
                assert(m[k - 1] == a[k]);
            }
        }
        assert(x[i] != a[d].1);
        assert forall|k: int| 0 <= k < b.len() implies (b[k].0 as int) < x.len() && x[b[k].0 as int]
            == b[k].1 by {
            if k != d {
                assert(b[k].1 == a[k].1);
            }
        }
    }
}

/// Cube `c` constrains the variable with index `i`.
pub open spec fn constrains(c: Seq<Variable>, i: usize) -> bool {
    exists|k: int| 0 <= k < c.len() && c[k].0 == i
}

/// Ascending cubes over the same set of variables agree on the index at each position
/// up to `k`.
proof fn lemma_same_indices_prefix(a: Seq<Variable>, b: Seq<Variable>, k: int)
    requires
        ascending(a),
        ascending(b),
        0 <= k < a.len(),
        k < b.len(),
        forall|i: usize| constrains(a, i) <==> constrains(b, i),
    ensures
        forall|j: int| 0 <= j <= k ==> a[j].0 == b[j].0,
    decreases k,
{
    if k > 0 {
        lemma_same_indices_prefix(a, b, k - 1);
    }
    if a[k].0 < b[k].0 {
        assert(constrains(a, a[k].0));
        let m = choose|m: int| 0 <= m < b.len() && b[m].0 == a[k].0;
        if m < k {
            assert(a[m].0 < a[k].0);
        } else if m > k {
            assert(b[k].0 < b[m].0);
        }
    } else if b[k].0 < a[k].0 {
        assert(constrains(b, b[k].0));
        let m = choose|m: int| 0 <= m < a.len() && a[m].0 == b[k].0;
        if m < k {
            assert(b[m].0 < b[k].0);
        } else if m > k {
            assert(a[k].0 < a[m].0);
        }
    }
}

/// For cubes in ascending order, constraining the same indices position by position is
/// the same as constraining the same set of variables; so `adjacent` is the hypercube
/// adjacency of the cubes as sets of literals.
pub proof fn lemma_same_positions_iff_same_indices(a: Seq<Variable>, b: Seq<Variable>)
    requires
        ascending(a),
        ascending(b),
    ensures
        same_positions(a, b) <==> (forall|i: usize| constrains(a, i) <==> constrains(b, i)),
{
    if same_positions(a, b) {
        assert forall|i: usize| constrains(a, i) <==> constrains(b, i) by {
            if constrains(a, i) {
                let k = choose|k: int| 0 <= k < a.len() && a[k].0 == i;
                assert(b[k].0 == i);
            }
            if constrains(b, i) {
                let k = choose|k: int| 0 <= k < b.len() && b[k].0 == i;
                assert(a[k].0 == i);
            }
        }
    }
    if forall|i: usize| constrains(a, i) <==> constrains(b, i) {
        let n: int = if a.len() < b.len() { a.len() as int } else { b.len() as int };
        if n > 0 {
            lemma_same_indices_prefix(a, b, n - 1);
        }
        if a.len() < b.len() {
            let last = b[n].0;
            assert(constrains(b, last));
            let m = choose|m: int| 0 <= m < a.len() && a[m].0 == last;
            assert(b[m].0 < b[n].0);
        } else if b.len() < a.len() {
            let last = a[n].0;
            assert(constrains(a, last));
            let m = choose|m: int| 0 <= m < b.len() && b[m].0 == last;
            assert(a[m].0 < a[n].0);
        }
    }
}

} // verus!
