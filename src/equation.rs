//! One sum of products per output: minterm extraction, minimization, and rendering.

use vstd::prelude::*;

use crate::cover::{irredundant, is_candidate, own_term, select_cover};
use crate::implicant::{
    all_wf, eval, has_index, has_variable, implied, indices_among, lemma_subsumes_covers,
    prime_implicants, spans, subsumed_by_some, subsumes, uniform, unmergeable,
};
use crate::table::{bools_of, valid_table, Entry, StructuralError, Truth, rows_shaped, rows_distinct};
use crate::bit::Bit;
use crate::term::{covers, minterm_of, specified, term_text, texts, within, Term, Variable};
use vstd::string::StringExecFns;

verus! {

/// The cubes of a sequence of terms.
pub open spec fn views(ts: Seq<Term>) -> Seq<Seq<Variable>> {
    ts.map_values(|t: Term| t@)
}

/// The minterms of output `o`: one per row whose output `o` is set, in row order.
pub open spec fn minterm_rows(t: Seq<Entry>, o: int) -> Seq<Seq<Variable>>
    decreases t.len(),
{
    if t.len() == 0 {
        Seq::empty()
    } else {
        let rest = minterm_rows(t.drop_last(), o);
        if t.last().output@[o] {
            rest.push(minterm_of(t.last().input@))
        } else {
            rest
        }
    }
}

/// Cube `c` is the minterm of a row whose output `o` is set.
pub open spec fn from_row(t: Seq<Entry>, o: int, c: Seq<Variable>) -> bool {
    exists|r: int| 0 <= r < t.len() && t[r].output@[o] && c == minterm_of(t[r].input@)
}

/// Cube `c` is one of `cs`.
pub open spec fn listed(cs: Seq<Seq<Variable>>, c: Seq<Variable>) -> bool {
    exists|p: int| 0 <= p < cs.len() && cs[p] == c
}

/// Each minterm of output `o` is the minterm of a row whose output `o` is set, and each
/// such row has its minterm there.
pub proof fn lemma_minterm_rows(t: Seq<Entry>, o: int)
    ensures
        forall|p: int| 0 <= p < minterm_rows(t, o).len() ==> from_row(t, o, #[trigger] minterm_rows(t, o)[p]),
        forall|r: int|
            0 <= r < t.len() && #[trigger] t[r].output@[o] ==> listed(minterm_rows(t, o), minterm_of(t[r].input@)),
    decreases t.len(),
{
    if t.len() > 0 {
        let s = t.drop_last();
        lemma_minterm_rows(s, o);
        let ms = minterm_rows(t, o);
        let rest = minterm_rows(s, o);
        assert forall|p: int| 0 <= p < ms.len() implies from_row(t, o, #[trigger] ms[p]) by {
            if p < rest.len() {
                assert(ms[p] == rest[p]);
                assert(from_row(s, o, rest[p]));
                let r = choose|r: int| 0 <= r < s.len() && s[r].output@[o] && rest[p] == minterm_of(s[r].input@);
                assert(t[r] == s[r]);
            } else {
                let r = t.len() - 1;
                assert(t[r] == t.last());
                assert(t[r].output@[o] && ms[p] == minterm_of(t[r].input@));
            }
        }
        assert forall|r: int| 0 <= r < t.len() && #[trigger] t[r].output@[o] implies listed(ms, minterm_of(t[r].input@)) by {
            if r < s.len() {
                assert(s[r] == t[r]);
                assert(s[r].output@[o]);
                assert(listed(rest, minterm_of(s[r].input@)));
                let p = choose|p: int| 0 <= p < rest.len() && rest[p] == minterm_of(s[r].input@);
                assert(ms[p] == rest[p]);
            } else {
                assert(ms[ms.len() - 1] == minterm_of(t[r].input@));
            }
        }
    }
}

/// On a fully specified row, a cube within the row's width is true exactly when it
/// subsumes the row's minterm.
pub proof fn lemma_covers_minterm(c: Seq<Variable>, row: Seq<Bit>)
    requires
        specified(row),
        row.len() <= usize::MAX,
        within(c, row.len()),
    ensures
        covers(c, bools_of(row)) == subsumes(c, minterm_of(row)),
{
    let x = bools_of(row);
    let mt = minterm_of(row);
    assert forall|k: int| 0 <= k < mt.len() implies (mt[k].0 as int) < x.len() && x[mt[k].0 as int] == mt[k].1 by {
        assert(mt[k].0 as int == k);
    }
    if covers(c, x) {
        assert forall|k: int| 0 <= k < c.len() implies has_variable(mt, #[trigger] c[k]) by {
            let i = c[k].0 as int;
            assert(mt[i] == c[k]);
        }
    }
    if subsumes(c, mt) {
        lemma_subsumes_covers(c, mt, x);
    }
}

/// Terms written one after another, each followed by ` + `.
pub open spec fn sum_text(ts: Seq<Term>, names: Seq<Seq<char>>) -> Seq<char>
    decreases ts.len(),
{
    if ts.len() == 0 {
        Seq::empty()
    } else {
        sum_text(ts.drop_last(), names) + term_text(ts.last()@, names) + seq![' ', '+', ' ']
    }
}

/// The sum of products for one output of a truth table.
#[derive(Debug)]
pub struct Equation {
    pub index: usize,
    pub terms: Vec<Term>,
    pub varname: String,
}

impl Equation {
    /// The equation of output `idx`: the minterm of every row whose output `idx` is set.
    pub fn new(tbl: &Truth, idx: usize, vn: &str) -> (r: Equation)
        requires
            forall|i: int|
                0 <= i < tbl.table@.len() ==> idx < (#[trigger] tbl.table@[i]).output@.len()
                    && specified(tbl.table@[i].input@),
        ensures
            r.index == idx,
            r.varname@ == vn@,
            views(r.terms@) == minterm_rows(tbl.table@, idx as int),
            all_wf(r.terms@),
    {
        let mut rv: Vec<Term> = Vec::new();
        let mut i: usize = 0;
        while i < tbl.table.len()
            invariant
                i <= tbl.table@.len(),
                forall|k: int|
                    0 <= k < tbl.table@.len() ==> idx < (#[trigger] tbl.table@[k]).output@.len()
                        && specified(tbl.table@[k].input@),
                views(rv@) == minterm_rows(tbl.table@.take(i as int), idx as int),
                all_wf(rv@),
            decreases tbl.table@.len() - i,
        {
            assert(tbl.table@.take(i + 1).drop_last() =~= tbl.table@.take(i as int));
            assert(tbl.table@.take(i + 1).last() == tbl.table@[i as int]);
            if tbl.table[i].output[idx] {
                let t = Term::compute(&tbl.table[i].input);
                let ghost before = rv@;
                rv.push(t);
                assert(views(rv@) =~= views(before).push(t@));
            }
            i = i + 1;
        }
        assert(tbl.table@.take(tbl.table@.len() as int) =~= tbl.table@);
        Equation { index: idx, terms: rv, varname: vn.to_owned() }
    }

    /// The equation written as `name = term + term + ;`, with `names[i]` for input
    /// variable `i`, or `None` when a variable has no name.
    pub fn render(&self, names: &Vec<String>) -> (r: Option<String>)
        ensures
            r is Some <==> spans(self.terms@, names@.len()),
            r matches Some(s) ==> s@ == self.varname@ + seq![' ', '=', ' '] + sum_text(
                self.terms@,
                texts(names@),
            ) + seq![';'],
    {
        let mut s = self.varname.clone();
        proof {
            reveal_strlit(" = ");
            reveal_strlit(";");
        }
        s.append(" = ");
        assert(" = "@ =~= seq![' ', '=', ' ']);
        assert(self.terms@.take(0) =~= Seq::<Term>::empty());
        let mut k: usize = 0;
        while k < self.terms.len()
            invariant
                k <= self.terms@.len(),
                spans(self.terms@.take(k as int), names@.len()),
                s@ == self.varname@ + seq![' ', '=', ' '] + sum_text(self.terms@.take(k as int), texts(names@)),
            decreases self.terms@.len() - k,
        {
            match self.terms[k].render(names) {
                None => {
                    assert(!spans(self.terms@, names@.len()));
                    return None;
                },
                Some(t) => {
                    let ghost before = s@;
                    s.append(t.as_str());
                    s.append(" + ");
                    proof {
                        reveal_strlit(" + ");
                    }
                    assert(" + "@ =~= seq![' ', '+', ' ']);
                    let ghost tk = self.terms@.take(k + 1);
                    assert(tk.drop_last() =~= self.terms@.take(k as int));
                    assert(tk.last() == self.terms@[k as int]);
                    assert(sum_text(tk, texts(names@)) == sum_text(self.terms@.take(k as int), texts(names@))
                        + term_text(self.terms@[k as int]@, texts(names@)) + seq![' ', '+', ' ']);
                    assert(s@ =~= before + t@ + seq![' ', '+', ' ']);
                },
            }
            assert(self.terms@.take(k + 1).drop_last() =~= self.terms@.take(k as int));
            k = k + 1;
            assert(s@ =~= self.varname@ + seq![' ', '=', ' '] + sum_text(self.terms@.take(k as int), texts(names@)));
        }
        assert(self.terms@.take(self.terms@.len() as int) =~= self.terms@);
        s.append(";");
        assert(";"@ =~= seq![';']);
        Some(s)
    }

    /// Replaces the terms by a minimal sum of prime implicants of the same function:
    /// the prime implicants come from level-synchronized merging, the cover from
    /// essential implicants, then greedy choice, then removal of redundant terms.
    ///
    /// On every row wide enough for the old terms the new sum has the same value, and
    /// each new term subsumes an old term that no other new term subsumes.
    pub fn simplify(&mut self)
        ensures
            final(self).index == old(self).index,
            final(self).varname == old(self).varname,
            forall|x: Seq<bool>|
                spans(old(self).terms@, x.len()) ==> (#[trigger] eval(final(self).terms@, x) == eval(
                    old(self).terms@,
                    x,
                )),
            forall|n: nat| #[trigger] spans(old(self).terms@, n) ==> spans(final(self).terms@, n),
            irredundant(final(self).terms@, old(self).terms@),
            all_wf(old(self).terms@) ==> all_wf(final(self).terms@),
            uniform(old(self).terms@) ==> unmergeable(final(self).terms@),
    {
        let pis = prime_implicants(&self.terms);
        let cover = select_cover(&pis, &self.terms);
        let ghost before = self.terms@;
        proof {
            assert forall|x: Seq<bool>| spans(before, x.len()) implies (#[trigger] eval(cover@, x) == eval(before, x)) by {
                if eval(cover@, x) {
                    let p = choose|p: int| 0 <= p < cover@.len() && covers(#[trigger] cover@[p]@, x);
                    assert(is_candidate(pis@, cover@[p]@));
                    let i = choose|i: int| 0 <= i < pis@.len() && pis@[i]@ == cover@[p]@;
                    assert(implied(pis@[i]@, before));
                }
                if eval(before, x) {
                    let j = choose|j: int| 0 <= j < before.len() && covers(#[trigger] before[j]@, x);
                    assert(subsumed_by_some(cover@, before[j]@));
                    let p = choose|p: int| 0 <= p < cover@.len() && subsumes(#[trigger] cover@[p]@, before[j]@);
                    lemma_subsumes_covers(cover@[p]@, before[j]@, x);
                }
            }
            if uniform(before) {
                assert forall|p: int, q: int| 0 <= p < cover@.len() && 0 <= q < cover@.len() implies !crate::term::adjacent(
                    #[trigger] cover@[p]@,
                    #[trigger] cover@[q]@,
                ) by {
                    assert(is_candidate(pis@, cover@[p]@));
                    assert(is_candidate(pis@, cover@[q]@));
                    let i = choose|i: int| 0 <= i < pis@.len() && pis@[i]@ == cover@[p]@;
                    let j = choose|j: int| 0 <= j < pis@.len() && pis@[j]@ == cover@[q]@;
                    assert(!crate::term::adjacent(pis@[i]@, pis@[j]@));
                }
            }
            assert forall|n: nat| #[trigger] spans(before, n) implies spans(cover@, n) by {
                assert forall|p: int| 0 <= p < cover@.len() implies within(#[trigger] cover@[p]@, n) by {
                    assert(is_candidate(pis@, cover@[p]@));
                    let i = choose|i: int| 0 <= i < pis@.len() && pis@[i]@ == cover@[p]@;
                    assert(indices_among(pis@[i]@, before));
                    assert forall|k: int| 0 <= k < cover@[p]@.len() implies (cover@[p]@[k].0 as nat) < n by {
                        assert(has_index(before, #[trigger] pis@[i]@[k]));
                        let (a, m) = choose|a: int, m: int|
                            0 <= a < before.len() && 0 <= m < before[a]@.len() && before[a]@[m].0 == pis@[i]@[k].0;
                        assert(within(before[a]@, n));
                    }
                }
            }
        }
        self.terms = cover;
    }
}

/// A row's minterm is true on that row.
pub proof fn lemma_minterm_covers_own(row: Seq<Bit>)
    requires
        row.len() <= usize::MAX,
    ensures
        covers(minterm_of(row), bools_of(row)),
        within(minterm_of(row), row.len()),
{
    let x = bools_of(row);
    let mt = minterm_of(row);
    assert forall|k: int| 0 <= k < mt.len() implies (mt[k].0 as int) < x.len() && x[mt[k].0 as int] == mt[k].1 by {
        assert(mt[k].0 as int == k);
    }
}

/// A row's minterm is true on no other fully specified row of the same width.
pub proof fn lemma_minterm_covers_only(a: Seq<Bit>, b: Seq<Bit>)
    requires
        specified(a),
        specified(b),
        a.len() == b.len(),
        a.len() <= usize::MAX,
        covers(minterm_of(a), bools_of(b)),
    ensures
        a == b,
{
    let mt = minterm_of(a);
    assert forall|k: int| 0 <= k < a.len() implies a[k] == b[k] by {
        assert(mt[k].0 as int == k);
        assert(bools_of(b)[k] == mt[k].1);
    }
    assert(a =~= b);
}

/// The minterm equation of output `o`, replaced by any sum that agrees with it on every
/// row wide enough for it and keeps a term of its own for each new term, is true on
/// exactly the rows whose output `o` is set, and each of its terms is the only one true
/// on some such row.
pub proof fn lemma_minimized_output(t: Seq<Entry>, o: int, before: Seq<Term>, after: Seq<Term>)
    requires
        valid_table(t),
        0 <= o < t[0].output@.len(),
        views(before) == minterm_rows(t, o),
        forall|x: Seq<bool>| spans(before, x.len()) ==> (#[trigger] eval(after, x) == eval(before, x)),
        forall|n: nat| #[trigger] spans(before, n) ==> spans(after, n),
        irredundant(after, before),
        uniform(before) ==> unmergeable(after),
    ensures
        unmergeable(after),
        forall|j: int| 0 <= j < t.len() ==> eval(after, bools_of(#[trigger] t[j].input@)) == t[j].output@[o],
        forall|p: int| 0 <= p < after.len() ==> #[trigger] sole_on_some_row(t, o, after, p),
{
    let w = t[0].input@.len();
    lemma_minterm_rows(t, o);
    assert(rows_shaped(t, t.len() as int));
    assert forall|j: int| 0 <= j < t.len() implies (#[trigger] t[j]).input@.len() <= usize::MAX by {
        assert(t[j].input@.len() == t[j].input.len());
    }
    assert(spans(before, w)) by {
        assert forall|p: int| 0 <= p < before.len() implies within(#[trigger] before[p]@, w) by {
            assert(views(before)[p] == before[p]@);
            assert(from_row(t, o, views(before)[p]));
            let r = choose|r: int| 0 <= r < t.len() && t[r].output@[o] && views(before)[p] == minterm_of(t[r].input@);
            assert(t[r].input@.len() == w);
            lemma_minterm_covers_own(t[r].input@);
        }
    }
    assert(spans(after, w));
    assert forall|p: int, q: int| 0 <= p < before.len() && 0 <= q < before.len() implies (#[trigger] before[p])@.len()
        == (#[trigger] before[q])@.len() by {
        assert(views(before)[p] == before[p]@);
        assert(views(before)[q] == before[q]@);
        assert(from_row(t, o, views(before)[p]));
        assert(from_row(t, o, views(before)[q]));
        let r = choose|r: int| 0 <= r < t.len() && t[r].output@[o] && views(before)[p] == minterm_of(t[r].input@);
        let u = choose|u: int| 0 <= u < t.len() && t[u].output@[o] && views(before)[q] == minterm_of(t[u].input@);
        assert(t[r].input@.len() == w && t[u].input@.len() == w);
    }
    assert forall|j: int| 0 <= j < t.len() implies eval(after, bools_of(#[trigger] t[j].input@)) == t[j].output@[o] by {
        let x = bools_of(t[j].input@);
        assert(x.len() == w);
        assert(eval(after, x) == eval(before, x));
        if t[j].output@[o] {
            assert(listed(minterm_rows(t, o), minterm_of(t[j].input@)));
            let p = choose|p: int| 0 <= p < minterm_rows(t, o).len() && minterm_rows(t, o)[p] == minterm_of(t[j].input@);
            assert(views(before)[p] == before[p]@);
            lemma_minterm_covers_own(t[j].input@);
            assert(covers(before[p]@, x));
        }
        if eval(before, x) {
            let p = choose|p: int| 0 <= p < before.len() && covers(#[trigger] before[p]@, x);
            assert(views(before)[p] == before[p]@);
            assert(from_row(t, o, views(before)[p]));
            let r = choose|r: int| 0 <= r < t.len() && t[r].output@[o] && views(before)[p] == minterm_of(t[r].input@);
            lemma_minterm_covers_only(t[r].input@, t[j].input@);
            if r != j {
                assert(rows_distinct(t, t.len() as int));
                if r < j {
                    assert(t[j].input@ != t[r].input@);
                } else {
                    assert(t[r].input@ != t[j].input@);
                }
            }
        }
    }
    assert forall|p: int| 0 <= p < after.len() implies #[trigger] sole_on_some_row(t, o, after, p) by {
        assert(own_term(after, before, p));
        let jj = choose|jj: int|
            0 <= jj < before.len() && subsumes(after[p]@, #[trigger] before[jj]@) && forall|q: int|
                0 <= q < after.len() && q != p ==> !subsumes(#[trigger] after[q]@, before[jj]@);
        assert(views(before)[jj] == before[jj]@);
        assert(from_row(t, o, views(before)[jj]));
        let r = choose|r: int| 0 <= r < t.len() && t[r].output@[o] && views(before)[jj] == minterm_of(t[r].input@);
        let row = t[r].input@;
        assert(row.len() == w);
        assert(within(after[p]@, w));
        lemma_covers_minterm(after[p]@, row);
        assert forall|q: int| 0 <= q < after.len() && q != p implies !covers(#[trigger] after[q]@, bools_of(row)) by {
            assert(within(after[q]@, w));
            lemma_covers_minterm(after[q]@, row);
        }
    }
}

/// Term `p` is true on some row whose output `o` is set, where no other term is true:
/// dropping it would break the equation on that row.
pub open spec fn sole_on_some_row(t: Seq<Entry>, o: int, ts: Seq<Term>, p: int) -> bool {
    exists|j: int|
        0 <= j < t.len() && t[j].output@[o] && covers(ts[p]@, bools_of(#[trigger] t[j].input@))
            && forall|q: int| 0 <= q < ts.len() && q != p ==> !covers(#[trigger] ts[q]@, bools_of(t[j].input@))
}

/// Checks the table, then that there is one output name per output.
fn check(truth: &Truth, names: usize) -> (r: Result<(), StructuralError>)
    ensures
        r is Ok <==> valid_table(truth.table@) && names == truth.table@[0].output@.len(),
        r == Err::<(), StructuralError>(StructuralError::Names) <==> valid_table(truth.table@) && names
            != truth.table@[0].output@.len(),
{
    match truth.validate() {
        Ok(()) => {
            if truth.table[0].output.len() != names {
                Err(StructuralError::Names)
            } else {
                Ok(())
            }
        },
        Err(e) => Err(e),
    }
}

/// One minterm equation per output of a complete truth table, named by `outvars`.
pub fn equations(truth: &Truth, outvars: Vec<&str>) -> (r: Result<Vec<Equation>, StructuralError>)
    ensures
        r is Ok <==> valid_table(truth.table@) && outvars@.len() == truth.table@[0].output@.len(),
        r == Err::<Vec<Equation>, StructuralError>(StructuralError::Names) <==> valid_table(truth.table@)
            && outvars@.len() != truth.table@[0].output@.len(),
        r matches Ok(eqs) ==> eqs@.len() == outvars@.len() && forall|e: int|
            0 <= e < eqs@.len() ==> (#[trigger] eqs@[e]).index == e && eqs@[e].varname@ == outvars@[e]@
                && views(eqs@[e].terms@) == minterm_rows(truth.table@, e) && all_wf(eqs@[e].terms@),
{
    match check(truth, outvars.len()) {
        Err(e) => {
            return Err(e);
        },
        Ok(()) => {},
    }
    let n = outvars.len();
    let mut rv: Vec<Equation> = Vec::new();
    let mut b: usize = 0;
    while b < n
        invariant
            b <= n,
            n == outvars@.len(),
            valid_table(truth.table@),
            n == truth.table@[0].output@.len(),
            rv@.len() == b,
            forall|e: int|
                0 <= e < b ==> (#[trigger] rv@[e]).index == e && rv@[e].varname@ == outvars@[e]@
                    && views(rv@[e].terms@) == minterm_rows(truth.table@, e) && all_wf(rv@[e].terms@),
        decreases n - b,
    {
        assert(rows_shaped(truth.table@, truth.table@.len() as int));
        rv.push(Equation::new(truth, b, outvars[b]));
        b = b + 1;
    }
    Ok(rv)
}

/// Minimizes every output of a complete truth table.
///
/// Each equation is true on exactly the rows whose output is set, and each of its
/// terms is the only one true on some such row.
pub fn minimize(truth: &Truth, outvars: Vec<&str>) -> (r: Result<Vec<Equation>, StructuralError>)
    ensures
        r is Ok <==> valid_table(truth.table@) && outvars@.len() == truth.table@[0].output@.len(),
        r == Err::<Vec<Equation>, StructuralError>(StructuralError::Names) <==> valid_table(truth.table@)
            && outvars@.len() != truth.table@[0].output@.len(),
        r matches Ok(eqs) ==> eqs@.len() == outvars@.len() && forall|e: int|
            0 <= e < eqs@.len() ==> (#[trigger] eqs@[e]).index == e && eqs@[e].varname@ == outvars@[e]@
                && all_wf(eqs@[e].terms@) && unmergeable(eqs@[e].terms@) && (forall|j: int|
                0 <= j < truth.table@.len() ==> eval(eqs@[e].terms@, bools_of(#[trigger] truth.table@[j].input@))
                    == truth.table@[j].output@[e]) && (forall|p: int|
                0 <= p < eqs@[e].terms@.len() ==> #[trigger] sole_on_some_row(truth.table@, e, eqs@[e].terms@, p)),
{
    let n = outvars.len();
    let ghost names = outvars@;
    let mut eqs = match equations(truth, outvars) {
        Err(e) => {
            return Err(e);
        },
        Ok(eqs) => eqs,
    };
    let mut rv: Vec<Equation> = Vec::new();
    let ghost all = eqs@;
    while eqs.len() > 0
        invariant
            valid_table(truth.table@),
            n == truth.table@[0].output@.len(),
            all.len() == n,
            names.len() == n,
            rv@.len() <= n,
            eqs@ == all.subrange(rv@.len() as int, n as int),
            forall|e: int|
                0 <= e < all.len() ==> (#[trigger] all[e]).index == e && all[e].varname@ == names[e]@
                    && views(all[e].terms@) == minterm_rows(truth.table@, e) && all_wf(all[e].terms@),
            forall|e: int|
                0 <= e < rv@.len() ==> (#[trigger] rv@[e]).index == all[e].index && rv@[e].varname == all[e].varname
                    && all_wf(rv@[e].terms@) && unmergeable(rv@[e].terms@) && (forall|j: int|
                    0 <= j < truth.table@.len() ==> eval(rv@[e].terms@, bools_of(#[trigger] truth.table@[j].input@))
                        == truth.table@[j].output@[e]) && (forall|p: int|
                    0 <= p < rv@[e].terms@.len() ==> #[trigger] sole_on_some_row(truth.table@, e, rv@[e].terms@, p)),
        decreases eqs@.len(),
    {
        let mut eq = eqs.remove(0);
        let ghost k = rv@.len() as int;
        let ghost before = eq.terms@;
        assert(eq == all[k]);
        eq.simplify();
        proof {
            lemma_minimized_output(truth.table@, k, before, eq.terms@);
        }
        rv.push(eq);
        assert(eqs@ =~= all.subrange(rv@.len() as int, n as int));
    }
    Ok(rv)
}

} // verus!
