//! Sums of terms as boolean functions, subsumption between cubes, and prime-implicant
//! generation by level-synchronized merging.

use vstd::prelude::*;

use crate::term::{
    adjacent, covers, lemma_merged_len, lemma_mergeable_symmetric, merged, within, Term, Variable,
};

verus! {

/// The sum of the terms is true on row `x`: some term covers it.
pub open spec fn eval(ts: Seq<Term>, x: Seq<bool>) -> bool {
    exists|p: int| 0 <= p < ts.len() && covers(#[trigger] ts[p]@, x)
}

/// Every term constrains only indices below `n`.
pub open spec fn spans(ts: Seq<Term>, n: nat) -> bool {
    forall|p: int| 0 <= p < ts.len() ==> within(#[trigger] ts[p]@, n)
}

/// Cube `t` constrains variable `v`.
pub open spec fn has_variable(t: Seq<Variable>, v: Variable) -> bool {
    exists|m: int| 0 <= m < t.len() && t[m] == v
}

/// Every variable of `c` is also a variable of `t`, so `c` is true wherever `t` is.
pub open spec fn subsumes(c: Seq<Variable>, t: Seq<Variable>) -> bool {
    forall|k: int| 0 <= k < c.len() ==> has_variable(t, #[trigger] c[k])
}

/// Cube `c` is an implicant of the sum `ts`: on every row wide enough for `ts`,
/// `c` is true only where the sum is.
pub open spec fn implied(c: Seq<Variable>, ts: Seq<Term>) -> bool {
    forall|x: Seq<bool>| spans(ts, x.len()) && #[trigger] covers(c, x) ==> eval(ts, x)
}

/// Every index that `c` constrains is constrained by some term of `ts`.
pub open spec fn indices_among(c: Seq<Variable>, ts: Seq<Term>) -> bool {
    forall|k: int| 0 <= k < c.len() ==> has_index(ts, #[trigger] c[k])
}

/// Some term of `ts` constrains the index of `v`.
pub open spec fn has_index(ts: Seq<Term>, v: Variable) -> bool {
    exists|p: int, m: int| 0 <= p < ts.len() && 0 <= m < ts[p]@.len() && ts[p]@[m].0 == v.0
}

/// Some term of `ts` subsumes `t`.
pub open spec fn subsumed_by_some(ts: Seq<Term>, t: Seq<Variable>) -> bool {
    exists|p: int| 0 <= p < ts.len() && subsumes(#[trigger] ts[p]@, t)
}

/// A cube that subsumes another is true wherever the other is.
pub proof fn lemma_subsumes_covers(c: Seq<Variable>, t: Seq<Variable>, x: Seq<bool>)
    requires
        subsumes(c, t),
        covers(t, x),
    ensures
        covers(c, x),
{
    assert forall|k: int| 0 <= k < c.len() implies (c[k].0 as int) < x.len() && x[c[k].0 as int]
        == c[k].1 by {
        assert(has_variable(t, c[k]));
        let m = choose|m: int| 0 <= m < t.len() && t[m] == c[k];
        assert(t[m] == c[k]);
    }
}

/// Every cube subsumes itself.
pub proof fn lemma_subsumes_refl(c: Seq<Variable>)
    ensures
        subsumes(c, c),
{
    assert forall|k: int| 0 <= k < c.len() implies has_variable(c, #[trigger] c[k]) by {
        assert(c[k] == c[k]);
    }
}

/// Subsumption is transitive.
pub proof fn lemma_subsumes_trans(a: Seq<Variable>, b: Seq<Variable>, c: Seq<Variable>)
    requires
        subsumes(a, b),
        subsumes(b, c),
    ensures
        subsumes(a, c),
{
    assert forall|k: int| 0 <= k < a.len() implies has_variable(c, #[trigger] a[k]) by {
        assert(has_variable(b, a[k]));
        let mb = choose|m: int| 0 <= m < b.len() && b[m] == a[k];
        assert(has_variable(c, b[mb]));
        let mc = choose|m: int| 0 <= m < c.len() && c[m] == b[mb];
        assert(c[mc] == a[k]);
    }
}

/// A merged cube keeps only variables that both operands have.
pub proof fn lemma_merged_subsumes(a: Seq<Variable>, b: Seq<Variable>)
    requires
        adjacent(a, b),
    ensures
        subsumes(merged(a, b), a),
        subsumes(merged(a, b), b),
{
    let d = crate::term::diff_position(a, b);
    let m = merged(a, b);
    assert forall|k: int| 0 <= k < m.len() implies has_variable(a, #[trigger] m[k]) by {
        if k < d {
            assert(a[k] == m[k]);
        } else {
            assert(a[k + 1] == m[k]);
        }
    }
    assert forall|k: int| 0 <= k < m.len() implies has_variable(b, #[trigger] m[k]) by {
        if k < d {
            assert(b[k] == m[k]);
        } else {
            assert(b[k + 1] == m[k]);
        }
    }
}

/// Each input term is an implicant of the sum it belongs to.
pub proof fn lemma_member_implied(ts: Seq<Term>, j: int)
    requires
        0 <= j < ts.len(),
    ensures
        implied(ts[j]@, ts),
        indices_among(ts[j]@, ts),
{
    assert forall|x: Seq<bool>| spans(ts, x.len()) && #[trigger] covers(ts[j]@, x) implies eval(ts, x) by {}
    assert forall|k: int| 0 <= k < ts[j]@.len() implies has_index(ts, #[trigger] ts[j]@[k]) by {
        assert(ts[j]@[k].0 == ts[j]@[k].0);
    }
}

/// Merging two implicants gives an implicant.
pub proof fn lemma_merge_implied(a: Seq<Variable>, b: Seq<Variable>, ts: Seq<Term>)
    requires
        adjacent(a, b),
        implied(a, ts),
        implied(b, ts),
        indices_among(a, ts),
    ensures
        implied(merged(a, b), ts),
        indices_among(merged(a, b), ts),
{
    let m = merged(a, b);
    let d = crate::term::diff_position(a, b);
    assert forall|x: Seq<bool>| spans(ts, x.len()) && #[trigger] covers(m, x) implies eval(ts, x) by {
        assert forall|k: int| 0 <= k < a.len() implies (a[k].0 as nat) < x.len() by {
            assert(has_index(ts, a[k]));
            let (p, i) = choose|p: int, i: int|
                0 <= p < ts.len() && 0 <= i < ts[p]@.len() && ts[p]@[i].0 == a[k].0;
            assert(within(ts[p]@, x.len()));
        }
        crate::term::lemma_merge_covers(a, b, x);
    }
    assert forall|k: int| 0 <= k < m.len() implies has_index(ts, #[trigger] m[k]) by {
        if k < d {
            assert(m[k] == a[k]);
            assert(has_index(ts, a[k]));
        } else {
            assert(m[k] == a[k + 1]);
            assert(has_index(ts, a[k + 1]));
        }
    }
}

/// All terms have the same number of variables.
pub open spec fn uniform(ts: Seq<Term>) -> bool {
    forall|p: int, q: int|
        0 <= p < ts.len() && 0 <= q < ts.len() ==> (#[trigger] ts[p])@.len() == (#[trigger] ts[q])@.len()
}

/// No two cubes of the sequence can be merged: each is prime among them.
pub open spec fn unmergeable(ts: Seq<Term>) -> bool {
    forall|p: int, q: int|
        0 <= p < ts.len() && 0 <= q < ts.len() ==> !adjacent(#[trigger] ts[p]@, #[trigger] ts[q]@)
}

/// Every adjacent pair `a < b` of the level scanned so far (rows before `p`, then row
/// `p` up to column `q`) is marked absorbed.
pub open spec fn pairs_marked(level: Seq<Term>, absorbed: Seq<bool>, p: int, q: int) -> bool {
    forall|a: int, b: int|
        0 <= a < b < level.len() && (a < p || (a == p && b < q)) && adjacent(
            #[trigger] level[a]@,
            #[trigger] level[b]@,
        ) ==> absorbed[a] && absorbed[b]
}

/// Cube `c` is the cube of an unabsorbed member of the level before `p`.
pub open spec fn from_unabsorbed(level: Seq<Term>, absorbed: Seq<bool>, p: int, c: Seq<Variable>) -> bool {
    exists|a: int| 0 <= a < p && !absorbed[a] && level[a]@ == c
}

/// Every term is well formed.
pub open spec fn all_wf(ts: Seq<Term>) -> bool {
    forall|p: int| 0 <= p < ts.len() ==> #[trigger] ts[p].wf()
}

/// A subsuming term stays available when terms are only appended.
pub proof fn lemma_subsumed_grow(short: Seq<Term>, long: Seq<Term>, t: Seq<Variable>)
    requires
        short.len() <= long.len(),
        forall|i: int| 0 <= i < short.len() ==> long[i] == short[i],
        subsumed_by_some(short, t),
    ensures
        subsumed_by_some(long, t),
{
    let p = choose|p: int| 0 <= p < short.len() && subsumes(#[trigger] short[p]@, t);
    assert(long[p] == short[p]);
}

/// Appends `t` unless a term with the same variables is already present.
fn push_unique(v: &mut Vec<Term>, t: Term)
    ensures
        final(v)@ == old(v)@ || final(v)@ == old(v)@.push(t),
        exists|i: int| 0 <= i < final(v)@.len() && final(v)@[i]@ == t@,
{
    let mut i: usize = 0;
    while i < v.len()
        invariant
            i <= v@.len(),
            v@ == old(v)@,
        decreases v.len() - i,
    {
        if v[i].same(&t) {
            return;
        }
        i = i + 1;
    }
    v.push(t);
    assert(v@[v@.len() - 1] == t);
}

/// The prime implicants of a sum of terms, by level-synchronized merging.
///
/// Level 0 holds the terms without repeats. Every adjacent pair of a level is merged
/// into the next level (again without repeats), and both members are marked absorbed.
/// Levels are built until one is empty; the cubes never absorbed are the result, in
/// the order of their levels.
///
/// Every result cube is an implicant of the sum, and every term is subsumed by some
/// result cube, so the result sums to the same function. When the terms all have the
/// same number of variables, no two result cubes can be merged.
#[verifier::loop_isolation(false)]
pub fn prime_implicants(terms: &Vec<Term>) -> (r: Vec<Term>)
    ensures
        forall|p: int|
            0 <= p < r@.len() ==> implied(#[trigger] r@[p]@, terms@) && indices_among(r@[p]@, terms@),
        forall|j: int| 0 <= j < terms@.len() ==> subsumed_by_some(r@, #[trigger] terms@[j]@),
        all_wf(terms@) ==> all_wf(r@),
        uniform(terms@) ==> unmergeable(r@),
{
    let ghost mut lvl: int = if terms@.len() > 0 {
        terms@[0]@.len() as int
    } else {
        0
    };
    let mut level: Vec<Term> = Vec::new();
    let mut longest: usize = 0;
    let mut j: usize = 0;
    while j < terms.len()
        invariant
            j <= terms@.len(),
            forall|p: int|
                0 <= p < level@.len() ==> implied(#[trigger] level@[p]@, terms@) && indices_among(
                    level@[p]@,
                    terms@,
                ) && level@[p]@.len() <= longest,
            forall|i: int| 0 <= i < j ==> subsumed_by_some(level@, #[trigger] terms@[i]@),
            all_wf(terms@) ==> all_wf(level@),
            uniform(terms@) ==> forall|p: int| 0 <= p < level@.len() ==> (#[trigger] level@[p])@.len() == lvl,
        decreases terms.len() - j,
    {
        let t = terms[j].copy();
        proof {
            lemma_member_implied(terms@, j as int);
            lemma_subsumes_refl(t@);
        }
        if t.len() > longest {
            longest = t.len();
        }
        let ghost before = level@;
        let ghost tv = t;
        push_unique(&mut level, t);
        proof {
            if all_wf(terms@) {
                assert(terms@[j as int].wf());
                assert(tv.wf());
                assert forall|p: int| 0 <= p < level@.len() implies #[trigger] level@[p].wf() by {
                    if level@ != before {
                        assert(level@ == before.push(tv));
                        if p < before.len() {
                            assert(before[p].wf());
                        }
                    } else {
                        assert(before[p].wf());
                    }
                }
            }
            if uniform(terms@) {
                assert(terms@[j as int]@.len() == terms@[0]@.len());
                assert forall|p: int| 0 <= p < level@.len() implies (#[trigger] level@[p])@.len() == lvl by {
                    if level@ != before {
                        assert(level@ == before.push(tv));
                        if p < before.len() {
                            assert(before[p]@.len() == lvl);
                        }
                    } else {
                        assert(before[p]@.len() == lvl);
                    }
                }
            }
            assert forall|i: int| 0 <= i <= j implies subsumed_by_some(level@, #[trigger] terms@[i]@) by {
                if i < j {
                    lemma_subsumed_grow(before, level@, terms@[i]@);
                } else {
                    let s = choose|s: int| 0 <= s < level@.len() && level@[s]@ == t@;
                    assert(subsumes(level@[s]@, terms@[i]@));
                }
            }
        }
        j = j + 1;
    }
    let ghost mut bound: nat = longest as nat + 1;
    let mut primes: Vec<Term> = Vec::new();
    while level.len() > 0
        invariant
            forall|p: int|
                0 <= p < level@.len() ==> implied(#[trigger] level@[p]@, terms@) && indices_among(
                    level@[p]@,
                    terms@,
                ) && level@[p]@.len() < bound,
            forall|p: int|
                0 <= p < primes@.len() ==> implied(#[trigger] primes@[p]@, terms@) && indices_among(
                    primes@[p]@,
                    terms@,
                ),
            forall|i: int|
                0 <= i < terms@.len() ==> subsumed_by_some(primes@, #[trigger] terms@[i]@)
                    || subsumed_by_some(level@, terms@[i]@),
            all_wf(terms@) ==> all_wf(level@) && all_wf(primes@),
            uniform(terms@) ==> (forall|p: int| 0 <= p < level@.len() ==> (#[trigger] level@[p])@.len() == lvl)
                && (forall|p: int| 0 <= p < primes@.len() ==> (#[trigger] primes@[p])@.len() > lvl)
                && unmergeable(primes@),
        decreases bound,
    {
        let n = level.len();
        assert(level@[0]@.len() < bound);
        let mut absorbed: Vec<bool> = Vec::new();
        let mut i: usize = 0;
        while i < n
            invariant
                i <= n,
                absorbed@.len() == i,
                forall|k: int| 0 <= k < i ==> !absorbed@[k],
            decreases n - i,
        {
            absorbed.push(false);
            i = i + 1;
        }
        let mut next: Vec<Term> = Vec::new();
        let mut p: usize = 0;
        while p < n
            invariant
                p <= n,
                absorbed@.len() == n,
                forall|s: int|
                    0 <= s < next@.len() ==> implied(#[trigger] next@[s]@, terms@) && indices_among(
                        next@[s]@,
                        terms@,
                    ) && next@[s]@.len() + 1 < bound,
                forall|k: int| 0 <= k < n && absorbed@[k] ==> subsumed_by_some(next@, #[trigger] level@[k]@),
                all_wf(terms@) ==> all_wf(next@),
                uniform(terms@) ==> forall|s: int| 0 <= s < next@.len() ==> (#[trigger] next@[s])@.len() + 1 == lvl,
                pairs_marked(level@, absorbed@, p as int, 0),
            decreases n - p,
        {
            let mut q: usize = p + 1;
            while q < n
                invariant
                    p < n,
                    p + 1 <= q <= n,
                    absorbed@.len() == n,
                    forall|s: int|
                        0 <= s < next@.len() ==> implied(#[trigger] next@[s]@, terms@) && indices_among(
                            next@[s]@,
                            terms@,
                        ) && next@[s]@.len() + 1 < bound,
                    forall|k: int| 0 <= k < n && absorbed@[k] ==> subsumed_by_some(next@, #[trigger] level@[k]@),
                    all_wf(terms@) ==> all_wf(next@),
                    uniform(terms@) ==> forall|s: int| 0 <= s < next@.len() ==> (#[trigger] next@[s])@.len() + 1 == lvl,
                    pairs_marked(level@, absorbed@, p as int, q as int),
                decreases n - q,
            {
                if level[p].mergeable(&level[q]) {
                    let m = level[p].merge(&level[q]);
                    proof {
                        lemma_merge_implied(level@[p as int]@, level@[q as int]@, terms@);
                        lemma_merged_subsumes(level@[p as int]@, level@[q as int]@);
                    }
                    let ghost before = next@;
                    let ghost mv = m;
                    let ghost ab = absorbed@;
                    push_unique(&mut next, m);
                    absorbed[p] = true;
                    absorbed[q] = true;
                    proof {
                        if uniform(terms@) {
                            lemma_merged_len(level@[p as int]@, level@[q as int]@);
                            assert(level@[p as int]@.len() == lvl);
                            assert forall|s: int| 0 <= s < next@.len() implies (#[trigger] next@[s])@.len() + 1 == lvl by {
                                if next@ != before {
                                    assert(next@ == before.push(mv));
                                    if s < before.len() {
                                        assert(before[s]@.len() + 1 == lvl);
                                    }
                                } else {
                                    assert(before[s]@.len() + 1 == lvl);
                                }
                            }
                        }
                        assert forall|a: int, b: int|
                            0 <= a < b < level@.len() && (a < p || (a == p && b < q + 1)) && adjacent(
                                #[trigger] level@[a]@,
                                #[trigger] level@[b]@,
                            ) implies absorbed@[a] && absorbed@[b] by {
                            if !(a == p && b == q) {
                                assert(ab[a] && ab[b]);
                            }
                        }
                        let mv = mv@;
                        let s = choose|s: int| 0 <= s < next@.len() && next@[s]@ == mv;
                        assert forall|k: int| 0 <= k < n && absorbed@[k] implies subsumed_by_some(
                            next@,
                            #[trigger] level@[k]@,
                        ) by {
                            if k == p || k == q {
                                assert(subsumes(next@[s]@, level@[k]@));
                            } else {
                                lemma_subsumed_grow(before, next@, level@[k]@);
                            }
                        }
                    }
                } else {
                    assert(pairs_marked(level@, absorbed@, p as int, q + 1));
                }
                q = q + 1;
            }
            assert(pairs_marked(level@, absorbed@, p + 1, 0));
            p = p + 1;
        }
        let ghost old_primes = primes@;
        assert(uniform(terms@) ==> forall|s: int| 0 <= s < old_primes.len() ==> (#[trigger] old_primes[s])@.len() > lvl);
        let mut p: usize = 0;
        while p < n
            invariant
                p <= n,
                old_primes.len() <= primes@.len(),
                forall|i: int| 0 <= i < old_primes.len() ==> primes@[i] == old_primes[i],
                forall|s: int|
                    0 <= s < primes@.len() ==> implied(#[trigger] primes@[s]@, terms@) && indices_among(
                        primes@[s]@,
                        terms@,
                    ),
                forall|k: int| 0 <= k < p && !absorbed@[k] ==> subsumed_by_some(primes@, #[trigger] level@[k]@),
                all_wf(terms@) ==> all_wf(primes@),
                uniform(terms@) ==> (forall|s: int|
                    old_primes.len() <= s < primes@.len() ==> from_unabsorbed(
                        level@,
                        absorbed@,
                        p as int,
                        #[trigger] primes@[s]@,
                    ) && primes@[s]@.len() == lvl) && unmergeable(primes@),
            decreases n - p,
        {
            if !absorbed[p] {
                let c = level[p].copy();
                proof {
                    lemma_subsumes_refl(c@);
                }
                let ghost before = primes@;
                let ghost cv = c;
                primes.push(c);
                proof {
                    if all_wf(terms@) {
                        assert(level@[p as int].wf());
                        assert(cv.wf());
                        assert forall|i: int| 0 <= i < primes@.len() implies #[trigger] primes@[i].wf() by {
                            if i < before.len() {
                                assert(before[i].wf());
                            }
                        }
                    }
                    assert(subsumes(primes@[primes@.len() - 1]@, level@[p as int]@));
                    if uniform(terms@) {
                        let last = before.len() as int;
                        assert(primes@[last]@ == level@[p as int]@);
                        assert forall|s: int| old_primes.len() <= s < primes@.len() implies from_unabsorbed(
                            level@,
                            absorbed@,
                            p + 1,
                            #[trigger] primes@[s]@,
                        ) && primes@[s]@.len() == lvl by {
                            if s < last {
                                assert(from_unabsorbed(level@, absorbed@, p as int, before[s]@));
                                let a = choose|a: int| 0 <= a < p && !absorbed@[a] && level@[a]@ == before[s]@;
                                assert(level@[a]@ == primes@[s]@);
                            } else {
                                assert(level@[p as int]@ == primes@[s]@);
                            }
                        }
                        assert forall|x: int, y: int| 0 <= x < primes@.len() && 0 <= y < primes@.len() implies !adjacent(
                            #[trigger] primes@[x]@,
                            #[trigger] primes@[y]@,
                        ) by {
                            if x < last && y < last {
                                assert(!adjacent(before[x]@, before[y]@));
                            } else if x == last && y == last {
                                if adjacent(primes@[x]@, primes@[y]@) {
                                    let k = choose|k: int| crate::term::differs_only_at(primes@[x]@, primes@[y]@, k);
                                }
                            } else {
                                let o = if x == last { y } else { x };
                                if o < old_primes.len() {
                                    assert(primes@[o] == old_primes[o]);
                                    assert(primes@[o]@.len() > lvl);
                                } else {
                                    assert(from_unabsorbed(level@, absorbed@, p as int, before[o]@));
                                    let a = choose|a: int| 0 <= a < p && !absorbed@[a] && level@[a]@ == before[o]@;
                                    lemma_mergeable_symmetric(level@[a]@, level@[p as int]@);
                                    if adjacent(level@[a]@, level@[p as int]@) {
                                        assert(pairs_marked(level@, absorbed@, n as int, 0));
                                        assert(absorbed@[a]);
                                    }
                                    assert(primes@[o]@ == level@[a]@);
                                }
                            }
                        }
                        assert(unmergeable(primes@));
                    }
                    assert forall|k: int| 0 <= k <= p && !absorbed@[k] implies subsumed_by_some(
                        primes@,
                        #[trigger] level@[k]@,
                    ) by {
                        if k < p {
                            lemma_subsumed_grow(before, primes@, level@[k]@);
                        }
                    }
                }
            } else {
                proof {
                    if uniform(terms@) {
                        assert forall|s: int| old_primes.len() <= s < primes@.len() implies from_unabsorbed(
                            level@,
                            absorbed@,
                            p + 1,
                            #[trigger] primes@[s]@,
                        ) && primes@[s]@.len() == lvl by {
                            assert(from_unabsorbed(level@, absorbed@, p as int, primes@[s]@));
                            let a = choose|a: int| 0 <= a < p && !absorbed@[a] && level@[a]@ == primes@[s]@;
                        }
                    }
                }
            }
            p = p + 1;
        }
        proof {
            if uniform(terms@) {
                assert forall|s: int| 0 <= s < primes@.len() implies (#[trigger] primes@[s])@.len() > lvl - 1 by {
                    if s < old_primes.len() {
                        assert(primes@[s] == old_primes[s]);
                    }
                }
            }
            assert forall|i: int| 0 <= i < terms@.len() implies subsumed_by_some(
                primes@,
                #[trigger] terms@[i]@,
            ) || subsumed_by_some(next@, terms@[i]@) by {
                if subsumed_by_some(old_primes, terms@[i]@) {
                    lemma_subsumed_grow(old_primes, primes@, terms@[i]@);
                } else {
                    let k = choose|k: int| 0 <= k < level@.len() && subsumes(#[trigger] level@[k]@, terms@[i]@);
                    if absorbed@[k] {
                        assert(subsumed_by_some(next@, level@[k]@));
                        let s = choose|s: int| 0 <= s < next@.len() && subsumes(#[trigger] next@[s]@, level@[k]@);
                        lemma_subsumes_trans(next@[s]@, level@[k]@, terms@[i]@);
                    } else {
                        assert(subsumed_by_some(primes@, level@[k]@));
                        let s = choose|s: int| 0 <= s < primes@.len() && subsumes(#[trigger] primes@[s]@, level@[k]@);
                        lemma_subsumes_trans(primes@[s]@, level@[k]@, terms@[i]@);
                    }
                }
            }
            bound = (bound - 1) as nat;
            lvl = lvl - 1;
        }
        level = next;
    }
    primes
}

} // verus!
