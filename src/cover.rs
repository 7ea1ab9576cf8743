//! Selection of an irredundant cover of required terms from candidate cubes.

use vstd::prelude::*;

use crate::implicant::{all_wf, has_variable, subsumed_by_some, subsumes};
use crate::term::{Term, Variable};

verus! {

/// True when every variable of `c` is a variable of `t`.
pub fn subsumes_term(c: &Term, t: &Term) -> (r: bool)
    ensures
        r == subsumes(c@, t@),
{
    let mut k: usize = 0;
    while k < c.len()
        invariant
            k <= c@.len(),
            forall|i: int| 0 <= i < k ==> has_variable(t@, #[trigger] c@[i]),
        decreases c@.len() - k,
    {
        let v = c.variable(k);
        let mut m: usize = 0;
        let mut found = false;
        while m < t.len() && !found
            invariant
                m <= t@.len(),
                v == c@[k as int],
                found ==> has_variable(t@, v),
                !found ==> forall|i: int| 0 <= i < m ==> t@[i] != v,
            decreases t@.len() - m + (if found { 0int } else { 1int }),
        {
            let w = t.variable(m);
            if w.0 == v.0 && w.1 == v.1 {
                found = true;
                assert(t@[m as int] == v);
            } else {
                m = m + 1;
            }
        }
        if !found {
            assert(!has_variable(t@, v));
            return false;
        }
        k = k + 1;
    }
    true
}

/// The coverage matrix: entry `[i][j]` tells whether candidate `i` subsumes term `j`.
pub open spec fn is_coverage(cov: Seq<Vec<bool>>, cands: Seq<Term>, ts: Seq<Term>) -> bool {
    &&& cov.len() == cands.len()
    &&& forall|i: int| 0 <= i < cov.len() ==> (#[trigger] cov[i])@.len() == ts.len()
    &&& forall|i: int, j: int|
        0 <= i < cov.len() && 0 <= j < ts.len() ==> (#[trigger] cov[i]@[j] == subsumes(
            cands[i]@,
            ts[j]@,
        ))
}

fn coverage(cands: &Vec<Term>, ts: &Vec<Term>) -> (cov: Vec<Vec<bool>>)
    ensures
        is_coverage(cov@, cands@, ts@),
{
    let mut cov: Vec<Vec<bool>> = Vec::new();
    let mut i: usize = 0;
    while i < cands.len()
        invariant
            i <= cands@.len(),
            cov@.len() == i,
            forall|a: int| 0 <= a < i ==> (#[trigger] cov@[a])@.len() == ts@.len(),
            forall|a: int, j: int|
                0 <= a < i && 0 <= j < ts@.len() ==> (#[trigger] cov@[a]@[j] == subsumes(
                    cands@[a]@,
                    ts@[j]@,
                )),
        decreases cands@.len() - i,
    {
        let mut row: Vec<bool> = Vec::new();
        let mut j: usize = 0;
        while j < ts.len()
            invariant
                j <= ts@.len(),
                i < cands@.len(),
                row@.len() == j,
                forall|b: int| 0 <= b < j ==> row@[b] == subsumes(cands@[i as int]@, ts@[b]@),
            decreases ts@.len() - j,
        {
            row.push(subsumes_term(&cands[i], &ts[j]));
            j = j + 1;
        }
        cov.push(row);
        i = i + 1;
    }
    cov
}

/// The matrix has `n` rows of `m` entries.
pub open spec fn shaped(cov: Seq<Vec<bool>>, n: nat, m: nat) -> bool {
    &&& cov.len() == n
    &&& forall|i: int| 0 <= i < n ==> (#[trigger] cov[i])@.len() == m
}

/// Term `j` is subsumed by some kept candidate.
pub open spec fn kept_subsumer(cov: Seq<Vec<bool>>, keep: Seq<bool>, j: int) -> bool {
    exists|i: int| 0 <= i < keep.len() && keep[i] && #[trigger] cov[i]@[j]
}

/// Term `j` is subsumed by some candidate.
pub open spec fn some_subsumer(cov: Seq<Vec<bool>>, j: int) -> bool {
    exists|i: int| 0 <= i < cov.len() && #[trigger] cov[i]@[j]
}

/// Every term `j < m` is subsumed by some kept candidate.
pub open spec fn complete(cov: Seq<Vec<bool>>, keep: Seq<bool>, m: nat) -> bool {
    forall|j: int| 0 <= j < m ==> #[trigger] kept_subsumer(cov, keep, j)
}

/// Kept candidate `i` subsumes some term that no other kept candidate subsumes.
pub open spec fn has_own_term(cov: Seq<Vec<bool>>, keep: Seq<bool>, m: nat, i: int) -> bool {
    exists|j: int|
        0 <= j < m && #[trigger] cov[i]@[j] && forall|k: int|
            0 <= k < keep.len() && k != i && keep[k] ==> !cov[k]@[j]
}

/// Number of entries still false.
pub open spec fn count_false(s: Seq<bool>) -> nat
    decreases s.len(),
{
    if s.len() == 0 {
        0
    } else {
        count_false(s.drop_last()) + if s.last() {
            0nat
        } else {
            1nat
        }
    }
}

/// Setting a false entry lowers the count by one; setting a true one changes nothing.
pub proof fn lemma_count_false_set(s: Seq<bool>, j: int)
    requires
        0 <= j < s.len(),
    ensures
        !s[j] ==> count_false(s.update(j, true)) + 1 == count_false(s),
        s[j] ==> s.update(j, true) == s,
    decreases s.len(),
{
    if s[j] {
        assert(s.update(j, true) =~= s);
    } else {
        let u = s.update(j, true);
        if j < s.len() - 1 {
            assert(u.drop_last() =~= s.drop_last().update(j, true));
            lemma_count_false_set(s.drop_last(), j);
        } else {
            assert(u.drop_last() =~= s.drop_last());
        }
    }
}

/// The first position that is still false, or the length when there is none.
fn first_false(s: &Vec<bool>) -> (r: usize)
    ensures
        r <= s@.len(),
        forall|j: int| 0 <= j < r ==> s@[j],
        r < s@.len() ==> !s@[r as int],
{
    let mut j: usize = 0;
    while j < s.len() && s[j]
        invariant
            j <= s@.len(),
            forall|k: int| 0 <= k < j ==> s@[k],
        decreases s@.len() - j,
    {
        j = j + 1;
    }
    j
}

/// How many terms the row subsumes that are not yet covered, with one such term when
/// there is any.
fn gain(row: &Vec<bool>, covered: &Vec<bool>) -> (r: (usize, usize))
    requires
        row@.len() == covered@.len(),
    ensures
        r.0 > 0 ==> r.1 < row@.len() && row@[r.1 as int] && !covered@[r.1 as int],
        (exists|j: int| 0 <= j < row@.len() && row@[j] && !covered@[j]) ==> r.0 > 0,
{
    let mut g: usize = 0;
    let mut w: usize = 0;
    let mut j: usize = 0;
    while j < row.len()
        invariant
            j <= row@.len(),
            row@.len() == covered@.len(),
            g <= j,
            g > 0 ==> w < j && row@[w as int] && !covered@[w as int],
            (exists|k: int| 0 <= k < j && row@[k] && !covered@[k]) ==> g > 0,
        decreases row@.len() - j,
    {
        if row[j] && !covered[j] {
            g = g + 1;
            w = j;
        }
        j = j + 1;
    }
    (g, w)
}

/// Adds candidates to `chosen` until every term is subsumed by a chosen one: each round
/// takes the candidate that subsumes the most uncovered terms, the lexicographically
/// smallest among equals.
#[verifier::loop_isolation(false)]
fn greedy(cands: &Vec<Term>, cov: &Vec<Vec<bool>>, m: usize, chosen: &mut Vec<bool>)
    requires
        shaped(cov@, cands@.len() as nat, m as nat),
        old(chosen)@.len() == cands@.len(),
        forall|j: int| 0 <= j < m ==> #[trigger] some_subsumer(cov@, j),
    ensures
        final(chosen)@.len() == old(chosen)@.len(),
        forall|i: int| 0 <= i < old(chosen)@.len() && old(chosen)@[i] ==> final(chosen)@[i],
        complete(cov@, final(chosen)@, m as nat),
{
    let n = cands.len();
    let mut covered: Vec<bool> = Vec::new();
    let mut j: usize = 0;
    while j < m
        invariant
            j <= m,
            covered@.len() == j,
            chosen@ == old(chosen)@,
            forall|b: int| 0 <= b < j && #[trigger] covered@[b] ==> kept_subsumer(cov@, chosen@, b),
        decreases m - j,
    {
        let mut i: usize = 0;
        let mut hit = false;
        while i < n && !hit
            invariant
                i <= n,
                j < m,
                hit ==> kept_subsumer(cov@, chosen@, j as int),
            decreases n - i + (if hit { 0int } else { 1int }),
        {
            if chosen[i] && cov[i][j] {
                hit = true;
            } else {
                i = i + 1;
            }
        }
        covered.push(hit);
        j = j + 1;
    }
    let mut j0 = first_false(&covered);
    while j0 < m
        invariant
            covered@.len() == m,
            chosen@.len() == n,
            j0 <= m,
            forall|j: int| 0 <= j < j0 ==> covered@[j],
            j0 < m ==> !covered@[j0 as int],
            forall|i: int| 0 <= i < n && old(chosen)@[i] ==> chosen@[i],
            forall|b: int| 0 <= b < m && #[trigger] covered@[b] ==> kept_subsumer(cov@, chosen@, b),
        decreases count_false(covered@),
    {
        let mut best: usize = 0;
        let mut best_gain: usize = 0;
        let mut best_wit: usize = 0;
        let mut i: usize = 0;
        while i < n
            invariant
                i <= n,
                j0 < m,
                !covered@[j0 as int],
                best_gain > 0 ==> best < n && best_wit < m && cov@[best as int]@[best_wit as int]
                    && !covered@[best_wit as int],
                (exists|a: int| 0 <= a < i && #[trigger] cov@[a]@[j0 as int]) ==> best_gain > 0,
            decreases n - i,
        {
            let (g, w) = gain(&cov[i], &covered);
            if g > best_gain || (g == best_gain && g > 0 && cands[i].lex_less(&cands[best])) {
                best = i;
                best_gain = g;
                best_wit = w;
            }
            i = i + 1;
        }
        assert(some_subsumer(cov@, j0 as int));
        assert(best_gain > 0);
        chosen[best] = true;
        let ghost before = covered@;
        let mut j: usize = 0;
        while j < m
            invariant
                j <= m,
                covered@.len() == m,
                chosen@.len() == n,
                chosen@[best as int],
                forall|b: int| j <= b < m ==> covered@[b] == before[b],
                count_false(covered@) <= count_false(before),
                j > best_wit ==> count_false(covered@) < count_false(before),
                forall|b: int| 0 <= b < m && #[trigger] covered@[b] ==> kept_subsumer(cov@, chosen@, b),
            decreases m - j,
        {
            if cov[best][j] && !covered[j] {
                proof {
                    lemma_count_false_set(covered@, j as int);
                }
                covered[j] = true;
            }
            j = j + 1;
        }
        j0 = first_false(&covered);
    }
    assert forall|j: int| 0 <= j < m implies #[trigger] kept_subsumer(cov@, chosen@, j) by {
        assert(covered@[j]);
    }
}

/// Removes kept candidates whose terms are all subsumed by other kept candidates,
/// one at a time in index order, until each kept one subsumes a term of its own.
#[verifier::loop_isolation(false)]
fn drop_redundant(cov: &Vec<Vec<bool>>, m: usize, keep: &mut Vec<bool>)
    requires
        shaped(cov@, old(keep)@.len() as nat, m as nat),
        complete(cov@, old(keep)@, m as nat),
    ensures
        final(keep)@.len() == old(keep)@.len(),
        forall|i: int| 0 <= i < final(keep)@.len() && final(keep)@[i] ==> old(keep)@[i],
        complete(cov@, final(keep)@, m as nat),
        forall|i: int|
            0 <= i < final(keep)@.len() && #[trigger] final(keep)@[i] ==> has_own_term(
                cov@,
                final(keep)@,
                m as nat,
                i,
            ),
{
    let n = keep.len();
    let mut i: usize = 0;
    while i < n
        invariant
            i <= n,
            keep@.len() == n,
            forall|a: int| 0 <= a < n && keep@[a] ==> old(keep)@[a],
            complete(cov@, keep@, m as nat),
            forall|a: int| 0 <= a < i && #[trigger] keep@[a] ==> has_own_term(cov@, keep@, m as nat, a),
        decreases n - i,
    {
        if keep[i] {
            // Look for a term that only candidate `i` subsumes.
            let mut own = false;
            let mut j: usize = 0;
            while j < m && !own
                invariant
                    j <= m,
                    i < n,
                    own ==> has_own_term(cov@, keep@, m as nat, i as int),
                    !own ==> forall|b: int| 0 <= b < j && #[trigger] cov@[i as int]@[b] ==> exists|k: int|
                        0 <= k < n && k != i && keep@[k] && cov@[k]@[b],
                decreases m - j + (if own { 0int } else { 1int }),
            {
                if cov[i][j] {
                    let mut k: usize = 0;
                    let mut other = false;
                    while k < n && !other
                        invariant
                            k <= n,
                            j < m,
                            other ==> exists|a: int| 0 <= a < n && a != i && keep@[a] && #[trigger] cov@[a]@[j as int],
                            !other ==> forall|a: int| 0 <= a < k && a != i && keep@[a] ==> !cov@[a]@[j as int],
                        decreases n - k + (if other { 0int } else { 1int }),
                    {
                        if k != i && keep[k] && cov[k][j] {
                            other = true;
                        } else {
                            k = k + 1;
                        }
                    }
                    if !other {
                        own = true;
                        assert(cov@[i as int]@[j as int]);
                    } else {
                        j = j + 1;
                    }
                } else {
                    j = j + 1;
                }
            }
            if !own {
                let ghost before = keep@;
                keep[i] = false;
                proof {
                    assert forall|b: int| 0 <= b < m implies #[trigger] kept_subsumer(cov@, keep@, b) by {
                        assert(kept_subsumer(cov@, before, b));
                        let a = choose|a: int| 0 <= a < before.len() && before[a] && #[trigger] cov@[a]@[b];
                        if a == i {
                            let k = choose|k: int| 0 <= k < n && k != i && before[k] && cov@[k]@[b];
                            assert(keep@[k] && cov@[k]@[b]);
                        } else {
                            assert(keep@[a] && cov@[a]@[b]);
                        }
                    }
                    assert forall|a: int| 0 <= a < i && #[trigger] keep@[a] implies has_own_term(cov@, keep@, m as nat, a) by {
                        assert(before[a]);
                        assert(has_own_term(cov@, before, m as nat, a));
                        let b = choose|b: int|
                            0 <= b < m && #[trigger] cov@[a]@[b] && forall|k: int|
                                0 <= k < before.len() && k != a && before[k] ==> !cov@[k]@[b];
                        assert forall|k: int| 0 <= k < keep@.len() && k != a && keep@[k] implies !cov@[k]@[b] by {
                            assert(before[k]);
                        }
                    }
                }
            }
        }
        i = i + 1;
    }
}

/// Candidate `i` is the first to subsume term `j`, and every candidate that subsumes
/// term `j` is the same cube.
pub open spec fn essential_at(cands: Seq<Term>, cov: Seq<Vec<bool>>, j: int, i: int) -> bool {
    &&& 0 <= i < cov.len()
    &&& cov[i]@[j]
    &&& forall|k: int| 0 <= k < i ==> !(#[trigger] cov[k]@[j])
    &&& forall|k: int| 0 <= k < cov.len() && #[trigger] cov[k]@[j] ==> cands[k]@ == cands[i]@
}

/// Marks the essential candidates: for each term subsumed by one cube only, the first
/// candidate that is that cube.
#[verifier::loop_isolation(false)]
fn essentials(cands: &Vec<Term>, cov: &Vec<Vec<bool>>, m: usize) -> (chosen: Vec<bool>)
    requires
        shaped(cov@, cands@.len() as nat, m as nat),
    ensures
        chosen@.len() == cands@.len(),
        forall|i: int|
            0 <= i < chosen@.len() ==> (#[trigger] chosen@[i] <==> exists|j: int|
                0 <= j < m && essential_at(cands@, cov@, j, i)),
{
    let n = cands.len();
    let mut chosen: Vec<bool> = Vec::new();
    let mut i: usize = 0;
    while i < n
        invariant
            i <= n,
            chosen@.len() == i,
            forall|a: int| 0 <= a < i ==> !chosen@[a],
        decreases n - i,
    {
        chosen.push(false);
        i = i + 1;
    }
    let mut j: usize = 0;
    while j < m
        invariant
            j <= m,
            chosen@.len() == n,
            forall|a: int|
                0 <= a < n && #[trigger] chosen@[a] ==> exists|b: int| 0 <= b < j && essential_at(cands@, cov@, b, a),
            forall|a: int, b: int| 0 <= a < n && 0 <= b < j && #[trigger] essential_at(cands@, cov@, b, a) ==> chosen@[a],
        decreases m - j,
    {
        let mut first: usize = 0;
        while first < n && !cov[first][j]
            invariant
                first <= n,
                j < m,
                forall|k: int| 0 <= k < first ==> !(#[trigger] cov@[k]@[j as int]),
            decreases n - first,
        {
            first = first + 1;
        }
        if first < n {
            let mut k: usize = 0;
            let mut sole = true;
            while k < n && sole
                invariant
                    k <= n,
                    first < n,
                    j < m,
                    sole ==> forall|a: int| 0 <= a < k && #[trigger] cov@[a]@[j as int] ==> cands@[a]@ == cands@[first as int]@,
                    !sole ==> !essential_at(cands@, cov@, j as int, first as int),
                decreases n - k + (if sole { 1int } else { 0int }),
            {
                if cov[k][j] && !cands[k].same(&cands[first]) {
                    sole = false;
                } else {
                    k = k + 1;
                }
            }
            if sole {
                assert(essential_at(cands@, cov@, j as int, first as int));
                chosen[first] = true;
            }
            assert forall|a: int, b: int| 0 <= a < n && 0 <= b <= j && #[trigger] essential_at(cands@, cov@, b, a) implies chosen@[a] by {
                if b == j {
                    if a < first {
                    } else if a > first {
                        assert(!cov@[first as int]@[j as int]);
                    }
                }
            }
        } else {
            assert forall|a: int, b: int| 0 <= a < n && 0 <= b <= j && #[trigger] essential_at(cands@, cov@, b, a) implies chosen@[a] by {
                if b == j {
                    assert(!cov@[a]@[j as int]);
                }
            }
        }
        j = j + 1;
    }
    chosen
}

/// Cube `c` is one of the candidates.
pub open spec fn is_candidate(cands: Seq<Term>, c: Seq<Variable>) -> bool {
    exists|i: int| 0 <= i < cands.len() && cands[i]@ == c
}

/// Every term of the cover is one of the candidates.
pub open spec fn from_candidates(cover: Seq<Term>, cands: Seq<Term>) -> bool {
    forall|p: int| 0 <= p < cover.len() ==> #[trigger] is_candidate(cands, cover[p]@)
}

/// Term `p` of the cover subsumes some required term that no other term of the cover does.
pub open spec fn own_term(cover: Seq<Term>, ts: Seq<Term>, p: int) -> bool {
    exists|j: int|
        0 <= j < ts.len() && subsumes(cover[p]@, #[trigger] ts[j]@) && forall|q: int|
            0 <= q < cover.len() && q != p ==> !subsumes(#[trigger] cover[q]@, ts[j]@)
}

/// No term of the cover can be dropped without leaving some required term unsubsumed.
pub open spec fn irredundant(cover: Seq<Term>, ts: Seq<Term>) -> bool {
    forall|p: int| 0 <= p < cover.len() ==> #[trigger] own_term(cover, ts, p)
}

/// Candidate `i` subsumes `t`, and every candidate that subsumes `t` is the same cube.
pub open spec fn sole_subsumer(cands: Seq<Term>, t: Seq<Variable>, i: int) -> bool {
    &&& 0 <= i < cands.len()
    &&& subsumes(cands[i]@, t)
    &&& forall|k: int| 0 <= k < cands.len() && subsumes(#[trigger] cands[k]@, t) ==> cands[k]@ == cands[i]@
}

/// An essential prime implicant belongs to every cover: when a required term is subsumed
/// by one candidate only, any cover drawn from the candidates that subsumes that term
/// holds that candidate.
pub proof fn lemma_essential_in_every_cover(cands: Seq<Term>, cover: Seq<Term>, t: Seq<Variable>, i: int)
    requires
        from_candidates(cover, cands),
        subsumed_by_some(cover, t),
        sole_subsumer(cands, t, i),
    ensures
        exists|p: int| 0 <= p < cover.len() && cover[p]@ == cands[i]@,
{
    let p = choose|p: int| 0 <= p < cover.len() && subsumes(#[trigger] cover[p]@, t);
    assert(is_candidate(cands, cover[p]@));
    let k = choose|k: int| 0 <= k < cands.len() && cands[k]@ == cover[p]@;
    assert(subsumes(cands[k]@, t));
}

/// Selects a cover of the required terms from the candidate cubes.
///
/// Essential candidates come first; then, while a term is left unsubsumed, the
/// candidate that subsumes the most of the remaining terms (the lexicographically
/// smallest among equals); last, chosen candidates that turned out redundant are
/// dropped in index order. The result keeps the candidates' order.
#[verifier::loop_isolation(false)]
pub fn select_cover(cands: &Vec<Term>, ts: &Vec<Term>) -> (r: Vec<Term>)
    requires
        forall|j: int| 0 <= j < ts@.len() ==> subsumed_by_some(cands@, #[trigger] ts@[j]@),
    ensures
        from_candidates(r@, cands@),
        forall|j: int| 0 <= j < ts@.len() ==> subsumed_by_some(r@, #[trigger] ts@[j]@),
        irredundant(r@, ts@),
        forall|j: int, i: int|
            0 <= j < ts@.len() && #[trigger] sole_subsumer(cands@, ts@[j]@, i) ==> exists|p: int|
                0 <= p < r@.len() && r@[p]@ == cands@[i]@,
        all_wf(cands@) ==> all_wf(r@),
{
    let n = cands.len();
    let m = ts.len();
    let cov = coverage(cands, ts);
    assert forall|j: int| 0 <= j < m implies #[trigger] some_subsumer(cov@, j) by {
        assert(subsumed_by_some(cands@, ts@[j]@));
        let i = choose|i: int| 0 <= i < cands@.len() && subsumes(#[trigger] cands@[i]@, ts@[j]@);
        assert(cov@[i]@[j]);
    }
    let mut keep = essentials(cands, &cov, m);
    greedy(cands, &cov, m, &mut keep);
    drop_redundant(&cov, m, &mut keep);
    let mut r: Vec<Term> = Vec::new();
    let ghost mut idx: Seq<int> = Seq::empty();
    let mut i: usize = 0;
    while i < n
        invariant
            i <= n,
            keep@.len() == n,
            r@.len() == idx.len(),
            forall|p: int| 0 <= p < idx.len() ==> 0 <= #[trigger] idx[p] < i && keep@[idx[p]] && r@[p]@ == cands@[idx[p]]@,
            forall|p: int, q: int| 0 <= p < q < idx.len() ==> idx[p] < idx[q],
            forall|a: int| 0 <= a < i && #[trigger] keep@[a] ==> exists|p: int| 0 <= p < idx.len() && idx[p] == a,
        decreases n - i,
    {
        if keep[i] {
            let c = cands[i].copy();
            r.push(c);
            proof {
                let old_idx = idx;
                idx = idx.push(i as int);
                assert(idx[idx.len() - 1] == i);
                assert forall|a: int| 0 <= a <= i && #[trigger] keep@[a] implies exists|p: int|
                    0 <= p < idx.len() && idx[p] == a by {
                    if a < i {
                        let p = choose|p: int| 0 <= p < old_idx.len() && old_idx[p] == a;
                        assert(idx[p] == a);
                    }
                }
            }
        }
        i = i + 1;
    }
    proof {
        assert forall|p: int| 0 <= p < r@.len() implies #[trigger] is_candidate(cands@, r@[p]@) by {
            assert(cands@[idx[p]]@ == r@[p]@);
        }
        assert forall|j: int| 0 <= j < m implies subsumed_by_some(r@, #[trigger] ts@[j]@) by {
            assert(kept_subsumer(cov@, keep@, j));
            let a = choose|a: int| 0 <= a < keep@.len() && keep@[a] && #[trigger] cov@[a]@[j];
            let p = choose|p: int| 0 <= p < idx.len() && idx[p] == a;
            assert(subsumes(r@[p]@, ts@[j]@));
        }
        assert forall|p: int| 0 <= p < r@.len() implies #[trigger] own_term(r@, ts@, p) by {
            let a = idx[p];
            assert(keep@[a]);
            assert(has_own_term(cov@, keep@, m as nat, a));
            let j = choose|j: int|
                0 <= j < m && #[trigger] cov@[a]@[j] && forall|k: int|
                    0 <= k < keep@.len() && k != a && keep@[k] ==> !cov@[k]@[j];
            assert forall|q: int| 0 <= q < r@.len() && q != p implies !subsumes(#[trigger] r@[q]@, ts@[j]@) by {
                assert(idx[q] != a);
                assert(keep@[idx[q]]);
                assert(!cov@[idx[q]]@[j]);
            }
            assert(subsumes(r@[p]@, ts@[j]@));
        }
        assert forall|j: int, i: int|
            0 <= j < ts@.len() && #[trigger] sole_subsumer(cands@, ts@[j]@, i) implies exists|p: int|
                0 <= p < r@.len() && r@[p]@ == cands@[i]@ by {
            lemma_essential_in_every_cover(cands@, r@, ts@[j]@, i);
        }
        if all_wf(cands@) {
            assert forall|p: int| 0 <= p < r@.len() implies #[trigger] r@[p].wf() by {
                assert(cands@[idx[p]].wf());
            }
        }
    }
    r
}

} // verus!
