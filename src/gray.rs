//! Reflected binary Gray codes, for enumerating input rows by hand.

use vstd::prelude::*;

verus! {

/// The rows of a sequence of vectors.
pub open spec fn rows(v: Seq<Vec<bool>>) -> Seq<Seq<bool>> {
    v.map_values(|x: Vec<bool>| x@)
}

/// The reflected code one bit wider: the codes with a leading 0, then the codes in
/// reverse order with a leading 1.
pub open spec fn reflect(g: Seq<Seq<bool>>) -> Seq<Seq<bool>> {
    g.map_values(|c: Seq<bool>| seq![false] + c) + Seq::new(
        g.len(),
        |i: int| seq![true] + g[g.len() - 1 - i],
    )
}

/// The reflected binary Gray code on `n` bits (on one bit when `n` is 0).
pub open spec fn gray(n: nat) -> Seq<Seq<bool>>
    decreases n,
{
    if n <= 1 {
        seq![seq![false], seq![true]]
    } else {
        reflect(gray((n - 1) as nat))
    }
}

/// The row `v` with `b` in front.
fn prefixed(b: bool, v: &Vec<bool>) -> (r: Vec<bool>)
    ensures
        r@ == seq![b] + v@,
{
    let mut r: Vec<bool> = Vec::new();
    r.push(b);
    let mut i: usize = 0;
    while i < v.len()
        invariant
            i <= v@.len(),
            r@ == seq![b] + v@.take(i as int),
        decreases v@.len() - i,
    {
        r.push(v[i]);
        i = i + 1;
        assert(r@ =~= seq![b] + v@.take(i as int));
    }
    assert(v@.take(v@.len() as int) =~= v@);
    r
}

/// The Gray code on `nbits` bits (on one bit when `nbits` is 0), from all zeros.
pub fn gray_code(nbits: usize) -> (r: Vec<Vec<bool>>)
    ensures
        rows(r@) == gray(nbits as nat),
{
    let mut cur: Vec<Vec<bool>> = Vec::new();
    let mut zero: Vec<bool> = Vec::new();
    zero.push(false);
    let mut one: Vec<bool> = Vec::new();
    one.push(true);
    cur.push(zero);
    cur.push(one);
    assert(rows(cur@) =~= gray(1));
    let mut k: usize = 1;
    while k < nbits
        invariant
            1 <= k,
            k <= nbits || k == 1,
            rows(cur@) == gray(k as nat),
        decreases nbits - k,
    {
        cur = gray_code_r(cur);
        k = k + 1;
    }
    if nbits <= 1 {
        assert(gray(nbits as nat) == gray(1));
    } else {
        assert(k == nbits);
    }
    cur
}

/// The Gray code one bit wider than `gray`, by reflection.
pub fn gray_code_r(gray: Vec<Vec<bool>>) -> (r: Vec<Vec<bool>>)
    ensures
        rows(r@) == reflect(rows(gray@)),
{
    let n = gray.len();
    let ghost g = rows(gray@);
    let mut out: Vec<Vec<bool>> = Vec::new();
    let mut i: usize = 0;
    while i < n
        invariant
            i <= n,
            n == gray@.len(),
            g == rows(gray@),
            rows(out@) == g.map_values(|c: Seq<bool>| seq![false] + c).take(i as int),
        decreases n - i,
    {
        let ghost before = out@;
        out.push(prefixed(false, &gray[i]));
        assert(g[i as int] == gray@[i as int]@);
        assert(rows(out@) =~= rows(before).push(seq![false] + g[i as int]));
        i = i + 1;
        assert(rows(out@) =~= g.map_values(|c: Seq<bool>| seq![false] + c).take(i as int));
    }
    let mut i: usize = n;
    while i > 0
        invariant
            i <= n,
            n == gray@.len(),
            g == rows(gray@),
            rows(out@) == g.map_values(|c: Seq<bool>| seq![false] + c) + Seq::new(
                (n - i) as nat,
                |k: int| seq![true] + g[n - 1 - k],
            ),
        decreases i,
    {
        i = i - 1;
        let ghost before = out@;
        out.push(prefixed(true, &gray[i]));
        assert(g[i as int] == gray@[i as int]@);
        assert(rows(out@) =~= rows(before).push(seq![true] + g[i as int]));
        assert(rows(out@) =~= g.map_values(|c: Seq<bool>| seq![false] + c) + Seq::new(
            (n - i) as nat,
            |k: int| seq![true] + g[n - 1 - k],
        ));
    }
    assert(rows(out@) =~= reflect(g));
    out
}

} // verus!
