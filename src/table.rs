//! Truth tables: rows, lookup, and the structural checks that minimization relies on.

use vstd::arithmetic::power2::{lemma_pow2_strictly_increases, pow2};
use vstd::prelude::*;

use crate::bit::{bit_of, symbol_of, Bit};
use vstd::string::StringExecFns;
use crate::term::specified;

verus! {

/// The row of bits that stands for a row of booleans.
pub open spec fn bit_row(x: Seq<bool>) -> Seq<Bit> {
    x.map_values(|b: bool| bit_of(b))
}

/// The booleans of a fully specified row of bits.
pub open spec fn bools_of(row: Seq<Bit>) -> Seq<bool> {
    row.map_values(|b: Bit| b == Bit::On)
}

/// Number of positions where both rows are specified and differ.
pub open spec fn differing(a: Seq<Bit>, b: Seq<Bit>) -> nat
    decreases a.len(),
{
    if a.len() == 0 {
        0
    } else {
        let (x, y) = (a.last(), b[a.len() - 1]);
        differing(a.drop_last(), b.take(a.len() - 1)) + if x != Bit::NA && y != Bit::NA && x != y {
            1nat
        } else {
            0nat
        }
    }
}

/// One row of a truth table: an input pattern and the outputs it maps to.
#[derive(Debug)]
pub struct Entry {
    pub input: Vec<Bit>,
    pub output: Vec<bool>,
}

impl Entry {
    pub fn default() -> (r: Entry)
        ensures
            r.input@.len() == 0,
            r.output@.len() == 0,
    {
        Entry { input: Vec::new(), output: Vec::new() }
    }

    pub fn new(inp: Vec<bool>, outp: Vec<bool>) -> (r: Entry)
        ensures
            r.input@ == bit_row(inp@),
            r.output@ == outp@,
    {
        let mut bits: Vec<Bit> = Vec::new();
        let mut i: usize = 0;
        while i < inp.len()
            invariant
                i <= inp@.len(),
                bits@ == bit_row(inp@).take(i as int),
            decreases inp@.len() - i,
        {
            bits.push(Bit::new(inp[i]));
            i = i + 1;
        }
        assert(bits@ =~= bit_row(inp@));
        Entry { input: bits, output: outp }
    }

    pub fn clear(&mut self)
        ensures
            final(self).input@.len() == 0,
            final(self).output@.len() == 0,
    {
        self.input.clear();
        self.output.clear();
    }

    /// The number of positions at which the inputs differ, positions eliminated in
    /// either being ignored.
    pub fn n_bit_differs(&self, entry: &Entry) -> (r: usize)
        requires
            self.input@.len() == entry.input@.len(),
        ensures
            r == differing(self.input@, entry.input@),
    {
        let a = &self.input;
        let b = &entry.input;
        let mut n: usize = 0;
        let mut i: usize = 0;
        while i < a.len()
            invariant
                i <= a@.len(),
                a@.len() == b@.len(),
                n == differing(a@.take(i as int), b@.take(i as int)),
                n <= i,
            decreases a@.len() - i,
        {
            assert(a@.take(i + 1).drop_last() =~= a@.take(i as int));
            assert(b@.take(i + 1).take(i as int) =~= b@.take(i as int));
            if a[i] != Bit::NA && b[i] != Bit::NA && a[i] != b[i] {
                n = n + 1;
            }
            i = i + 1;
        }
        assert(a@.take(a@.len() as int) =~= a@);
        assert(b@.take(b@.len() as int) =~= b@);
        n
    }
}

/// Copies a row of booleans.
pub fn copy_bools(v: &Vec<bool>) -> (r: Vec<bool>)
    ensures
        r@ == v@,
{
    let mut r: Vec<bool> = Vec::new();
    let mut i: usize = 0;
    while i < v.len()
        invariant
            i <= v@.len(),
            r@ == v@.take(i as int),
        decreases v@.len() - i,
    {
        r.push(v[i]);
        i = i + 1;
    }
    assert(r@ =~= v@);
    r
}

/// True when both rows hold the same bits.
pub fn same_bits(a: &Vec<Bit>, b: &Vec<Bit>) -> (r: bool)
    ensures
        r == (a@ == b@),
{
    if a.len() != b.len() {
        return false;
    }
    let mut i: usize = 0;
    while i < a.len()
        invariant
            i <= a@.len(),
            a@.len() == b@.len(),
            forall|k: int| 0 <= k < i ==> a@[k] == b@[k],
        decreases a@.len() - i,
    {
        if a[i] != b[i] {
            return false;
        }
        i = i + 1;
    }
    assert(a@ =~= b@);
    true
}

/// Why a table cannot be minimized.
#[derive(Clone, Copy, Debug, PartialEq, Eq, Structural)]
pub enum StructuralError {
    /// The table has no rows.
    Empty,
    /// This row's input or output width differs from the first row's.
    Width(usize),
    /// This row's input has an eliminated position.
    Unspecified(usize),
    /// This row's input pattern repeats an earlier row's.
    Duplicate(usize),
    /// The number of rows is not two to the power of the input width.
    RowCount,
    /// The number of output names differs from the output width.
    Names,
}

/// Rows below `n` have the widths of the first row and fully specified inputs.
pub open spec fn rows_shaped(t: Seq<Entry>, n: int) -> bool {
    forall|r: int|
        0 <= r < n ==> (#[trigger] t[r]).input@.len() == t[0].input@.len() && t[r].output@.len()
            == t[0].output@.len() && specified(t[r].input@)
}

/// Rows below `n` have input patterns that differ from every earlier row's.
pub open spec fn rows_distinct(t: Seq<Entry>, n: int) -> bool {
    forall|r: int, s: int| 0 <= s < r < n ==> (#[trigger] t[r]).input@ != (#[trigger] t[s]).input@
}

/// A complete truth table: one row per input pattern, all of the same widths.
pub open spec fn valid_table(t: Seq<Entry>) -> bool {
    &&& t.len() > 0
    &&& rows_shaped(t, t.len() as int)
    &&& rows_distinct(t, t.len() as int)
    &&& t.len() == pow2(t[0].input@.len())
}

/// Row `r` repeats the input pattern of an earlier row.
pub open spec fn repeats(t: Seq<Entry>, r: int) -> bool {
    exists|s: int| 0 <= s < r && t[s].input@ == t[r].input@
}

/// The input bits of a row as characters.
pub open spec fn input_text(s: Seq<Bit>) -> Seq<char>
    decreases s.len(),
{
    if s.len() == 0 {
        Seq::empty()
    } else {
        input_text(s.drop_last()) + seq![symbol_of(s.last())]
    }
}

/// The output bits of a row as digits.
pub open spec fn output_text(s: Seq<bool>) -> Seq<char>
    decreases s.len(),
{
    if s.len() == 0 {
        Seq::empty()
    } else {
        output_text(s.drop_last()) + seq![if s.last() { '1' } else { '0' }]
    }
}

/// The rows written one per line as `inputs -> outputs`.
pub open spec fn table_text(t: Seq<Entry>) -> Seq<char>
    decreases t.len(),
{
    if t.len() == 0 {
        Seq::empty()
    } else {
        table_text(t.drop_last()) + input_text(t.last().input@) + seq![' ', '-', '>', ' ']
            + output_text(t.last().output@) + seq!['\n']
    }
}

/// Appends the text of one bit.
fn append_bit(s: &mut String, b: Bit)
    ensures
        final(s)@ == old(s)@ + seq![symbol_of(b)],
{
    proof {
        reveal_strlit("1");
        reveal_strlit("0");
        reveal_strlit("x");
    }
    match b {
        Bit::On => s.append("1"),
        Bit::Off => s.append("0"),
        Bit::NA => s.append("x"),
    }
    assert(final(s)@ =~= old(s)@ + seq![symbol_of(b)]);
}

/// A truth table: each row maps an input pattern to output bits.
pub struct Truth {
    pub table: Vec<Entry>,
}

impl Truth {
    pub fn default() -> (r: Truth)
        ensures
            r.table@.len() == 0,
    {
        Truth { table: Vec::new() }
    }

    /// Builds the table whose row `i` maps `inp[i]` to `outp[i]`.
    pub fn new(inp: Vec<Vec<bool>>, outp: Vec<Vec<bool>>) -> (r: Truth)
        requires
            inp@.len() == outp@.len(),
        ensures
            r.table@.len() == inp@.len(),
            forall|i: int|
                0 <= i < inp@.len() ==> (#[trigger] r.table@[i]).input@ == bit_row(inp@[i]@)
                    && r.table@[i].output@ == outp@[i]@,
    {
        let mut entlist: Vec<Entry> = Vec::new();
        let mut i: usize = 0;
        while i < inp.len()
            invariant
                i <= inp@.len(),
                inp@.len() == outp@.len(),
                entlist@.len() == i,
                forall|k: int|
                    0 <= k < i ==> (#[trigger] entlist@[k]).input@ == bit_row(inp@[k]@)
                        && entlist@[k].output@ == outp@[k]@,
            decreases inp@.len() - i,
        {
            entlist.push(Entry::new(copy_bools(&inp[i]), copy_bools(&outp[i])));
            i = i + 1;
        }
        Truth { table: entlist }
    }

    /// The outputs of the first row whose input is the pattern `inp`, or `None` when no
    /// row has it.
    pub fn solution(&self, inp: Vec<bool>) -> (r: Option<Vec<bool>>)
        ensures
            match r {
                Some(o) => exists|i: int|
                    0 <= i < self.table@.len() && self.table@[i].input@ == bit_row(inp@)
                        && o@ == self.table@[i].output@ && forall|k: int|
                        0 <= k < i ==> self.table@[k].input@ != bit_row(inp@),
                None => forall|i: int|
                    0 <= i < self.table@.len() ==> self.table@[i].input@ != bit_row(inp@),
            },
    {
        let mut bits: Vec<Bit> = Vec::new();
        let mut i: usize = 0;
        while i < inp.len()
            invariant
                i <= inp@.len(),
                bits@ == bit_row(inp@).take(i as int),
            decreases inp@.len() - i,
        {
            bits.push(Bit::new(inp[i]));
            i = i + 1;
        }
        assert(bits@ =~= bit_row(inp@));
        let mut k: usize = 0;
        while k < self.table.len()
            invariant
                k <= self.table@.len(),
                bits@ == bit_row(inp@),
                forall|a: int| 0 <= a < k ==> self.table@[a].input@ != bit_row(inp@),
            decreases self.table@.len() - k,
        {
            if same_bits(&self.table[k].input, &bits) {
                return Some(copy_bools(&self.table[k].output));
            }
            k = k + 1;
        }
        None
    }

    /// The table as text, one row per line: the input bits (`1`, `0`, `x`), ` -> `,
    /// then the output bits.
    pub fn render(&self) -> (r: String)
        ensures
            r@ == table_text(self.table@),
    {
        let mut s = String::new();
        let mut k: usize = 0;
        while k < self.table.len()
            invariant
                k <= self.table@.len(),
                s@ == table_text(self.table@.take(k as int)),
            decreases self.table@.len() - k,
        {
            let e = &self.table[k];
            let ghost start = s@;
            let mut i: usize = 0;
            while i < e.input.len()
                invariant
                    i <= e.input@.len(),
                    s@ == start + input_text(e.input@.take(i as int)),
                decreases e.input@.len() - i,
            {
                append_bit(&mut s, e.input[i]);
                assert(e.input@.take(i + 1).drop_last() =~= e.input@.take(i as int));
                i = i + 1;
                assert(s@ =~= start + input_text(e.input@.take(i as int)));
            }
            assert(e.input@.take(e.input@.len() as int) =~= e.input@);
            proof {
                reveal_strlit(" -> ");
            }
            s.append(" -> ");
            let ghost mid = s@;
            let mut j: usize = 0;
            while j < e.output.len()
                invariant
                    j <= e.output@.len(),
                    s@ == mid + output_text(e.output@.take(j as int)),
                decreases e.output@.len() - j,
            {
                proof {
                    reveal_strlit("1");
                    reveal_strlit("0");
                }
                if e.output[j] {
                    s.append("1");
                } else {
                    s.append("0");
                }
                assert(e.output@.take(j + 1).drop_last() =~= e.output@.take(j as int));
                j = j + 1;
                assert(s@ =~= mid + output_text(e.output@.take(j as int)));
            }
            assert(e.output@.take(e.output@.len() as int) =~= e.output@);
            proof {
                reveal_strlit("\n");
            }
            s.append("\n");
            let ghost tk = self.table@.take(k + 1);
            assert(tk.drop_last() =~= self.table@.take(k as int));
            assert(tk.last() == self.table@[k as int]);
            k = k + 1;
            assert(s@ =~= table_text(self.table@.take(k as int)));
        }
        assert(self.table@.take(self.table@.len() as int) =~= self.table@);
        s
    }

    pub fn len(&self) -> (r: usize)
        ensures
            r == self.table@.len(),
    {
        self.table.len()
    }

    /// Checks that the table is complete and consistent: widths first, row by row,
    /// then repeated input patterns, then the number of rows.
    #[verifier::loop_isolation(false)]
    pub fn validate(&self) -> (r: Result<(), StructuralError>)
        ensures
            r is Ok <==> valid_table(self.table@),
            r == Err::<(), StructuralError>(StructuralError::Empty) <==> self.table@.len() == 0,
            forall|row: usize|
                r == Err::<(), StructuralError>(StructuralError::Width(row)) ==> row
                    < self.table@.len() && rows_shaped(self.table@, row as int) && (
                    self.table@[row as int].input@.len() != self.table@[0].input@.len()
                        || self.table@[row as int].output@.len() != self.table@[0].output@.len()),
            forall|row: usize|
                r == Err::<(), StructuralError>(StructuralError::Unspecified(row)) ==> row
                    < self.table@.len() && rows_shaped(self.table@, row as int)
                    && self.table@[row as int].input@.len() == self.table@[0].input@.len()
                    && self.table@[row as int].output@.len() == self.table@[0].output@.len()
                    && !specified(self.table@[row as int].input@),
            forall|row: usize|
                r == Err::<(), StructuralError>(StructuralError::Duplicate(row)) ==> row
                    < self.table@.len() && rows_shaped(self.table@, self.table@.len() as int)
                    && rows_distinct(self.table@, row as int) && repeats(self.table@, row as int),
            r != Err::<(), StructuralError>(StructuralError::Names),
            r == Err::<(), StructuralError>(StructuralError::RowCount) ==> self.table@.len() > 0
                && rows_shaped(self.table@, self.table@.len() as int) && rows_distinct(
                self.table@,
                self.table@.len() as int,
            ) && self.table@.len() != pow2(self.table@[0].input@.len()),
    {
        let n = self.table.len();
        if n == 0 {
            return Err(StructuralError::Empty);
        }
        let width_in = self.table[0].input.len();
        let width_out = self.table[0].output.len();
        let mut i: usize = 0;
        while i < n
            invariant
                n == self.table@.len(),
                0 < n,
                i <= n,
                width_in == self.table@[0].input@.len(),
                width_out == self.table@[0].output@.len(),
                rows_shaped(self.table@, i as int),
            decreases n - i,
        {
            if self.table[i].input.len() != width_in || self.table[i].output.len() != width_out {
                assert(self.table@.len() > 0);
                assert(!rows_shaped(self.table@, self.table@.len() as int));
                return Err(StructuralError::Width(i));
            }
            let mut k: usize = 0;
            while k < self.table[i].input.len()
                invariant
                    n == self.table@.len(),
                    0 < n,
                    i < n,
                    k <= self.table@[i as int].input@.len(),
                    forall|a: int| 0 <= a < k ==> self.table@[i as int].input@[a] != Bit::NA,
                decreases self.table@[i as int].input@.len() - k,
            {
                if self.table[i].input[k] == Bit::NA {
                    assert(!specified(self.table@[i as int].input@));
                    assert(!rows_shaped(self.table@, self.table@.len() as int));
                    return Err(StructuralError::Unspecified(i));
                }
                k = k + 1;
            }
            i = i + 1;
        }
        let mut i: usize = 1;
        while i < n
            invariant
                n == self.table@.len(),
                1 <= i <= n,
                rows_shaped(self.table@, n as int),
                rows_distinct(self.table@, i as int),
            decreases n - i,
        {
            let mut s: usize = 0;
            while s < i
                invariant
                    s <= i,
                    i < n,
                    n == self.table@.len(),
                    forall|a: int| 0 <= a < s ==> self.table@[a].input@ != self.table@[i as int].input@,
                decreases i - s,
            {
                if same_bits(&self.table[s].input, &self.table[i].input) {
                    assert(self.table@[s as int].input@ == self.table@[i as int].input@);
                    assert(repeats(self.table@, i as int));
                    assert(!rows_distinct(self.table@, self.table@.len() as int));
                    return Err(StructuralError::Duplicate(i));
                }
                s = s + 1;
            }
            i = i + 1;
        }
        // Compare the row count with two to the power of the input width.
        let mut p: u128 = 1;
        proof {
            vstd::arithmetic::power2::lemma2_to64();
        }
        let mut k: usize = 0;
        while k < width_in && p <= n as u128
            invariant
                k <= width_in,
                p == pow2(k as nat),
                p <= 2 * (n as u128),
            decreases width_in - k,
        {
            proof {
                vstd::arithmetic::power2::lemma_pow2_unfold((k + 1) as nat);
            }
            p = p * 2;
            k = k + 1;
        }
        if k < width_in {
            proof {
                lemma_pow2_strictly_increases(k as nat, width_in as nat);
            }
            return Err(StructuralError::RowCount);
        }
        if p != n as u128 {
            return Err(StructuralError::RowCount);
        }
        Ok(())
    }
}

} // verus!
