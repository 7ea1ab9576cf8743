use minterm::bit::Bit;
use minterm::equation::{equations, minimize};
use minterm::table::{Entry, StructuralError, Truth};

fn bits(v: u32, n: usize) -> Vec<bool> {
    (0..n).map(|i| v & (1 << (n - 1 - i)) != 0).collect()
}

fn full_table(n: usize, outs: &[Vec<bool>]) -> Truth {
    let inp: Vec<Vec<bool>> = (0..(1u32 << n)).map(|v| bits(v, n)).collect();
    Truth::new(inp, outs.to_vec())
}

#[test]
fn entry_new_converts_bits() {
    let e = Entry::new(vec![true, false], vec![false, true]);
    assert_eq!(e.input, vec![Bit::On, Bit::Off]);
    assert_eq!(e.output, vec![false, true]);
}

#[test]
fn entry_clear_and_default() {
    let mut e = Entry::new(vec![true], vec![true]);
    e.clear();
    assert!(e.input.is_empty() && e.output.is_empty());
    let d = Entry::default();
    assert!(d.input.is_empty() && d.output.is_empty());
}

#[test]
fn n_bit_differs_ignores_eliminated_positions() {
    let a = Entry { input: vec![Bit::On, Bit::Off, Bit::NA, Bit::On], output: vec![] };
    let b = Entry { input: vec![Bit::Off, Bit::Off, Bit::On, Bit::NA], output: vec![] };
    assert_eq!(a.n_bit_differs(&b), 1);
    let c = Entry::new(vec![true, true, false], vec![]);
    let d = Entry::new(vec![false, false, true], vec![]);
    assert_eq!(c.n_bit_differs(&d), 3);
    assert_eq!(c.n_bit_differs(&c), 0);
}

#[test]
fn solution_finds_the_row() {
    let t = full_table(2, &[vec![true], vec![false], vec![false], vec![true]]);
    assert_eq!(t.len(), 4);
    assert_eq!(t.solution(vec![false, false]), Some(vec![true]));
    assert_eq!(t.solution(vec![true, false]), Some(vec![false]));
    assert_eq!(t.solution(vec![true, true]), Some(vec![true]));
    assert_eq!(t.solution(vec![true]), None);
    assert_eq!(Truth::default().solution(vec![]), None);
}

#[test]
fn validate_accepts_a_complete_table() {
    let t = full_table(2, &[vec![true], vec![false], vec![false], vec![true]]);
    assert_eq!(t.validate(), Ok(()));
}

#[test]
fn validate_rejects_an_empty_table() {
    assert_eq!(Truth::default().validate(), Err(StructuralError::Empty));
}

#[test]
fn validate_rejects_uneven_widths() {
    let t = Truth::new(vec![vec![false], vec![true, true]], vec![vec![true], vec![true]]);
    assert_eq!(t.validate(), Err(StructuralError::Width(1)));
    let u = Truth::new(vec![vec![false], vec![true]], vec![vec![true], vec![true, false]]);
    assert_eq!(u.validate(), Err(StructuralError::Width(1)));
}

#[test]
fn validate_rejects_eliminated_inputs() {
    let mut t = full_table(1, &[vec![true], vec![false]]);
    t.table[1].input[0] = Bit::NA;
    assert_eq!(t.validate(), Err(StructuralError::Unspecified(1)));
}

#[test]
fn validate_rejects_repeated_patterns() {
    let t = Truth::new(vec![vec![false], vec![false]], vec![vec![true], vec![false]]);
    assert_eq!(t.validate(), Err(StructuralError::Duplicate(1)));
}

#[test]
fn validate_rejects_missing_rows() {
    let t = Truth::new(vec![vec![false, false], vec![false, true]], vec![vec![true], vec![false]]);
    assert_eq!(t.validate(), Err(StructuralError::RowCount));
    let one = Truth::new(vec![vec![]], vec![vec![true]]);
    assert_eq!(one.validate(), Ok(()));
}

#[test]
fn equations_need_one_name_per_output() {
    let t = full_table(1, &[vec![true, false], vec![false, false]]);
    assert_eq!(equations(&t, vec!["x"]).err(), Some(StructuralError::Names));
    assert_eq!(minimize(&t, vec!["x", "y", "z"]).err(), Some(StructuralError::Names));
    assert_eq!(equations(&Truth::default(), vec![]).err(), Some(StructuralError::Empty));
}

#[test]
fn equations_list_the_minterms() {
    let t = full_table(2, &[vec![true], vec![false], vec![false], vec![true]]);
    let eqs = equations(&t, vec!["x"]).unwrap();
    assert_eq!(eqs.len(), 1);
    assert_eq!(eqs[0].index, 0);
    assert_eq!(eqs[0].varname, "x");
    let terms: Vec<Vec<(usize, bool)>> = eqs[0].terms.iter().map(|t| t.variables()).collect();
    assert_eq!(terms, vec![vec![(0, false), (1, false)], vec![(0, true), (1, true)]]);
}

#[test]
fn render_writes_one_line_per_row() {
    let mut t = full_table(1, &[vec![true, false], vec![false, true]]);
    assert_eq!(t.render(), "0 -> 10\n1 -> 01\n");
    t.table[0].input[0] = Bit::NA;
    assert_eq!(t.render(), "x -> 10\n1 -> 01\n");
    assert_eq!(Truth::default().render(), "");
}
