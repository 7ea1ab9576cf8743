use minterm::cover::select_cover;
use minterm::equation::{minimize, Equation};
use minterm::implicant::prime_implicants;
use minterm::table::Truth;
use minterm::term::Term;

fn bits(v: u32, n: usize) -> Vec<bool> {
    (0..n).map(|i| v & (1 << (n - 1 - i)) != 0).collect()
}

fn table(n: usize, outs: &[&str]) -> Truth {
    let inp: Vec<Vec<bool>> = (0..(1u32 << n)).map(|v| bits(v, n)).collect();
    let outp: Vec<Vec<bool>> = outs.iter().map(|s| s.chars().map(|c| c == '1').collect()).collect();
    Truth::new(inp, outp)
}

fn covers(t: &Term, x: &[bool]) -> bool {
    t.variables().iter().all(|&(i, b)| i < x.len() && x[i] == b)
}

fn eval(terms: &[Term], x: &[bool]) -> bool {
    terms.iter().any(|t| covers(t, x))
}

fn true_rows(eq: &Equation, n: usize) -> Vec<String> {
    (0..(1u32 << n))
        .map(|v| bits(v, n))
        .filter(|x| eval(&eq.terms, x))
        .map(|x| x.iter().map(|&b| if b { '1' } else { '0' }).collect())
        .collect()
}

fn names(n: usize) -> Vec<String> {
    (0..n).map(|i| ((b'a' + i as u8) as char).to_string()).collect()
}

#[test]
fn scenario_three_inputs_two_outputs() {
    let t = table(3, &["01", "10", "11", "00", "11", "01", "11", "00"]);
    let eqs = minimize(&t, vec!["x", "y"]).unwrap();
    assert_eq!(eqs.len(), 2);
    assert_eq!(true_rows(&eqs[0], 3), vec!["001", "010", "100", "110"]);
    assert_eq!(true_rows(&eqs[1], 3), vec!["000", "010", "100", "101", "110"]);
    assert_eq!(eqs[0].varname, "x");
    assert_eq!(eqs[1].index, 1);
    let x = eqs[0].render(&names(3)).unwrap();
    assert_eq!(x, "x = a'b'c + bc' + ac' + ;");
    let y = eqs[1].render(&names(3)).unwrap();
    assert_eq!(y, "y = ab' + c' + ;");
}

#[test]
fn scenario_constant_function() {
    let t = table(1, &["1", "1"]);
    let eqs = minimize(&t, vec!["x"]).unwrap();
    assert_eq!(eqs[0].terms.len(), 1);
    assert_eq!(eqs[0].terms[0].len(), 0);
}

#[test]
fn scenario_single_true_row() {
    let t = table(2, &["0", "0", "1", "0"]);
    let eqs = minimize(&t, vec!["x"]).unwrap();
    assert_eq!(eqs[0].terms.len(), 1);
    assert_eq!(eqs[0].terms[0].variables(), vec![(0, true), (1, false)]);
    let pis = prime_implicants(&vec![Term::new(vec![(0, true), (1, false)])]);
    assert_eq!(pis.len(), 1);
    assert_eq!(pis[0].variables(), vec![(0, true), (1, false)]);
}

#[test]
fn constant_false_has_no_terms() {
    let t = table(2, &["0", "0", "0", "0"]);
    let eqs = minimize(&t, vec!["x"]).unwrap();
    assert!(eqs[0].terms.is_empty());
}

#[test]
fn minimized_equations_reproduce_every_row() {
    let outs = ["101", "011", "110", "000", "111", "001", "100", "010", "011", "110", "101", "000", "111",
        "001", "010", "100"];
    let t = table(4, &outs);
    let eqs = minimize(&t, vec!["p", "q", "r"]).unwrap();
    for (v, o) in outs.iter().enumerate() {
        let x = bits(v as u32, 4);
        for (e, c) in o.chars().enumerate() {
            assert_eq!(eval(&eqs[e].terms, &x), c == '1');
        }
    }
}

#[test]
fn no_term_can_be_dropped() {
    let outs = ["1", "1", "0", "1", "1", "1", "1", "0"];
    let t = table(3, &outs);
    let eqs = minimize(&t, vec!["x"]).unwrap();
    let terms = &eqs[0].terms;
    for p in 0..terms.len() {
        let rest: Vec<Term> = terms.iter().enumerate().filter(|(q, _)| *q != p).map(|(_, t)| t.copy()).collect();
        let broken = (0..8u32).any(|v| {
            let x = bits(v, 3);
            eval(&rest, &x) != (outs[v as usize] == "1")
        });
        assert!(broken);
    }
}

#[test]
fn prime_implicants_merge_level_by_level() {
    let ms = vec![
        Term::new(vec![(0, false), (1, false)]),
        Term::new(vec![(0, false), (1, true)]),
        Term::new(vec![(0, true), (1, false)]),
        Term::new(vec![(0, true), (1, true)]),
    ];
    let pis = prime_implicants(&ms);
    assert_eq!(pis.len(), 1);
    assert_eq!(pis[0].len(), 0);
    let two = vec![Term::new(vec![(0, false), (1, true)]), Term::new(vec![(0, true), (1, true)])];
    let pis = prime_implicants(&two);
    assert_eq!(pis.len(), 1);
    assert_eq!(pis[0].variables(), vec![(1, true)]);
    assert!(prime_implicants(&vec![]).is_empty());
}

#[test]
fn prime_implicants_drop_repeats() {
    let ms = vec![Term::new(vec![(0, true)]), Term::new(vec![(0, true)])];
    let pis = prime_implicants(&ms);
    assert_eq!(pis.len(), 1);
}

#[test]
fn select_cover_keeps_essential_implicants() {
    // Minterms 001, 010, 100, 110; candidates a'b'c, bc', ac' are all essential.
    let ms = vec![
        Term::new(vec![(0, false), (1, false), (2, true)]),
        Term::new(vec![(0, false), (1, true), (2, false)]),
        Term::new(vec![(0, true), (1, false), (2, false)]),
        Term::new(vec![(0, true), (1, true), (2, false)]),
    ];
    let cands = vec![
        Term::new(vec![(0, false), (1, false), (2, true)]),
        Term::new(vec![(1, true), (2, false)]),
        Term::new(vec![(0, true), (2, false)]),
    ];
    let cover = select_cover(&cands, &ms);
    assert_eq!(cover.len(), 3);
}

#[test]
fn select_cover_skips_useless_candidates() {
    // Minterms 00, 01, 11; a' and b are each the only cover of one, ab' covers none.
    let ms = vec![
        Term::new(vec![(0, false), (1, false)]),
        Term::new(vec![(0, false), (1, true)]),
        Term::new(vec![(0, true), (1, true)]),
    ];
    let cands = vec![
        Term::new(vec![(0, true), (1, false)]),
        Term::new(vec![(0, false)]),
        Term::new(vec![(1, true)]),
    ];
    let cover = select_cover(&cands, &ms);
    let got: Vec<Vec<(usize, bool)>> = cover.iter().map(|t| t.variables()).collect();
    assert_eq!(got, vec![vec![(0, false)], vec![(1, true)]]);
}

#[test]
fn select_cover_leaves_out_covered_cubes() {
    // Minterms 000, 001, 011, 111 with candidates a'b', a'c, bc:
    // a'b' and bc are essential and cover everything, so a'c is left out.
    let ms = vec![
        Term::new(vec![(0, false), (1, false), (2, false)]),
        Term::new(vec![(0, false), (1, false), (2, true)]),
        Term::new(vec![(0, false), (1, true), (2, true)]),
        Term::new(vec![(0, true), (1, true), (2, true)]),
    ];
    let cands = vec![
        Term::new(vec![(0, false), (1, false)]),
        Term::new(vec![(0, false), (2, true)]),
        Term::new(vec![(1, true), (2, true)]),
    ];
    let cover = select_cover(&cands, &ms);
    let got: Vec<Vec<(usize, bool)>> = cover.iter().map(|t| t.variables()).collect();
    assert_eq!(got, vec![vec![(0, false), (1, false)], vec![(1, true), (2, true)]]);
}

#[test]
fn simplify_keeps_the_function() {
    let mut eq = Equation {
        index: 0,
        terms: vec![
            Term::new(vec![(0, false), (1, false)]),
            Term::new(vec![(0, false), (1, true)]),
            Term::new(vec![(0, true), (1, true)]),
        ],
        varname: "f".to_string(),
    };
    eq.simplify();
    assert_eq!(eq.terms.len(), 2);
    assert_eq!(true_rows(&eq, 2), vec!["00", "01", "11"]);
    assert_eq!(eq.render(&names(2)), Some("f = a' + b + ;".to_string()));
    assert_eq!(eq.render(&names(1)), None);
}

#[test]
fn cyclic_cover_takes_the_largest_then_smallest_cube() {
    // f = 000 + 001 + 010 + 101 + 110 + 111 has six prime implicants and none essential.
    let rows = [0u32, 1, 2, 5, 6, 7];
    let ms: Vec<Term> = rows
        .iter()
        .map(|&v| Term::new(bits(v, 3).iter().enumerate().map(|(i, &b)| (i, b)).collect()))
        .collect();
    let pis = prime_implicants(&ms);
    let got: Vec<Vec<(usize, bool)>> = pis.iter().map(|t| t.variables()).collect();
    assert_eq!(
        got,
        vec![
            vec![(0, false), (1, false)],
            vec![(0, false), (2, false)],
            vec![(1, false), (2, true)],
            vec![(1, true), (2, false)],
            vec![(0, true), (2, true)],
            vec![(0, true), (1, true)],
        ]
    );
    let cover = select_cover(&pis, &ms);
    let got: Vec<Vec<(usize, bool)>> = cover.iter().map(|t| t.variables()).collect();
    assert_eq!(
        got,
        vec![
            vec![(0, false), (1, false)],
            vec![(0, false), (2, false)],
            vec![(0, true), (2, true)],
            vec![(0, true), (1, true)],
        ]
    );
}
