use minterm::bit::Bit;
use minterm::term::Term;

#[test]
fn term_merge() {
    let t1 = Term::new(vec![(0, false), (1, false), (2, false)]);
    let t2 = Term::new(vec![(0, false), (1, true), (2, false)]);
    let t3 = Term::new(vec![(0, false), (1, true), (2, false), (3, true)]);
    let t4 = Term::new(vec![(0, false), (1, true), (2, false), (3, false)]);
    assert!(t1.mergeable(&t2));
    assert!(!t1.mergeable(&t3));
    assert!(!t1.mergeable(&t4));
    assert!(t2.mergeable(&t1));
    assert!(!t2.mergeable(&t3));
    assert!(!t2.mergeable(&t4));
    assert!(!t3.mergeable(&t1));
    assert!(!t3.mergeable(&t2));
    assert!(t3.mergeable(&t4));
    assert!(!t4.mergeable(&t1));
    assert!(!t4.mergeable(&t2));
    assert!(t4.mergeable(&t3));
}

#[test]
fn mergeable_needs_exactly_one_opposite() {
    let a = Term::new(vec![(0, false), (1, false)]);
    let b = Term::new(vec![(0, true), (1, true)]);
    let c = Term::new(vec![(0, false), (1, false)]);
    let d = Term::new(vec![(0, false), (2, true)]);
    assert!(!a.mergeable(&b));
    assert!(!a.mergeable(&c));
    assert!(!a.mergeable(&d));
    assert!(!d.mergeable(&a));
}

#[test]
fn mergeable_is_symmetric_on_examples() {
    let ts = vec![
        Term::new(vec![(0, false), (1, false)]),
        Term::new(vec![(0, true), (1, false)]),
        Term::new(vec![(0, true), (1, true)]),
        Term::new(vec![(1, true)]),
        Term::new(vec![(1, false)]),
        Term::new(vec![]),
    ];
    for a in ts.iter() {
        for b in ts.iter() {
            assert_eq!(a.mergeable(b), b.mergeable(a));
        }
    }
}

#[test]
fn merge_drops_the_opposite_variable() {
    let a = Term::new(vec![(0, false), (1, true), (2, false)]);
    let b = Term::new(vec![(0, false), (1, false), (2, false)]);
    let m = a.merge(&b);
    assert_eq!(m.variables(), vec![(0, false), (2, false)]);
    assert_eq!(m.len(), a.len() - 1);
    assert_eq!(b.merge(&a).variables(), vec![(0, false), (2, false)]);
}

fn covers(t: &Term, x: &[bool]) -> bool {
    t.variables().iter().all(|&(i, b)| i < x.len() && x[i] == b)
}

#[test]
fn merge_covers_exactly_the_union() {
    let a = Term::new(vec![(0, true), (1, false), (2, true)]);
    let b = Term::new(vec![(0, true), (1, true), (2, true)]);
    let m = a.merge(&b);
    for v in 0..8u32 {
        let x = [v & 4 != 0, v & 2 != 0, v & 1 != 0];
        assert_eq!(covers(&m, &x), covers(&a, &x) || covers(&b, &x));
    }
}

#[test]
fn compute_builds_the_minterm() {
    let t = Term::compute(&vec![Bit::On, Bit::Off, Bit::On]);
    assert_eq!(t.variables(), vec![(0, true), (1, false), (2, true)]);
    assert_eq!(t.len(), 3);
    assert_eq!(Term::compute(&vec![]).len(), 0);
}

#[test]
fn same_compares_variables() {
    let a = Term::new(vec![(0, true), (2, false)]);
    assert!(a.same(&a.copy()));
    assert!(!a.same(&Term::new(vec![(0, true), (2, true)])));
    assert!(!a.same(&Term::new(vec![(0, true)])));
}

#[test]
fn lex_less_orders_by_index_then_polarity() {
    let a = Term::new(vec![(0, false), (1, true)]);
    let b = Term::new(vec![(0, true), (1, false)]);
    let c = Term::new(vec![(0, false)]);
    let d = Term::new(vec![(1, false)]);
    assert!(a.lex_less(&b));
    assert!(!b.lex_less(&a));
    assert!(c.lex_less(&a));
    assert!(!a.lex_less(&c));
    assert!(a.lex_less(&d));
    assert!(!a.lex_less(&a));
}

#[test]
fn render_uses_the_given_names() {
    let names: Vec<String> = vec!["a".to_string(), "b".to_string(), "c".to_string()];
    let t = Term::new(vec![(0, false), (1, true), (2, false)]);
    assert_eq!(t.render(&names), Some("a'bc'".to_string()));
    let far = Term::new(vec![(3, true)]);
    assert_eq!(far.render(&names), None);
    assert_eq!(Term::new(vec![]).render(&names), Some(String::new()));
}

#[test]
fn bit_symbols() {
    assert_eq!(Bit::new(true), Bit::On);
    assert_eq!(Bit::new(false), Bit::Off);
    assert_eq!(Bit::On.symbol(), '1');
    assert_eq!(Bit::Off.symbol(), '0');
    assert_eq!(Bit::NA.symbol(), 'x');
}
