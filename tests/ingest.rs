use minterm::equation::equations;
use minterm::ingest::{parse, records_to_table, ParseError};

fn example_head() -> String {
    let s = ",COMPONENTS,,,HAVE,,,,,REQUIRED_VARS includes,,,\n".to_string()
        + "REQUIRED,OGL,GLX,EGL,OGL,GLX,EGL,GL,,OGL,GLX,EGL,GL\n"
        + "0,0,0,0,0,0,0,0,,1,1,0,0\n"
        + "0,0,0,0,0,0,0,1,,0,0,0,1\n";
    s
}

fn small_example() -> String {
    let s = "0,0,0,,0,1\n".to_string()
        + "0,0,1,,1,0\n"
        + "0,1,0,,1,1\n"
        + "0,1,1,,0,0\n"
        + "1,0,0,,1,1\n"
        + "1,0,1,,0,1\n"
        + "1,1,0,,1,1\n"
        + "1,1,1,,0,0\n";
    s
}

#[test]
fn read_test() {
    let eg = example_head();
    let tbl = parse(eg.as_bytes(), 2, 8, 4).unwrap();
    // should be the same number of lines:
    assert_eq!(tbl.len(), 2);
}

#[test]
fn parse_small() {
    let small = small_example();
    let truth = parse(small.as_bytes(), 0, 3, 2).unwrap();
    assert_eq!(truth.len(), 8);
}

#[test]
fn small_simplify() {
    let small = small_example();
    let truth = parse(small.as_bytes(), 0, 3, 2).unwrap();
    assert_eq!(truth.len(), 8);
    let mut eqns = equations(&truth, vec!["foo", "bar"]).unwrap();
    assert_eq!(eqns.len(), truth.table[0].output.len());
    let names: Vec<String> = vec!["a".to_string(), "b".to_string(), "c".to_string()];
    for e in 0..eqns.len() {
        println!("{}", eqns[e].render(&names).unwrap());
        eqns[e].simplify();
    }
}

#[test]
fn parse_takes_leftmost_inputs_and_rightmost_outputs() {
    let truth = parse("1,0,9,,x,7\n".as_bytes(), 0, 2, 2).unwrap();
    assert_eq!(truth.len(), 1);
    assert_eq!(truth.solution(vec![true, false]), Some(vec![false, true]));
    let e = &truth.table[0];
    assert_eq!(e.output, vec![false, true]);
}

#[test]
fn parse_counts_non_numbers_as_clear() {
    let truth = parse("a,-3,\n".as_bytes(), 0, 2, 1).unwrap();
    assert_eq!(truth.solution(vec![false, true]), Some(vec![false]));
}

#[test]
fn parse_reports_short_records() {
    let r = parse("1,0\n1\n".as_bytes(), 0, 2, 1);
    assert_eq!(r.err(), Some(ParseError::Malformed(2)));
    let s = parse("1,0\n".as_bytes(), 0, 3, 1);
    assert_eq!(s.err(), Some(ParseError::Short(1)));
}

#[test]
fn parse_skips_header_records() {
    let r = parse("h,h\n1,1\n".as_bytes(), 1, 1, 1).unwrap();
    assert_eq!(r.len(), 1);
    let none = parse("h\n".as_bytes(), 3, 1, 1).unwrap();
    assert_eq!(none.len(), 0);
}

#[test]
fn records_to_table_builds_rows() {
    let recs = vec![
        Ok(vec!["0".to_string(), "1".to_string(), "1".to_string()]),
        Ok(vec!["1".to_string(), "0".to_string(), "0".to_string()]),
    ];
    let t = records_to_table(&recs, 0, 2, 1).unwrap();
    assert_eq!(t.len(), 2);
    assert_eq!(t.solution(vec![false, true]), Some(vec![true]));
    assert_eq!(t.solution(vec![true, false]), Some(vec![false]));
    let short = vec![Ok(vec!["0".to_string()])];
    assert_eq!(records_to_table(&short, 0, 2, 1).err(), Some(ParseError::Short(1)));
}
