use minterm::gray::{gray_code, gray_code_r};

#[test]
fn gray_code_one_bit() {
    assert_eq!(gray_code(1), vec![vec![false], vec![true]]);
    assert_eq!(gray_code(0), vec![vec![false], vec![true]]);
}

#[test]
fn gray_code_two_and_three_bits() {
    let f = false;
    let t = true;
    assert_eq!(gray_code(2), vec![vec![f, f], vec![f, t], vec![t, t], vec![t, f]]);
    let g3 = gray_code(3);
    assert_eq!(g3.len(), 8);
    assert_eq!(g3[0], vec![f, f, f]);
    assert_eq!(g3[7], vec![t, f, f]);
    for w in g3.windows(2) {
        let d = w[0].iter().zip(w[1].iter()).filter(|(a, b)| a != b).count();
        assert_eq!(d, 1);
    }
}

#[test]
fn gray_code_r_reflects() {
    let g = vec![vec![true], vec![false]];
    assert_eq!(
        gray_code_r(g),
        vec![vec![false, true], vec![false, false], vec![true, false], vec![true, true]]
    );
    assert_eq!(gray_code_r(vec![]), Vec::<Vec<bool>>::new());
}
