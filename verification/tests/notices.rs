use kyuko_bot::{dec_string, Periods};

fn disp(p: &[u8]) -> String {
    Periods::from_vec(p.to_vec()).display_string()
}

#[test]
fn periods_display() {
    assert_eq!(&disp(&[]), "");
    assert_eq!(&disp(&[1]), "1");
    assert_eq!(&disp(&[1, 2]), "1-2");
    assert_eq!(&disp(&[1, 2, 3]), "1-3");
    assert_eq!(&disp(&[1, 3]), "1,3");
    assert_eq!(&disp(&[1, 3, 5]), "1,3,5");
    assert_eq!(&disp(&[1, 2, 3, 5]), "1-3,5");
    assert_eq!(&disp(&[1, 3, 4, 5]), "1,3-5");
    assert_eq!(&disp(&[1, 3, 4, 6]), "1,3-4,6");
    assert_eq!(&disp(&[6, 4, 1, 2]), "1-2,4,6");
}

#[test]
fn periods_from_vec_sorts_and_dedups() {
    let p = Periods::from_vec(vec![5, 1, 3, 1, 5]);
    assert_eq!(*p.as_slice(), vec![1, 3, 5]);
    assert_eq!(p, Periods::from_vec(vec![1, 3, 5]));
}

#[test]
fn decimal_strings() {
    assert_eq!(&dec_string(0), "0");
    assert_eq!(&dec_string(7), "7");
    assert_eq!(&dec_string(42), "42");
    assert_eq!(&dec_string(90071), "90071");
}
