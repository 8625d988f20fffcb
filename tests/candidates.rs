use rustdoku::candidates::Candidates;

#[test]
fn get_value() {
    let c = Candidates::new(true);
    assert_eq!(c.value(), 511);
    assert_eq!(c.get(5), true);
}

#[test]
fn set_value() {
    let mut c = Candidates::new(true);
    c.unset_all();
    c.set(4);
    assert_eq!(c.get(0), false);
    assert_eq!(c.get(4), true);
}

#[test]
fn mega_test() {
    let mut c = Candidates::new(true);
    assert!(c.some());
    c.unset_all();
    assert!(c.none());
    assert_eq!(c.count(), 0);
    c.set_all();
    assert!(c.some());
    assert_eq!(c.count(), 9);
    for i in 0..9 {
        assert!(c.get(i));
        c.unset(i);
        c.unset(i);
        assert!(!c.get(i));
        c.set(i);
        c.set(i);
        assert!(c.get(i));
    }
    assert!(c.some());
}

#[test]
fn candidates_bits_follow_digits() {
    let mut c = Candidates::new(false);
    assert_eq!(c.value(), 0);
    assert!(c.none());
    c.set(0);
    c.set(8);
    assert_eq!(c.value(), 257);
    assert_eq!(c.count(), 2);
    c.unset(0);
    assert_eq!(c.value(), 256);
    assert_eq!(c.count(), 1);
    assert!(!c.get(0));
    assert!(c.get(8));
}

#[test]
fn some_and_none_follow_the_value() {
    let mut c = Candidates::new(false);
    assert!(c.none() && !c.some() && c.value() == 0);
    c.set(7);
    assert!(c.some() && !c.none() && c.value() != 0);
    c.set_all();
    assert!(c.count() <= 9);
}
