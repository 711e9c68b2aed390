use ulam::sieve::sieve_gen;
use ulam::table::PrimeTable;

#[test]
fn zero_and_one_never_prime() {
    for bound in [2usize, 3, 4, 10, 97, 500] {
        let t = sieve_gen(bound);
        assert_eq!(t.len(), bound);
        assert!(!t.get(0));
        assert!(!t.get(1));
    }
}

#[test]
fn agrees_with_trial_division_up_to_sqrt() {
    let bound = 60usize;
    let t = sieve_gen(bound);
    for i in 2..bound {
        let mut composite = false;
        let mut d = 2usize;
        while d * d <= i {
            if i % d == 0 {
                composite = true;
            }
            d += 1;
        }
        assert_eq!(t.get(i), !composite, "mismatch at {i}");
    }
}

#[test]
fn bound_ten_marks_exactly_2_3_5_7() {
    let t = sieve_gen(10);
    assert_eq!(t.len(), 10);
    for i in 0..10 {
        let expected = i == 2 || i == 3 || i == 5 || i == 7;
        assert_eq!(t.get(i), expected, "mismatch at {i}");
    }
}

#[test]
fn regrowth_keeps_every_earlier_answer() {
    let small = sieve_gen(30);
    let large = sieve_gen(100);
    for i in 0..30 {
        assert_eq!(small.get(i), large.get(i), "mismatch at {i}");
    }
}

#[test]
fn table_repeat_set_get_round_trip() {
    let mut t = PrimeTable::repeat(true, 5);
    assert_eq!(t.len(), 5);
    for i in 0..5 {
        assert!(t.get(i));
    }
    t.set(2, false);
    for i in 0..5 {
        assert_eq!(t.get(i), i != 2);
    }
    t.set(2, true);
    assert!(t.get(2));

    let f = PrimeTable::repeat(false, 3);
    assert_eq!(f.len(), 3);
    for i in 0..3 {
        assert!(!f.get(i));
    }
}
