use presolve::bounds::{Bounds, Locks, RowDomain};
use presolve::number::Real;
use presolve::queues::Worklist;
use presolve::results::{path, Kind};

fn num(x: f64) -> Real {
    Real::from_bits(x.to_bits())
}

const SAMPLES: [f64; 9] = [
    f64::NEG_INFINITY,
    -2.5,
    -f64::MIN_POSITIVE,
    -0.0,
    0.0,
    f64::MIN_POSITIVE,
    1.0,
    1e300,
    f64::INFINITY,
];

#[test]
fn comparisons_negations_and_extremes_follow_the_order_of_the_numbers() {
    for x in SAMPLES {
        assert_eq!(num(x).neg().neg(), num(x));
        assert_eq!(num(x).neg().to_bits(), (-x).to_bits());
        assert_eq!(num(x).abs().to_bits(), x.abs().to_bits());
        assert_eq!(num(x).is_negative(), x < 0.0);
        for y in SAMPLES {
            let (a, b) = (num(x), num(y));
            assert_eq!(a.less(b), x < y);
            assert_eq!(a.at_most(b), x <= y);
            assert_eq!(a.equals(b), x == y);
            assert_eq!(a.less(b), b.neg().less(a.neg()));
            assert!(a.less(b) || b.less(a) || a.equals(b));
            assert!(a.min(b).at_most(a.max(b)));
        }
        assert!(!num(x).less(num(f64::NAN)) && !num(f64::NAN).at_most(num(x)));
        assert_eq!(num(x).max(num(f64::NAN)), num(x));
        assert_eq!(num(f64::NAN).min(num(x)), num(x));
    }
}

#[test]
fn removed_locks_were_added_before() {
    let above = RowDomain::Linear(Bounds {
        lower: num(f64::NEG_INFINITY),
        upper: num(2.0),
    });
    let one = Locks::contribution(num(3.0), above);
    assert_eq!((one.up, one.down), (1, 0));
    let other = Locks::contribution(num(-3.0), above);
    let mut locks = one;
    locks.add(other);
    assert_eq!((locks.up, locks.down), (1, 1));
    locks.remove(other);
    assert_eq!(locks, one);
}

#[test]
fn scheduling_twice_waits_once() {
    let mut once = Worklist::new(3);
    once.push(2);
    let mut twice = Worklist::new(3);
    twice.push(2);
    twice.push(2);
    assert_eq!(once.take_round(), twice.take_round());
}

#[test]
fn run_names_stay_in_their_directory() {
    assert_eq!(path(Kind::Size, "v1.2_a").unwrap(), "size/v1.2_a.jsonl");
    assert!(path(Kind::Size, "../v1").is_err());
    assert!(path(Kind::Time, "a/b").is_err());
    assert!(path(Kind::Time, "").is_err());
}
