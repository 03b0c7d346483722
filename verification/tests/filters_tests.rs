use simple_samplerate::filters::{build_sinc, FractionalPosition};
use simple_samplerate::sample::{Sample, FRAC_ONE};

fn collect_positions(mut f: FractionalPosition) -> Vec<u32> {
    let mut v = Vec::new();
    while let Some(n) = f.next() {
        v.push(n);
    }
    v
}

#[test]
fn pos_iter_test() {
    // Fractions over denominator 4: 0.0, 0.75, 0.5, 0.25.
    let f = FractionalPosition::new(7, 4);
    assert_eq!(collect_positions(f).as_slice(), &[0, 3, 2, 1]);
    // Fractions over denominator 8: 0.0, 0.125, ... 0.875.
    let f = FractionalPosition::new(1, 8);
    assert_eq!(collect_positions(f).as_slice(), &[0, 1, 2, 3, 4, 5, 6, 7]);
}

#[test]
fn pos_iter_ends_after_cycle() {
    let mut f = FractionalPosition::new(2, 4);
    // Period is 4 / gcd(2, 4) == 2.
    assert_eq!(f.next(), Some(0));
    assert_eq!(f.next(), Some(2));
    assert_eq!(f.next(), None);
    assert_eq!(f.next(), None);
}

#[test]
fn build_sinc_test() {
    let filters = build_sinc(3, 3, 4);
    println!("{:?}", filters);
    // One 3-tap phase per fractional position: 4 / gcd(3, 4) == 4 phases.
    assert_eq!(filters.len(), 12);
}

#[test]
fn build_sinc_integer_alignment() {
    // At equal rates there is a single phase; the sinc is exactly one at
    // its center tap and exactly zero at the other integer positions.
    let filters = build_sinc(9, 1, 1);
    assert_eq!(filters.len(), 9);
    for s in 0..9 {
        if s == 4 {
            assert_eq!(filters[s], FRAC_ONE);
        } else {
            assert_eq!(filters[s], 0);
        }
    }
}

#[test]
fn sample_test() {
    assert_eq!(32767i16.normailze(), FRAC_ONE);
    assert_eq!((-32767i16).normailze(), -FRAC_ONE);
    assert_eq!(0i16.normailze(), 0);
    assert_eq!(i16::full(FRAC_ONE), 32767);
    assert_eq!(i16::full(-FRAC_ONE), -32767);
    assert_eq!(i16::full(0), 0);

    assert_eq!(65535u16.normailze(), FRAC_ONE);
    assert_eq!(1u16.normailze(), -FRAC_ONE);
    assert_eq!(32768u16.normailze(), 0);
    assert_eq!(u16::full(FRAC_ONE), 65535u16);
    assert_eq!(u16::full(-FRAC_ONE), 1);
    assert_eq!(u16::full(0), 32768u16);
}

#[test]
fn sample_saturates() {
    // Values beyond full scale saturate at the type's bounds.
    assert_eq!(i16::full(3 * FRAC_ONE), i16::MAX);
    assert_eq!(i16::full(-3 * FRAC_ONE), i16::MIN);
    assert_eq!(u16::full(3 * FRAC_ONE), u16::MAX);
    assert_eq!(u16::full(-3 * FRAC_ONE), 0);
    assert_eq!(i16::offset(), 0);
    assert_eq!(u16::offset(), 32768);
}

#[test]
fn sample_roundtrip() {
    for v in [-32767i16, -12345, -1, 0, 1, 777, 32767] {
        assert_eq!(i16::full(v.normailze()), v);
    }
    for v in [1u16, 99, 32768, 40000, 65535] {
        assert_eq!(u16::full(v.normailze()), v);
    }
}
