use conway_life::torus::wrapped;

#[test]
fn test_wrapped() {
    assert_eq!(wrapped(1, 1, 5), 2);
    assert_eq!(wrapped(1, -1, 5), 0);
    assert_eq!(wrapped(0, -1, 5), 4);
    assert_eq!(wrapped(0, -2, 5), 3);
    assert_eq!(wrapped(0, -11, 5), 4);
    assert_eq!(wrapped(0, -10, 5), 0);
    assert_eq!(wrapped(1, -11, 5), 0);
    assert_eq!(wrapped(2, -11, 5), 1);
}

#[test]
fn wrapped_steps_across_both_edges() {
    assert_eq!(wrapped(0, -1, 5), 4);
    assert_eq!(wrapped(4, 1, 5), 0);
    assert_eq!(wrapped(3, 0, 5), 3);
}

#[test]
fn wrapped_matches_modular_arithmetic() {
    for m in [1usize, 2, 3, 4, 5, 7, 16, 100] {
        for w in 0..m {
            for offs in [-1isize, 0, 1] {
                let got = wrapped(w, offs, m);
                let want = (w as i64 + offs as i64).rem_euclid(m as i64) as usize;
                assert!(got < m);
                assert_eq!(got, want);
            }
        }
    }
}

#[test]
fn wrapped_takes_any_offset() {
    for m in [1usize, 3, 8, 11] {
        for w in 0..(3 * m) {
            for offs in -40isize..40 {
                let want = (w as i64 + offs as i64).rem_euclid(m as i64) as usize;
                assert_eq!(wrapped(w, offs, m), want);
            }
        }
    }
}

#[test]
fn wrapped_survives_the_extremes() {
    let big = usize::MAX;
    assert_eq!(wrapped(big, 1, big), 1);
    assert_eq!(wrapped(big, isize::MAX, 1), 0);
    assert_eq!(wrapped(0, isize::MIN, 2), 0);
    assert_eq!(wrapped(1, isize::MIN, 2), 1);
    assert_eq!(wrapped(0, isize::MIN, 3), (3 - ((1u128 << (usize::BITS - 1)) % 3) as usize) % 3);
    assert_eq!(wrapped(big, isize::MAX, big), (isize::MAX as usize) % big);
    assert_eq!(wrapped(big - 1, 2, big), 1);
}
