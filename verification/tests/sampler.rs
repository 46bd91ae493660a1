use mandel::sampler::{halton, halton23, recentre, sample_offsets, Fraction, Offset};

fn value(f: Fraction) -> f32 {
    f.num as f32 / f.den as f32
}

#[test]
fn halton_of_index_zero_is_zero_in_every_base() {
    for base in [2u32, 3, 5, 7, 10, 16, 1000, u32::MAX] {
        let f = halton(0, base);
        assert_eq!(f, Fraction { num: 0, den: 1 });
        assert_eq!(value(f), 0.0);
    }
}

#[test]
fn halton_base_two_first_values() {
    assert_eq!(halton(1, 2), Fraction { num: 1, den: 2 });
    assert_eq!(halton(2, 2), Fraction { num: 1, den: 4 });
    assert_eq!(halton(3, 2), Fraction { num: 3, den: 4 });
    assert_eq!(value(halton(1, 2)), 0.5);
    assert_eq!(value(halton(2, 2)), 0.25);
    assert_eq!(value(halton(3, 2)), 0.75);
    assert_eq!(value(halton(4, 2)), 0.125);
    assert_eq!(value(halton(5, 2)), 0.625);
    assert_eq!(value(halton(6, 2)), 0.375);
    assert_eq!(value(halton(7, 2)), 0.875);
}

#[test]
fn halton_base_three_mirrors_the_digits() {
    assert_eq!(halton(1, 3), Fraction { num: 1, den: 3 });
    assert_eq!(halton(2, 3), Fraction { num: 2, den: 3 });
    assert_eq!(halton(3, 3), Fraction { num: 1, den: 9 });
    assert_eq!(halton(4, 3), Fraction { num: 4, den: 9 });
    // 5 is 12 in base 3, mirrored 0.21: 2/3 + 1/9.
    assert_eq!(halton(5, 3), Fraction { num: 7, den: 9 });
    // 10 is 101 in base 3, mirrored 0.101: 1/3 + 1/27.
    assert_eq!(halton(10, 3), Fraction { num: 10, den: 27 });
}

#[test]
fn halton_in_base_ten_reverses_the_decimal_digits() {
    assert_eq!(halton(123, 10), Fraction { num: 321, den: 1000 });
    assert_eq!(halton(120, 10), Fraction { num: 21, den: 1000 });
    assert_eq!(halton(7, 10), Fraction { num: 7, den: 10 });
}

#[test]
fn halton_lies_in_the_unit_interval() {
    for base in 2..12u32 {
        for index in 0..500u32 {
            let f = halton(index, base);
            assert!(f.den > 0);
            assert!(f.num < f.den);
        }
    }
}

#[test]
fn halton_takes_the_largest_index_and_base() {
    let f = halton(u32::MAX, 2);
    assert_eq!(f, Fraction { num: (1u64 << 32) - 1, den: 1u64 << 32 });
    let g = halton(u32::MAX, u32::MAX);
    // u32::MAX is 10 in its own base, mirrored 0.01.
    assert_eq!(g, Fraction { num: 1, den: (u32::MAX as u64) * (u32::MAX as u64) });
}

#[test]
fn halton23_pairs_base_two_and_base_three() {
    for index in 0..100u32 {
        assert_eq!(halton23(index), (halton(index, 2), halton(index, 3)));
    }
    assert_eq!(halton23(5), (Fraction { num: 5, den: 8 }, Fraction { num: 7, den: 9 }));
}

#[test]
fn recentre_moves_down_by_a_half() {
    assert_eq!(recentre(Fraction { num: 0, den: 1 }), Offset { num: -1, den: 2 });
    assert_eq!(recentre(Fraction { num: 1, den: 2 }), Offset { num: 0, den: 4 });
    assert_eq!(recentre(Fraction { num: 3, den: 4 }), Offset { num: 2, den: 8 });
    assert_eq!(recentre(Fraction { num: 1, den: 9 }), Offset { num: -7, den: 18 });
}

#[test]
fn sample_offsets_are_the_recentred_halton_points() {
    let offsets = sample_offsets(4);
    assert_eq!(
        offsets,
        vec![
            (Offset { num: -1, den: 2 }, Offset { num: -1, den: 2 }),
            (Offset { num: 0, den: 4 }, Offset { num: -1, den: 6 }),
            (Offset { num: -2, den: 8 }, Offset { num: 1, den: 6 }),
            (Offset { num: 2, den: 8 }, Offset { num: -7, den: 18 }),
        ]
    );
    assert_eq!(sample_offsets(0), vec![]);
}

#[test]
fn sample_offsets_lie_within_half_a_unit_of_the_middle() {
    let offsets = sample_offsets(64);
    assert_eq!(offsets.len(), 64);
    for (x, y) in offsets {
        for o in [x, y] {
            let v = o.num as f32 / o.den as f32;
            assert!(-0.5 <= v && v < 0.5);
        }
    }
}

#[test]
fn sample_offsets_do_not_change_between_calls() {
    assert_eq!(sample_offsets(64), sample_offsets(64));
    let longer = sample_offsets(65);
    assert_eq!(&longer[..64], &sample_offsets(64)[..]);
}
