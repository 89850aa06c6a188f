use allcolors::color::{color_base_to_color, make_bases, make_offsets, scale_component, ColorBase, ColorOffset};

#[test]
fn scaling_ends_for_color_size_four() {
    assert_eq!(scale_component(3, 4), 255);
    assert_eq!(scale_component(0, 4), 0);
    assert_eq!(scale_component(1, 4), 85);
    assert_eq!(scale_component(2, 4), 170);
}

#[test]
fn scaling_is_monotonic() {
    for cs in [4u64, 9, 16, 144, 256] {
        let mut prev = 0u8;
        for c in 0..cs {
            let v = scale_component(c as u8, cs);
            assert!(v >= prev);
            prev = v;
        }
        assert_eq!(prev, 255);
    }
}

#[test]
fn scaling_rounds_to_nearest() {
    // 255 / 143 = 1.78..., which rounds to 2.
    assert_eq!(scale_component(1, 144), 2);
    // 2 * 255 / 143 = 3.56..., which rounds to 4.
    assert_eq!(scale_component(2, 144), 4);
    // 255 / 8 = 31.875, which rounds to 32.
    assert_eq!(scale_component(1, 9), 32);
}

#[test]
fn color_base_scales_each_component() {
    let cb = ColorBase { r: 3, g: 0, b: 2 };
    assert_eq!(color_base_to_color(cb, 4), [255, 0, 170]);
}

#[test]
fn bases_follow_mixed_radix_order() {
    let bases = make_bases(2);
    assert_eq!(bases.len(), 64);
    assert_eq!(bases[0], ColorBase { r: 0, g: 0, b: 0 });
    assert_eq!(bases[5], ColorBase { r: 1, g: 1, b: 0 });
    assert_eq!(bases[63], ColorBase { r: 3, g: 3, b: 3 });
    for i in 0..bases.len() {
        for j in 0..i {
            assert_ne!(bases[i], bases[j]);
        }
    }
}

#[test]
fn offsets_are_sign_variants_sorted_by_magnitude() {
    let bases = make_bases(2);
    let offs = make_offsets(&bases);
    assert_eq!(offs.len(), 8 * 64);
    let mag = |o: &ColorOffset| {
        let (a, b, c) = (o.dr as i64, o.dg as i64, o.db as i64);
        a * a + b * b + c * c
    };
    for w in offs.windows(2) {
        assert!(mag(&w[0]) <= mag(&w[1]));
        assert_eq!(w[0].magnitude_sq(), mag(&w[0]));
    }
    // the zero offset comes from the eight variants of black
    for o in &offs[0..8] {
        assert_eq!(*o, ColorOffset { dr: 0, dg: 0, db: 0 });
    }
    assert!(offs.contains(&ColorOffset { dr: -3, dg: 2, db: -1 }));
    let last = offs.last().unwrap();
    assert_eq!(mag(last), 27);
    assert_eq!(offs.iter().filter(|o| mag(o) == 27).count(), 8);
}
