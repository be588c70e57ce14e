use mask_regions::color::{hue_key, Rgba};
use mask_regions::grid::default_step;
use mask_regions::ident::hue_name;
use mask_regions::mask::Mask;

fn opaque(r: u8, g: u8, b: u8) -> Rgba {
    Rgba { r, g, b, a: 255 }
}

#[test]
fn hue_keys_of_primary_colors() {
    assert_eq!(hue_key(opaque(255, 0, 0)), 0);
    assert_eq!(hue_key(opaque(0, 255, 0)), 120000);
    assert_eq!(hue_key(opaque(0, 0, 255)), 240000);
}

#[test]
fn hue_key_of_gray_is_zero() {
    assert_eq!(hue_key(opaque(77, 77, 77)), 0);
    assert_eq!(hue_key(opaque(0, 0, 0)), 0);
    assert_eq!(hue_key(opaque(255, 255, 255)), 0);
}

#[test]
fn hue_key_rounds_toward_zero_in_each_sector() {
    // 60000 * 128 / 255 truncates to 30117 millidegrees.
    assert_eq!(hue_key(opaque(255, 128, 0)), 30117);
    // Red toward magenta wraps below 360 degrees.
    assert_eq!(hue_key(opaque(255, 0, 128)), 360000 - 30117);
    // Cyan-side blue.
    assert_eq!(hue_key(opaque(0, 128, 255)), 240000 - 30117);
}

#[test]
fn hue_names_are_canonical() {
    assert_eq!(hue_name(0), "0.000");
    assert_eq!(hue_name(120000), "120.000");
    assert_eq!(hue_name(30117), "30.117");
    assert_eq!(hue_name(329883), "329.883");
    assert_eq!(hue_name(5), "0.005");
    assert_eq!(hue_name(1050), "1.050");
    assert_eq!(hue_name(359999), "359.999");
}

#[test]
fn distinct_hues_get_distinct_names() {
    let mut names = Vec::new();
    for h in [0u32, 1, 999, 1000, 1001, 10000, 100000, 359999] {
        names.push(hue_name(h));
    }
    for i in 0..names.len() {
        for j in 0..names.len() {
            if i != j {
                assert_ne!(names[i], names[j]);
            }
        }
    }
}

#[test]
fn default_step_is_a_hundredth_of_the_narrow_side() {
    assert_eq!(default_step(200, 200), 2);
    assert_eq!(default_step(10000, 300), 3);
    assert_eq!(default_step(300, 10000), 3);
    assert_eq!(default_step(100, 100), 1);
    assert_eq!(default_step(199, 5000), 1);
}

#[test]
fn default_step_never_reaches_zero() {
    assert_eq!(default_step(50, 500), 1);
    assert_eq!(default_step(1, 1), 1);
    assert_eq!(default_step(99, 99), 1);
}

#[test]
fn mask_new_rejects_bad_shapes() {
    let pixels = vec![opaque(0, 0, 0); 6];
    assert!(Mask::new(0, 6, pixels.clone()).is_none());
    assert!(Mask::new(6, 0, pixels.clone()).is_none());
    assert!(Mask::new(4, 2, pixels.clone()).is_none());
    assert!(Mask::new(2, 3, pixels).is_some());
}

#[test]
fn mask_get_respects_bounds() {
    let mut pixels = vec![Rgba { r: 0, g: 0, b: 0, a: 0 }; 6];
    pixels[5] = opaque(1, 2, 3);
    let mask = Mask::new(3, 2, pixels).unwrap();
    assert_eq!(mask.get(2, 1), Some(opaque(1, 2, 3)));
    assert_eq!(mask.get(0, 0), Some(Rgba { r: 0, g: 0, b: 0, a: 0 }));
    assert_eq!(mask.get(3, 0), None);
    assert_eq!(mask.get(0, 2), None);
}
