use mask_regions::color::Rgba;
use mask_regions::extract::{extract_regions, extract_regions_with_step, Region, SamplePoint};
use mask_regions::mask::Mask;

fn clear() -> Rgba {
    Rgba { r: 0, g: 0, b: 0, a: 0 }
}

fn red() -> Rgba {
    Rgba { r: 255, g: 0, b: 0, a: 255 }
}

fn green() -> Rgba {
    Rgba { r: 0, g: 255, b: 0, a: 255 }
}

fn blank(width: u32, height: u32) -> Vec<Rgba> {
    let mut pixels = Vec::new();
    for _ in 0..width * height {
        pixels.push(clear());
    }
    pixels
}

fn put(pixels: &mut Vec<Rgba>, width: u32, x: u32, y: u32, color: Rgba) {
    pixels[(y * width + x) as usize] = color;
}

fn mask_of(width: u32, height: u32, pixels: Vec<Rgba>) -> Mask {
    Mask::new(width, height, pixels).expect("valid mask")
}

#[test]
fn transparent_mask_yields_nothing() {
    let mask = mask_of(50, 40, blank(50, 40));
    let (regions, points) = extract_regions_with_step(&mask, 1);
    assert!(regions.is_empty());
    assert!(points.is_empty());
}

#[test]
fn partial_transparency_is_not_sampled() {
    let mut pixels = blank(20, 20);
    put(&mut pixels, 20, 5, 5, Rgba { r: 255, g: 0, b: 0, a: 254 });
    put(&mut pixels, 20, 6, 6, Rgba { r: 255, g: 0, b: 0, a: 1 });
    let mask = mask_of(20, 20, pixels);
    let (regions, points) = extract_regions_with_step(&mask, 1);
    assert!(regions.is_empty());
    assert!(points.is_empty());
}

#[test]
fn center_pixel_maps_to_world_origin() {
    let width = 7;
    let height = 9;
    let mut pixels = blank(width, height);
    put(&mut pixels, width, width / 2, height / 2, red());
    let mask = mask_of(width, height, pixels);
    let (regions, points) = extract_regions_with_step(&mask, 1);
    assert_eq!(points, vec![SamplePoint { x: 0, y: 0 }]);
    assert_eq!(regions.len(), 1);
    let r = &regions[0];
    assert_eq!((r.min_x, r.min_y, r.max_x, r.max_y), (0, 0, 0, 0));
}

#[test]
fn uniform_block_spans_expected_rectangle() {
    let mut pixels = blank(200, 200);
    for y in 100..110 {
        for x in 100..110 {
            put(&mut pixels, 200, x, y, red());
        }
    }
    let mask = mask_of(200, 200, pixels);
    let (regions, points) = extract_regions_with_step(&mask, 1);
    assert_eq!(points.len(), 100);
    assert_eq!(regions.len(), 1);
    let r = &regions[0];
    assert_eq!(r.name, "0.000");
    assert_eq!(r.hue, 0);
    assert_eq!(r.min_x, 0);
    assert_eq!(r.max_x, 9);
    assert_eq!(r.min_y, -9);
    assert_eq!(r.max_y, 0);
}

#[test]
fn default_step_coarsens_the_block_scan() {
    // With the default step of 2 for a 200-square image, only even
    // coordinates of the block are sampled.
    let mut pixels = blank(200, 200);
    for y in 100..110 {
        for x in 100..110 {
            put(&mut pixels, 200, x, y, red());
        }
    }
    let mask = mask_of(200, 200, pixels);
    let (regions, points) = extract_regions(&mask);
    assert_eq!(points.len(), 25);
    assert_eq!(regions.len(), 1);
    let r = &regions[0];
    assert_eq!(r.min_x, 0);
    assert_eq!(r.max_x, 8);
    assert_eq!(r.min_y, -8);
    assert_eq!(r.max_y, 0);
}

#[test]
fn two_single_pixels_make_two_degenerate_regions() {
    let mut pixels = blank(100, 100);
    put(&mut pixels, 100, 10, 10, red());
    put(&mut pixels, 100, 30, 20, green());
    let mask = mask_of(100, 100, pixels);
    let (regions, points) = extract_regions_with_step(&mask, 1);
    assert_eq!(points.len(), 2);
    assert_eq!(regions.len(), 2);
    let red_region: Vec<&Region> = regions.iter().filter(|r| r.hue == 0).collect();
    let green_region: Vec<&Region> = regions.iter().filter(|r| r.hue == 120000).collect();
    assert_eq!(red_region.len(), 1);
    assert_eq!(green_region.len(), 1);
    assert_ne!(red_region[0].name, green_region[0].name);
    let r = red_region[0];
    assert_eq!((r.min_x, r.min_y, r.max_x, r.max_y), (10 - 50, 50 - 10, 10 - 50, 50 - 10));
    let g = green_region[0];
    assert_eq!((g.min_x, g.min_y, g.max_x, g.max_y), (30 - 50, 50 - 20, 30 - 50, 50 - 20));
}

#[test]
fn bounds_are_ordered_for_every_region() {
    let mut pixels = blank(60, 60);
    for y in 0..60 {
        for x in 0..60 {
            if (x + y) % 3 == 0 {
                put(&mut pixels, 60, x, y, red());
            } else if x % 7 == 0 {
                put(&mut pixels, 60, x, y, green());
            }
        }
    }
    let mask = mask_of(60, 60, pixels);
    let (regions, _) = extract_regions_with_step(&mask, 1);
    assert!(!regions.is_empty());
    for r in &regions {
        assert!(r.min_x <= r.max_x);
        assert!(r.min_y <= r.max_y);
    }
}

#[test]
fn extraction_is_idempotent() {
    let mut pixels = blank(64, 48);
    for y in 5..30 {
        for x in 7..40 {
            if (x * y) % 5 == 0 {
                put(&mut pixels, 64, x, y, red());
            } else if (x + 2 * y) % 4 == 0 {
                put(&mut pixels, 64, x, y, green());
            }
        }
    }
    let mask = mask_of(64, 48, pixels.clone());
    let again = mask_of(64, 48, pixels);
    let first = extract_regions_with_step(&mask, 1);
    let second = extract_regions_with_step(&again, 1);
    assert_eq!(first.0, second.0);
    assert_eq!(first.1, second.1);
}

#[test]
fn last_in_bounds_column_is_sampled() {
    let mut pixels = blank(3, 3);
    put(&mut pixels, 3, 2, 2, red());
    let mask = mask_of(3, 3, pixels);
    let (regions, points) = extract_regions_with_step(&mask, 1);
    assert_eq!(points, vec![SamplePoint { x: 1, y: -1 }]);
    assert_eq!(regions.len(), 1);
}

#[test]
fn truncated_tail_is_not_sampled() {
    // With width 7 and step 3, columns 0 and 3 are sampled; column 6, though
    // in bounds, lies in the truncated tail of the grid.
    let mut pixels = blank(7, 7);
    put(&mut pixels, 7, 6, 6, red());
    let mask = mask_of(7, 7, pixels);
    let (regions, points) = extract_regions_with_step(&mask, 3);
    assert!(regions.is_empty());
    assert!(points.is_empty());
}

#[test]
fn coarse_step_skips_unaligned_pixels() {
    let mut pixels = blank(10, 10);
    put(&mut pixels, 10, 3, 3, red());
    put(&mut pixels, 10, 5, 5, green());
    let mask = mask_of(10, 10, pixels);
    let (regions, points) = extract_regions_with_step(&mask, 5);
    assert_eq!(points, vec![SamplePoint { x: 0, y: 0 }]);
    assert_eq!(regions.len(), 1);
    assert_eq!(regions[0].hue, 120000);
}

#[test]
fn points_come_in_row_major_scan_order() {
    let mut pixels = blank(4, 4);
    put(&mut pixels, 4, 3, 0, red());
    put(&mut pixels, 4, 0, 1, green());
    put(&mut pixels, 4, 2, 3, red());
    let mask = mask_of(4, 4, pixels);
    let (_, points) = extract_regions_with_step(&mask, 1);
    assert_eq!(
        points,
        vec![
            SamplePoint { x: 3 - 2, y: 2 - 0 },
            SamplePoint { x: 0 - 2, y: 2 - 1 },
            SamplePoint { x: 2 - 2, y: 2 - 3 },
        ]
    );
}
