use lolcat::color::Rgb;
use lolcat::palette::{distance_squared, palette_rgb, quantize, CUBE_START, GREY_START};

fn rgb(r: u8, g: u8, b: u8) -> Rgb {
    Rgb { r, g, b }
}

fn nearest_by_search(c: Rgb) -> u8 {
    let mut best: u8 = 16;
    let mut least = u32::MAX;
    for index in 16..=255u8 {
        let p = palette_rgb(index);
        let d = (c.r as i32 - p.r as i32).pow(2) + (c.g as i32 - p.g as i32).pow(2)
            + (c.b as i32 - p.b as i32).pow(2);
        if (d as u32) < least {
            least = d as u32;
            best = index;
        }
    }
    best
}

#[test]
fn palette_has_the_cube_and_the_grey_ramp() {
    assert_eq!(CUBE_START, 16);
    assert_eq!(GREY_START, 232);
    assert_eq!(palette_rgb(16), rgb(0, 0, 0));
    assert_eq!(palette_rgb(17), rgb(0, 0, 95));
    assert_eq!(palette_rgb(21), rgb(0, 0, 255));
    assert_eq!(palette_rgb(22), rgb(0, 95, 0));
    assert_eq!(palette_rgb(52), rgb(95, 0, 0));
    assert_eq!(palette_rgb(59), rgb(95, 95, 95));
    assert_eq!(palette_rgb(196), rgb(255, 0, 0));
    assert_eq!(palette_rgb(208), rgb(255, 135, 0));
    assert_eq!(palette_rgb(231), rgb(255, 255, 255));
    assert_eq!(palette_rgb(232), rgb(8, 8, 8));
    assert_eq!(palette_rgb(244), rgb(128, 128, 128));
    assert_eq!(palette_rgb(255), rgb(238, 238, 238));
}

#[test]
fn distance_is_the_sum_of_squares() {
    assert_eq!(distance_squared(rgb(0, 0, 0), rgb(0, 0, 0)), 0);
    assert_eq!(distance_squared(rgb(1, 2, 3), rgb(4, 6, 8)), 9 + 16 + 25);
    assert_eq!(distance_squared(rgb(4, 6, 8), rgb(1, 2, 3)), 50);
    assert_eq!(distance_squared(rgb(0, 0, 0), rgb(255, 255, 255)), 195075);
}

#[test]
fn quantize_finds_exact_palette_colours() {
    for index in 16..=255u8 {
        let found = quantize(palette_rgb(index));
        assert_eq!(palette_rgb(found), palette_rgb(index));
        assert!(found <= index);
    }
    assert_eq!(quantize(rgb(255, 0, 0)), 196);
    assert_eq!(quantize(rgb(0, 255, 0)), 46);
    assert_eq!(quantize(rgb(0, 0, 0)), 16);
    assert_eq!(quantize(rgb(255, 255, 255)), 231);
    assert_eq!(quantize(rgb(128, 128, 128)), 244);
}

#[test]
fn quantize_picks_the_nearest() {
    assert_eq!(quantize(rgb(255, 128, 0)), 208);
    assert_eq!(quantize(rgb(243, 243, 243)), 255);
    assert_eq!(quantize(rgb(247, 247, 247)), 231);
    assert_eq!(quantize(rgb(5, 5, 5)), 232);
    assert_eq!(quantize(rgb(3, 3, 3)), 16);
    assert_eq!(quantize(rgb(93, 93, 93)), 59);
    assert_eq!(quantize(rgb(129, 255, 0)), 118);
}

#[test]
fn quantize_breaks_ties_toward_the_lower_index() {
    assert_eq!(distance_squared(rgb(115, 0, 0), palette_rgb(52)), 400);
    assert_eq!(distance_squared(rgb(115, 0, 0), palette_rgb(88)), 400);
    assert_eq!(quantize(rgb(115, 0, 0)), 52);
    assert_eq!(distance_squared(rgb(4, 4, 4), palette_rgb(16)), 48);
    assert_eq!(distance_squared(rgb(4, 4, 4), palette_rgb(232)), 48);
    assert_eq!(quantize(rgb(4, 4, 4)), 16);
}

#[test]
fn quantize_agrees_with_a_search_over_the_palette() {
    let mut r: u32 = 0;
    while r < 256 {
        let mut g: u32 = 0;
        while g < 256 {
            let mut b: u32 = 0;
            while b < 256 {
                let c = rgb(r as u8, g as u8, b as u8);
                assert_eq!(quantize(c), nearest_by_search(c));
                b += 15;
            }
            g += 15;
        }
        r += 15;
    }
}

#[test]
fn no_palette_colour_is_nearer_than_the_one_chosen() {
    for c in [rgb(200, 10, 77), rgb(1, 254, 3), rgb(90, 91, 92), rgb(255, 39, 0)] {
        let chosen = quantize(c);
        let least = distance_squared(c, palette_rgb(chosen));
        for index in 16..=255u8 {
            let d = distance_squared(c, palette_rgb(index));
            assert!(least <= d);
            if index < chosen {
                assert!(least < d);
            }
        }
    }
}
