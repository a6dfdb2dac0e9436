use colour_gradient::{ColourGradient, Fixed, RGBAColour};

fn black() -> RGBAColour {
    RGBAColour::new(0, 0, 0, 255)
}

fn white() -> RGBAColour {
    RGBAColour::new(255, 255, 255, 255)
}

fn half() -> Fixed {
    Fixed::from_ratio(1, 2)
}

#[test]
fn get_colour() {
    let mut gradient = ColourGradient::new();

    gradient.add_colour(RGBAColour::new(0, 0, 0, 255));
    gradient.add_colour(RGBAColour::new(255, 255, 255, 255));
    gradient.set_min(Fixed::from_ratio(0, 1));
    gradient.set_max(Fixed::from_ratio(1, 1));

    // Two colours
    assert_eq!(gradient.get_colour(Fixed::from_ratio(0, 1)), RGBAColour::new(0, 0, 0, 255));
    assert_eq!(gradient.get_colour(Fixed::from_ratio(1, 1)), RGBAColour::new(255, 255, 255, 255));
    assert_eq!(gradient.get_colour(Fixed::from_ratio(1, 2)), RGBAColour::new(128, 128, 128, 255));

    // Three colours
    gradient.add_colour(RGBAColour::new(0, 0, 0, 255));
    assert_eq!(gradient.get_colour(Fixed::from_ratio(0, 1)), RGBAColour::new(0, 0, 0, 255));
    assert_eq!(gradient.get_colour(Fixed::from_ratio(1, 1)), RGBAColour::new(0, 0, 0, 255));
    assert_eq!(gradient.get_colour(Fixed::from_ratio(1, 2)), RGBAColour::new(255, 255, 255, 255));
    assert_eq!(gradient.get_colour(Fixed::from_ratio(1, 8)), RGBAColour::new(64, 64, 64, 255));
    assert_eq!(gradient.get_colour(Fixed::from_ratio(1, 4)), RGBAColour::new(128, 128, 128, 255));
    assert_eq!(gradient.get_colour(Fixed::from_ratio(3, 4)), RGBAColour::new(128, 128, 128, 255));
}

#[test]
fn colour_to_vec_is_rgba_order() {
    assert_eq!(RGBAColour::new(1, 2, 3, 4).to_vec(), vec![1u8, 2, 3, 4]);
}

#[test]
fn fixed_from_ratio_exact_and_floored() {
    assert_eq!(Fixed::from_ratio(1, 1).raw(), 4294967296);
    assert_eq!(Fixed::from_ratio(1, 8).raw(), 536870912);
    assert_eq!(Fixed::from_ratio(-1, 2).raw(), -2147483648);
    assert_eq!(Fixed::from_ratio(1, 3).raw(), 1431655765);
    assert_eq!(Fixed::from_ratio(-1, 3).raw(), -1431655766);
    assert_eq!(Fixed::from_ratio(i32::MIN, 1).raw(), i64::MIN);
    assert_eq!(Fixed::from_raw(-7).raw(), -7);
}

#[test]
fn new_gradient_is_empty_over_unit_domain() {
    let gradient = ColourGradient::new();
    assert_eq!(gradient.try_get_colour(half()), None);
}

#[test]
fn repeated_lookups_agree() {
    let mut gradient = ColourGradient::new();
    gradient.add_colour(RGBAColour::new(10, 20, 30, 40));
    gradient.add_colour(RGBAColour::new(200, 100, 0, 255));
    gradient.add_colour(RGBAColour::new(7, 9, 11, 13));
    let value = Fixed::from_ratio(3, 10);
    let first = gradient.get_colour(value);
    for _ in 0..5 {
        assert_eq!(gradient.get_colour(value), first);
    }
    let copy = gradient.clone();
    assert_eq!(copy.get_colour(value), first);
}

#[test]
fn values_beyond_the_domain_take_the_edge_stops() {
    let mut gradient = ColourGradient::new();
    gradient.add_colour(RGBAColour::new(1, 2, 3, 4));
    gradient.add_colour(white());
    gradient.add_colour(RGBAColour::new(9, 8, 7, 6));
    gradient.set_min(Fixed::from_ratio(-2, 1));
    gradient.set_max(Fixed::from_ratio(3, 1));
    assert_eq!(gradient.get_colour(Fixed::from_ratio(3, 1)), RGBAColour::new(9, 8, 7, 6));
    assert_eq!(gradient.get_colour(Fixed::from_ratio(1000, 1)), RGBAColour::new(9, 8, 7, 6));
    assert_eq!(gradient.get_colour(Fixed::from_raw(i64::MAX)), RGBAColour::new(9, 8, 7, 6));
    assert_eq!(gradient.get_colour(Fixed::from_ratio(-2, 1)), RGBAColour::new(1, 2, 3, 4));
    assert_eq!(gradient.get_colour(Fixed::from_raw(i64::MIN)), RGBAColour::new(1, 2, 3, 4));
}

#[test]
fn empty_domain_gives_the_last_stop() {
    let mut gradient = ColourGradient::new();
    gradient.add_colour(black());
    gradient.add_colour(white());
    gradient.set_min(half());
    gradient.set_max(half());
    assert_eq!(gradient.get_colour(half()), white());
    assert_eq!(gradient.get_colour(Fixed::from_ratio(1, 4)), black());
}

#[test]
fn two_stop_channels_do_not_decrease() {
    let mut gradient = ColourGradient::new();
    gradient.add_colour(RGBAColour::new(3, 50, 0, 255));
    gradient.add_colour(RGBAColour::new(250, 60, 255, 255));
    let mut previous = gradient.get_colour(Fixed::from_ratio(-1, 16)).to_vec();
    for i in 0..=80 {
        let current = gradient.get_colour(Fixed::from_ratio(i, 64)).to_vec();
        for ch in 0..4 {
            assert!(previous[ch] <= current[ch]);
        }
        previous = current;
    }
    assert_eq!(previous, vec![250u8, 60, 255, 255]);
}

#[test]
fn missing_stops_or_inverted_domain_give_no_colour() {
    let mut gradient = ColourGradient::new();
    assert_eq!(gradient.try_get_colour(half()), None);
    gradient.add_colour(black());
    assert_eq!(gradient.try_get_colour(half()), None);
    gradient.add_colour(white());
    assert_eq!(gradient.try_get_colour(half()), Some(RGBAColour::new(128, 128, 128, 255)));
    gradient.set_min(Fixed::from_ratio(2, 1));
    assert_eq!(gradient.try_get_colour(half()), None);
}

#[test]
fn value_just_below_max_stays_in_the_last_band() {
    let mut gradient = ColourGradient::new();
    gradient.add_colour(black());
    gradient.add_colour(white());
    gradient.add_colour(RGBAColour::new(100, 100, 100, 100));
    let just_below = Fixed::from_raw(4294967296 - 1);
    assert_eq!(gradient.get_colour(just_below), RGBAColour::new(100, 100, 100, 100));
}

#[test]
fn raw_value_is_scaled_not_its_offset() {
    // Domain [1, 3], two stops: 2 scales to 2 / 2 = 1, past the only band,
    // so the band is held at the first and the blend runs past the second stop.
    let mut gradient = ColourGradient::new();
    gradient.add_colour(RGBAColour::new(0, 0, 0, 0));
    gradient.add_colour(RGBAColour::new(100, 100, 100, 100));
    gradient.set_min(Fixed::from_ratio(1, 1));
    gradient.set_max(Fixed::from_ratio(3, 1));
    assert_eq!(gradient.get_colour(Fixed::from_ratio(2, 1)), RGBAColour::new(100, 100, 100, 100));
    assert_eq!(gradient.get_colour(Fixed::from_ratio(5, 2)), RGBAColour::new(125, 125, 125, 125));
}

#[test]
fn negative_scaled_values_extrapolate_and_saturate() {
    // Domain [-1, 1]: -1/2 scales to -1/4 in the first band.
    let mut gradient = ColourGradient::new();
    gradient.add_colour(RGBAColour::new(100, 255, 0, 255));
    gradient.add_colour(RGBAColour::new(200, 0, 255, 0));
    gradient.set_min(Fixed::from_ratio(-1, 1));
    gradient.set_max(Fixed::from_ratio(1, 1));
    assert_eq!(gradient.get_colour(Fixed::from_ratio(-1, 2)), RGBAColour::new(75, 255, 0, 255));
}

#[test]
fn halves_round_away_from_zero() {
    let mut gradient = ColourGradient::new();
    gradient.add_colour(RGBAColour::new(0, 1, 255, 254));
    gradient.add_colour(RGBAColour::new(1, 0, 254, 255));
    assert_eq!(gradient.get_colour(half()), RGBAColour::new(1, 1, 255, 255));
}

#[test]
fn many_stops_pick_the_right_band() {
    let mut gradient = ColourGradient::new();
    for i in 0..11u8 {
        gradient.add_colour(RGBAColour::new(i * 10, 0, 0, 255));
    }
    // 0.37 * 10 = 3.7: between stops 3 and 4
    assert_eq!(gradient.get_colour(Fixed::from_ratio(37, 100)), RGBAColour::new(37, 0, 0, 255));
}
