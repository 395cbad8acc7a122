use mazest::visualize::scale::RenderRefreshTimeScale;

#[test]
fn default_scale_stands_in_the_middle() {
    let scale = RenderRefreshTimeScale::new();
    assert_eq!(scale.get_levels(), 20);
    assert_eq!(scale.get_level(), 10);
    assert_eq!(scale.current(), 10 * 11 * 11);
}

#[test]
fn delay_is_the_base_times_the_square_of_the_distance_to_the_top() {
    let mut scale = RenderRefreshTimeScale::calibrated(0, 0);
    assert_eq!(scale.get_level(), 0);
    assert_eq!(scale.current(), 4410);
    scale.speed_up();
    assert_eq!(scale.current(), 10 * 20 * 20);
    let fastest = RenderRefreshTimeScale::calibrated(255, 255);
    assert_eq!(fastest.get_level(), 19);
    assert_eq!(fastest.current(), 40);
}

#[test]
fn speeding_up_shortens_the_delay_until_the_fastest_level() {
    let mut scale = RenderRefreshTimeScale::calibrated(0, 0);
    let levels = scale.get_levels();
    let mut previous = scale.current();
    for call in 1..=levels {
        scale.speed_up();
        let now = scale.current();
        if call < levels {
            assert!(now < previous, "call {}: {} is not below {}", call, now, previous);
        } else {
            assert_eq!(now, previous);
        }
        previous = now;
    }
    assert_eq!(scale.get_level(), levels - 1);
    assert_eq!(scale.current(), 40);
    scale.speed_up();
    assert_eq!(scale.current(), 40);
}

#[test]
fn slowing_down_lengthens_the_delay_until_the_slowest_level() {
    let mut scale = RenderRefreshTimeScale::calibrated(255, 1);
    let mut previous = scale.current();
    for _ in 0..19 {
        scale.slow_down();
        assert!(scale.current() > previous);
        previous = scale.current();
    }
    assert_eq!(scale.get_level(), 0);
    scale.slow_down();
    assert_eq!(scale.get_level(), 0);
    assert_eq!(scale.current(), 4410);
}

#[test]
fn calibration_rounds_the_share_of_the_top_level() {
    for size in 0..=255u8 {
        let frac = (size as f32 / 255.0).clamp(0.0, 1.0);
        let expected = (frac * 19.0).round() as usize;
        assert_eq!(RenderRefreshTimeScale::calibrated(size, 0).get_level(), expected.min(19));
        assert_eq!(RenderRefreshTimeScale::calibrated(0, size).get_level(), expected.min(19));
        assert_eq!(RenderRefreshTimeScale::calibrated(size, size).get_level(), expected.min(19));
    }
}

#[test]
fn calibration_takes_the_larger_side_and_never_goes_down() {
    assert_eq!(
        RenderRefreshTimeScale::calibrated(10, 200).get_level(),
        RenderRefreshTimeScale::calibrated(200, 10).get_level()
    );
    assert_eq!(RenderRefreshTimeScale::calibrated(128, 128).get_level(), 10);
    assert_eq!(RenderRefreshTimeScale::calibrated(128, 3).get_level(), 10);
    assert_eq!(RenderRefreshTimeScale::calibrated(13, 0).get_level(), 1);
    assert_eq!(RenderRefreshTimeScale::calibrated(6, 6).get_level(), 0);
    assert_eq!(RenderRefreshTimeScale::calibrated(7, 6).get_level(), 1);
    assert_eq!(RenderRefreshTimeScale::calibrated(248, 1).get_level(), 18);
    assert_eq!(RenderRefreshTimeScale::calibrated(249, 1).get_level(), 19);
    let mut previous = 0;
    for size in 0..=255u8 {
        let level = RenderRefreshTimeScale::calibrated(size, 1).get_level();
        assert!(level >= previous);
        assert!(level < 20);
        previous = level;
    }
}

#[test]
fn scale_bar_fills_the_segments_up_to_the_level() {
    let scale = RenderRefreshTimeScale::new();
    assert_eq!(scale.make_scale_bar(0), "");
    assert_eq!(scale.make_scale_bar(40), format!("{}{}", "█".repeat(22), "░".repeat(18)));
    assert_eq!(scale.make_scale_bar(20), format!("{}{}", "█".repeat(11), "░".repeat(9)));
}

#[test]
fn scale_bar_gives_the_remainder_to_the_first_segments() {
    let scale = RenderRefreshTimeScale::new();
    // 25 columns in 20 segments: the first five are two wide.
    assert_eq!(scale.make_scale_bar(25), format!("{}{}", "█".repeat(16), "░".repeat(9)));
    let slow = RenderRefreshTimeScale::calibrated(0, 0);
    assert_eq!(slow.make_scale_bar(25), format!("{}{}", "█".repeat(2), "░".repeat(23)));
    assert_eq!(slow.make_scale_bar(41), format!("{}{}", "█".repeat(3), "░".repeat(38)));
}

#[test]
fn scale_bar_narrower_than_the_levels_has_one_segment_per_column() {
    let scale = RenderRefreshTimeScale::new();
    assert_eq!(scale.make_scale_bar(15), format!("{}{}", "█".repeat(11), "░".repeat(4)));
    assert_eq!(scale.make_scale_bar(5), "█".repeat(5));
    assert_eq!(scale.make_scale_bar(1), "█");
    let slow = RenderRefreshTimeScale::calibrated(0, 0);
    assert_eq!(slow.make_scale_bar(5), format!("█{}", "░".repeat(4)));
}

#[test]
fn scale_bar_is_as_wide_as_asked() {
    let mut scale = RenderRefreshTimeScale::calibrated(0, 0);
    for _ in 0..20 {
        for width in [0u16, 1, 7, 19, 20, 21, 39, 40, 100, 511, 65535] {
            assert_eq!(scale.make_scale_bar(width).chars().count(), width as usize);
        }
        scale.speed_up();
    }
}
