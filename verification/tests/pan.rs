use rfofs::pan::{ambisonic_direct_channel_count, encode_ambisonics, Feed, PanTerm};
use rfofs::PanMode;

/// The gains that a layout stands for.
fn pan_gains(azm: f32, elev: f32, distance: f32, mode: PanMode) -> Vec<f32> {
    let dry = if distance > 0.0 { 1.0 / distance.max(0.01) } else { 1.0 };
    let half = std::f32::consts::FRAC_PI_2;
    let angle = (azm.clamp(-half, half) + half) * 0.5;
    mode.layout(distance >= 1.0)
        .into_iter()
        .map(|feed| match feed {
            None => 0.0,
            Some(Feed { term, send }) => {
                let s = if send { 1.0 } else { dry };
                match term {
                    PanTerm::Whole => s,
                    PanTerm::Left => s * angle.cos(),
                    PanTerm::Right => s * angle.sin(),
                    PanTerm::W => s * std::f32::consts::FRAC_1_SQRT_2,
                    PanTerm::X => s * elev.cos() * azm.cos(),
                    PanTerm::Y => s * elev.cos() * azm.sin(),
                    PanTerm::Z => s * elev.sin(),
                }
            }
        })
        .collect()
}

#[test]
fn parse_mono() {
    assert_eq!(PanMode::parse("mono"), Some(PanMode::Mono));
}

#[test]
fn parse_stereo() {
    assert_eq!(PanMode::parse("stereo"), Some(PanMode::Stereo));
}

#[test]
fn parse_amb_o1_d2() {
    assert_eq!(
        PanMode::parse("amb O1 D2"),
        Some(PanMode::Ambisonic { order: 1, dims: 2, reverb: None })
    );
}

#[test]
fn parse_amb_o1_d3_r0() {
    assert_eq!(
        PanMode::parse("amb O1 D3 R0"),
        Some(PanMode::Ambisonic { order: 1, dims: 3, reverb: Some(0) })
    );
}

#[test]
fn parse_amb_o3_d3_r1() {
    assert_eq!(
        PanMode::parse("amb O3 D3 R1"),
        Some(PanMode::Ambisonic { order: 3, dims: 3, reverb: Some(1) })
    );
}

#[test]
fn channel_count_stereo() {
    assert_eq!(PanMode::Stereo.channel_count(), 2);
}

#[test]
fn channel_count_amb_o1_d3() {
    assert_eq!(
        PanMode::Ambisonic { order: 1, dims: 3, reverb: None }.channel_count(),
        4
    );
}

#[test]
fn channel_count_amb_o1_d3_r0() {
    assert_eq!(
        PanMode::Ambisonic { order: 1, dims: 3, reverb: Some(0) }.channel_count(),
        5
    );
}

#[test]
fn channel_count_amb_o1_d3_r1() {
    assert_eq!(
        PanMode::Ambisonic { order: 1, dims: 3, reverb: Some(1) }.channel_count(),
        8
    );
}

#[test]
fn channel_count_reverb_bus_size_independent_of_main_order() {
    assert_eq!(
        PanMode::Ambisonic { order: 2, dims: 3, reverb: Some(1) }.channel_count(),
        13
    );
}

#[test]
fn reverb_bus_muted_below_reference_distance() {
    let mode = PanMode::Ambisonic { order: 1, dims: 3, reverb: Some(1) };
    let gains = pan_gains(0.0, 0.0, 0.5, mode);
    assert_eq!(&gains[4..8], &[0.0; 4]);
}

#[test]
fn reverb_bus_active_at_reference_distance() {
    let mode = PanMode::Ambisonic { order: 1, dims: 3, reverb: Some(1) };
    let gains = pan_gains(0.0, 0.0, 1.0, mode);
    assert!(gains[4] != 0.0);
}

#[test]
fn reverb_bus_mono_is_constant_level_regardless_of_distance() {
    let mode = PanMode::Ambisonic { order: 1, dims: 3, reverb: Some(0) };
    let near = pan_gains(0.0, 0.0, 1.0, mode);
    let far = pan_gains(0.0, 0.0, 100.0, mode);
    assert_eq!(near[4], far[4]);
    assert!((near[4] - std::f32::consts::FRAC_1_SQRT_2).abs() < 1e-6);
}

#[test]
fn reverb_bus_first_order_matches_direct_at_reference_distance() {
    let mode = PanMode::Ambisonic { order: 1, dims: 3, reverb: Some(1) };
    let gains = pan_gains(0.3, 0.2, 1.0, mode);
    assert_eq!(gains[0..4], gains[4..8]);
}

#[test]
fn reverb_bus_first_order_independent_of_distance_beyond_reference() {
    let mode = PanMode::Ambisonic { order: 1, dims: 3, reverb: Some(1) };
    let near = pan_gains(0.3, 0.2, 1.0, mode);
    let far = pan_gains(0.3, 0.2, 50.0, mode);
    assert!(near[0] > far[0]);
    assert_eq!(near[4..8], far[4..8]);
}

#[test]
fn reverb_bus_first_order_fixed_size_even_with_higher_main_order() {
    let mode = PanMode::Ambisonic { order: 2, dims: 3, reverb: Some(1) };
    let gains = pan_gains(0.0, 0.0, 1.0, mode);
    assert_eq!(gains.len(), 13);
    assert!(gains[9] != 0.0);
}

#[test]
fn names_ignore_case_and_surrounding_space() {
    assert_eq!(PanMode::parse("  MONO\t"), Some(PanMode::Mono));
    assert_eq!(PanMode::parse("StErEo"), Some(PanMode::Stereo));
    assert_eq!(PanMode::parse("mono stereo"), None);
    assert_eq!(PanMode::parse(""), None);
}

#[test]
fn ambisonic_prefix_has_three_spellings() {
    let mode = Some(PanMode::Ambisonic { order: 1, dims: 2, reverb: None });
    assert_eq!(PanMode::parse("amb o1 d2"), mode);
    assert_eq!(PanMode::parse("Amb O1 D2"), mode);
    assert_eq!(PanMode::parse("AMB D2 O1"), mode);
    assert_eq!(PanMode::parse("ambO1 D2"), mode);
    assert_eq!(PanMode::parse("aMb O1 D2"), None);
}

#[test]
fn ambisonic_tokens() {
    // Order and dimensions are needed.
    assert_eq!(PanMode::parse("amb"), None);
    assert_eq!(PanMode::parse("amb O1"), None);
    assert_eq!(PanMode::parse("amb D3 R1"), None);
    // The last token of a letter counts, a bad one unsets.
    assert_eq!(
        PanMode::parse("amb O1 O2 D3"),
        Some(PanMode::Ambisonic { order: 2, dims: 3, reverb: None })
    );
    assert_eq!(PanMode::parse("amb O1 D3 Ox"), None);
    assert_eq!(PanMode::parse("amb O256 D3"), None);
    assert_eq!(
        PanMode::parse("amb O255 D+3"),
        Some(PanMode::Ambisonic { order: 255, dims: 3, reverb: None })
    );
    // A reverb token without a number stands for order 0.
    assert_eq!(
        PanMode::parse("amb O1 D3 R"),
        Some(PanMode::Ambisonic { order: 1, dims: 3, reverb: Some(0) })
    );
    assert_eq!(
        PanMode::parse("amb O1 D3 rverb"),
        Some(PanMode::Ambisonic { order: 1, dims: 3, reverb: Some(0) })
    );
    // Other letters are not part of the notation.
    assert_eq!(PanMode::parse("amb O1 X9 D2"), None);
    assert_eq!(PanMode::parse("amb O1 D2 é"), None);
    assert_eq!(PanMode::parse("ambient O1 D3"), None);
}

#[test]
fn ambisonic_tokens_come_in_any_order_and_spacing() {
    let mode = Some(PanMode::Ambisonic { order: 2, dims: 3, reverb: Some(1) });
    assert_eq!(PanMode::parse("amb O2 D3 R1"), mode);
    assert_eq!(PanMode::parse("\t AMB r1\u{2003}d3  o2 \n"), mode);
    assert_eq!(PanMode::parse("Ambd03 R+1\to2"), mode);
    assert_eq!(
        PanMode::parse(" ambD2   O0"),
        Some(PanMode::Ambisonic { order: 0, dims: 2, reverb: None })
    );
}

#[test]
fn direct_channel_counts() {
    assert_eq!(ambisonic_direct_channel_count(0, 2), 1);
    assert_eq!(ambisonic_direct_channel_count(3, 2), 7);
    assert_eq!(ambisonic_direct_channel_count(3, 3), 16);
    assert_eq!(ambisonic_direct_channel_count(255, 9), 65536);
    assert_eq!(PanMode::Mono.channel_count(), 1);
    assert_eq!(PanMode::Ambisonic { order: 1, dims: 2, reverb: Some(1) }.channel_count(), 6);
    assert_eq!(PanMode::Ambisonic { order: 0, dims: 3, reverb: Some(9) }.channel_count(), 5);
}

#[test]
fn layouts() {
    let dry = |term| Some(Feed { term, send: false });
    let wet = |term| Some(Feed { term, send: true });
    assert_eq!(PanMode::Mono.layout(true), vec![dry(PanTerm::Whole)]);
    assert_eq!(PanMode::Stereo.layout(false), vec![dry(PanTerm::Left), dry(PanTerm::Right)]);
    let mode = PanMode::Ambisonic { order: 2, dims: 2, reverb: Some(1) };
    assert_eq!(
        mode.layout(true),
        vec![
            dry(PanTerm::W),
            dry(PanTerm::X),
            dry(PanTerm::Y),
            None,
            None,
            wet(PanTerm::W),
            wet(PanTerm::X),
            wet(PanTerm::Y),
        ]
    );
    assert_eq!(mode.layout(false)[5..], [None, None, None]);
    let mode = PanMode::Ambisonic { order: 1, dims: 3, reverb: Some(0) };
    assert_eq!(
        mode.layout(true),
        vec![
            dry(PanTerm::W),
            dry(PanTerm::X),
            dry(PanTerm::Y),
            dry(PanTerm::Z),
            wet(PanTerm::W),
        ]
    );
    let mode = PanMode::Ambisonic { order: 0, dims: 3, reverb: None };
    assert_eq!(mode.layout(true), vec![dry(PanTerm::W)]);
}

#[test]
fn b_format_channels() {
    assert_eq!(encode_ambisonics(1, 3, 3), Some(PanTerm::Z));
    assert_eq!(encode_ambisonics(1, 2, 3), None);
    assert_eq!(encode_ambisonics(0, 3, 1), None);
    assert_eq!(encode_ambisonics(5, 3, 4), None);
}

#[test]
fn silent_orders_are_told() {
    assert!(!PanMode::Stereo.has_silent_direct_orders());
    assert!(!PanMode::Ambisonic { order: 1, dims: 3, reverb: Some(1) }.has_silent_direct_orders());
    assert!(PanMode::Ambisonic { order: 2, dims: 3, reverb: None }.has_silent_direct_orders());
    assert!(!PanMode::Ambisonic { order: 2, dims: 3, reverb: Some(1) }.has_silent_reverb_orders());
    assert!(PanMode::Ambisonic { order: 0, dims: 3, reverb: Some(2) }.has_silent_reverb_orders());
    assert!(!PanMode::Mono.has_silent_reverb_orders());
}
