use blinkterm::appearance::{auto_dark_params, is_dark, media_params, Appearance, Choice, Scheme};

/// How bright a colour is: its relative luminance, from 0 for black to 1 for
/// white.
fn luminance(rgb: (u8, u8, u8)) -> f64 {
    let linear = |channel: u8| {
        let c = f64::from(channel) / 255.0;
        if c <= 0.04045 {
            c / 12.92
        } else {
            ((c + 0.055) / 1.055).powf(2.4)
        }
    };
    0.2126 * linear(rgb.0) + 0.7152 * linear(rgb.1) + 0.0722 * linear(rgb.2)
}

#[test]
fn dark_is_a_luminance_under_the_middle_of_lightness() {
    for r in (0..=255u8).step_by(5) {
        for g in (0..=255u8).step_by(3) {
            for b in (0..=255u8).step_by(15) {
                assert_eq!(
                    is_dark((r, g, b)),
                    luminance((r, g, b)) < 0.184,
                    "{r} {g} {b}"
                );
            }
        }
    }
    for grey in 0..=255u8 {
        let rgb = (grey, grey, grey);
        assert_eq!(is_dark(rgb), luminance(rgb) < 0.184, "{grey}");
    }
}

#[test]
fn luminance_calls_black_dark_white_light_and_a_mid_grey_light() {
    assert_eq!(luminance((0, 0, 0)), 0.0);
    assert!((luminance((255, 255, 255)) - 1.0).abs() < 1e-9);
    assert!(is_dark((0, 0, 0)));
    assert!(!is_dark((255, 255, 255)));
    let grey = luminance((0x80, 0x80, 0x80));
    assert!((grey - 0.216).abs() < 0.001, "{grey}");
    assert!(!is_dark((0x80, 0x80, 0x80)));
}

#[test]
fn solarized_and_gruvbox_come_out_the_right_way_round() {
    for dark in [(0x28, 0x28, 0x28), (0x00, 0x2b, 0x36), (0x1c, 0x1c, 0x1c)] {
        assert!(is_dark(dark), "{dark:?}: {}", luminance(dark));
    }
    for light in [(0xfd, 0xf6, 0xe3), (0xee, 0xe8, 0xd5), (0xfb, 0xf1, 0xc7)] {
        assert!(!is_dark(light), "{light:?}: {}", luminance(light));
    }
}

#[test]
fn the_flag_beats_the_terminal_and_auto_without_an_answer_says_nothing() {
    let mut auto = Appearance::new(Choice::Auto, false);
    assert_eq!(auto.scheme(), None);
    assert!(auto.commands().is_empty(), "the engine's default, unsaid");
    assert!(auto.learned((0, 0, 0)));
    assert_eq!(auto.scheme(), Some(Scheme::Dark));

    let mut light = Appearance::new(Choice::Light, false);
    assert_eq!(light.scheme(), Some(Scheme::Light));
    assert!(!light.learned((0, 0, 0)), "the flag was not asking");
    assert_eq!(light.scheme(), Some(Scheme::Light));

    let mut dark = Appearance::new(Choice::Dark, false);
    assert!(!dark.learned((255, 255, 255)));
    assert_eq!(dark.scheme(), Some(Scheme::Dark));
}

#[test]
fn learning_the_same_answer_twice_changes_nothing() {
    let mut appearance = Appearance::new(Choice::Auto, false);
    assert!(appearance.learned((0x1c, 0x1c, 0x1c)));
    assert!(!appearance.learned((0x28, 0x28, 0x28)), "still dark");
    assert!(appearance.learned((0xfd, 0xf6, 0xe3)), "now light");
    assert_eq!(appearance.scheme(), Some(Scheme::Light));
}

#[test]
fn the_commands_name_the_scheme_and_the_forcing() {
    let mut appearance = Appearance::new(Choice::Auto, true);
    let text = |appearance: &Appearance| {
        appearance
            .commands()
            .into_iter()
            .map(|(method, params)| format!("{method} {}", params.to_string()))
            .collect::<Vec<_>>()
    };
    assert_eq!(
        text(&appearance),
        ["Emulation.setAutoDarkModeOverride {\"enabled\":true}"]
    );
    appearance.learned((0, 0, 0));
    assert_eq!(
        text(&appearance),
        [
            "Emulation.setEmulatedMedia {\"features\":[{\"name\":\"prefers-color-scheme\",\"value\":\"dark\"}]}",
            "Emulation.setAutoDarkModeOverride {\"enabled\":true}",
        ]
    );
    assert_eq!(
        media_params(Scheme::Light).to_string(),
        r#"{"features":[{"name":"prefers-color-scheme","value":"light"}]}"#
    );
    assert_eq!(auto_dark_params(false).to_string(), r#"{"enabled":false}"#);
}

#[test]
fn a_choice_is_auto_light_or_dark() {
    assert_eq!(Choice::parse("auto"), Ok(Choice::Auto));
    assert_eq!(Choice::parse("light"), Ok(Choice::Light));
    assert_eq!(Choice::parse("dark"), Ok(Choice::Dark));
    assert_eq!(Choice::default(), Choice::Auto);
    for text in ["", "Dark", "black", "no-preference"] {
        let why = Choice::parse(text).expect_err("refused");
        assert!(why.contains("--color-scheme"), "{text:?}: {why}");
    }
}
