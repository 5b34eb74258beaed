use multithread_raycaster_game::setup::{
    default_threads, fullscreen_choice, parse_choice, resolution_choice, resolution_option, scale_choice,
    settings_from_answers, supersample_choice, thread_choice, ChoiceError, Settings,
};

#[test]
fn parses_trimmed_numbers() {
    assert_eq!(parse_choice("3\n"), Ok(3));
    assert_eq!(parse_choice("  12  \r\n"), Ok(12));
    assert_eq!(parse_choice("+5\n"), Ok(5));
    assert_eq!(parse_choice("0"), Ok(0));
}

#[test]
fn parse_errors() {
    assert_eq!(parse_choice("\n"), Err(ChoiceError::Empty));
    assert_eq!(parse_choice(""), Err(ChoiceError::Empty));
    assert_eq!(parse_choice("abc"), Err(ChoiceError::InvalidDigit));
    assert_eq!(parse_choice("-1"), Err(ChoiceError::InvalidDigit));
    assert_eq!(parse_choice("99999999999999999999999"), Err(ChoiceError::Overflow));
}

#[test]
fn resolutions() {
    assert_eq!(resolution_choice(Ok(1)), (960, 540));
    assert_eq!(resolution_choice(Ok(6)), (1920, 1080));
    assert_eq!(resolution_choice(Ok(9)), (3840, 2160));
    assert_eq!(resolution_choice(Ok(10)), (1280, 720));
    assert_eq!(resolution_choice(Ok(0)), (1280, 720));
    assert_eq!(resolution_choice(Err(ChoiceError::Empty)), (1280, 720));
    assert_eq!(resolution_option(4), Some((1366, 768)));
    assert_eq!(resolution_option(12), None);
}

#[test]
fn default_threads_is_eighty_percent() {
    assert_eq!(default_threads(1), 4);
    assert_eq!(default_threads(4), 4);
    assert_eq!(default_threads(13), 12);
    assert_eq!(default_threads(64), 12);
    for t in 5usize..=12 {
        assert_eq!(default_threads(t), (t as f64 * 0.8) as usize);
    }
}

#[test]
fn thread_menu() {
    assert_eq!(thread_choice(Ok(1), 8), 1);
    assert_eq!(thread_choice(Ok(3), 8), 4);
    assert_eq!(thread_choice(Ok(6), 8), 12);
    assert_eq!(thread_choice(Ok(10), 8), 64);
    assert_eq!(thread_choice(Ok(11), 8), 8);
    assert_eq!(thread_choice(Ok(11), 300), 255);
    assert_eq!(thread_choice(Ok(11), 256), 255);
    assert_eq!(thread_choice(Ok(11), 255), 255);
    assert_eq!(thread_choice(Ok(12), 8), 6);
    assert_eq!(thread_choice(Err(ChoiceError::InvalidDigit), 10), 8);
    assert_eq!(thread_choice(Err(ChoiceError::Empty), 2), 4);
}

#[test]
fn anti_aliasing_menu() {
    assert_eq!(supersample_choice(Ok(1)), 1);
    assert_eq!(supersample_choice(Ok(3)), 4);
    assert_eq!(supersample_choice(Ok(5)), 16);
    assert_eq!(supersample_choice(Ok(6)), 1);
    assert_eq!(supersample_choice(Err(ChoiceError::Empty)), 1);
}

#[test]
fn scale_menu_keeps_render_size_by_default() {
    assert_eq!(scale_choice(Ok(1), (960, 540)), (1024, 576));
    assert_eq!(scale_choice(Ok(8), (960, 540)), (3840, 2160));
    assert_eq!(scale_choice(Ok(9), (960, 540)), (960, 540));
    assert_eq!(scale_choice(Err(ChoiceError::Overflow), (1600, 900)), (1600, 900));
}

#[test]
fn fullscreen_menu() {
    assert!(fullscreen_choice(Ok(1)));
    assert!(!fullscreen_choice(Ok(2)));
    assert!(!fullscreen_choice(Ok(3)));
    assert!(!fullscreen_choice(Err(ChoiceError::Empty)));
}

#[test]
fn all_menus_together() {
    let s = settings_from_answers(Ok(2), Ok(5), 16, Ok(2), Err(ChoiceError::Empty), Ok(1));
    assert_eq!(
        s,
        Settings {
            render_width: 1024,
            render_height: 576,
            scale_width: 1024,
            scale_height: 576,
            threads: 8,
            supersample_factor: 2,
            fullscreen: true,
        }
    );
    let d = settings_from_answers(
        Err(ChoiceError::Empty),
        Err(ChoiceError::Empty),
        3,
        Err(ChoiceError::Empty),
        Err(ChoiceError::Empty),
        Err(ChoiceError::Empty),
    );
    assert_eq!((d.render_width, d.render_height, d.scale_width, d.scale_height), (1280, 720, 1280, 720));
    assert_eq!((d.threads, d.supersample_factor, d.fullscreen), (4, 1, false));
}

#[test]
fn unicode_white_space_is_trimmed() {
    assert_eq!(parse_choice("\u{3000}\u{a0}7\u{2028}"), Ok(7));
    assert_eq!(parse_choice("+"), Err(ChoiceError::InvalidDigit));
    assert_eq!(parse_choice("x1"), Err(ChoiceError::InvalidDigit));
}
