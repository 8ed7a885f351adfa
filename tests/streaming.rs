use test_format::{AssertFormat, FormatError};

#[test]
fn fragments_advance_the_cursor() {
    let mut state = AssertFormat::new("valid input");
    assert_eq!(state.write_str("valid"), Ok(()));
    assert_eq!(state.write_char(' '), Ok(()));
    assert_eq!(state.write_str("input"), Ok(()));
    assert_eq!(state.finish(), Ok(()));
}

#[test]
fn char_mismatch_names_the_character() {
    let mut state = AssertFormat::new("valid input");
    assert_eq!(state.write_str("valid"), Ok(()));
    let r = state.write_char('-');
    assert_eq!(
        r,
        Err(FormatError::Mismatch {
            expected: "valid input".to_string(),
            fragment: "-".to_string(),
            position: 5,
            divergence: 5,
        })
    );
}

#[test]
fn mismatch_leaves_the_cursor() {
    let mut state = AssertFormat::new("abc");
    assert_eq!(state.write_str("a"), Ok(()));
    assert!(state.write_str("x").is_err());
    assert_eq!(state.write_str("bc"), Ok(()));
    assert_eq!(state.finish(), Ok(()));
}

#[test]
fn finish_reports_underrun() {
    let mut state = AssertFormat::new("valid input");
    assert_eq!(state.write_str("valid "), Ok(()));
    assert_eq!(
        state.finish(),
        Err(FormatError::Underrun {
            expected: "valid input".to_string(),
            matched: "valid ".to_string(),
            missing: 5,
        })
    );
}

#[test]
fn empty_expected_and_empty_rendering_pass() {
    assert_eq!(AssertFormat::assert_debug_fmt(&[], ""), Ok(()));
    assert_eq!(AssertFormat::assert_debug_fmt(&["", ""], ""), Ok(()));
}

#[test]
fn anything_past_empty_expected_is_a_mismatch() {
    let r = AssertFormat::assert_debug_fmt(&["x"], "");
    assert_eq!(
        r,
        Err(FormatError::Mismatch {
            expected: String::new(),
            fragment: "x".to_string(),
            position: 0,
            divergence: 0,
        })
    );
}

#[test]
fn nothing_rendered_misses_everything() {
    let r = AssertFormat::assert_display_fmt(&[], "abc");
    assert_eq!(
        r,
        Err(FormatError::Underrun {
            expected: "abc".to_string(),
            matched: String::new(),
            missing: 3,
        })
    );
}

#[test]
fn exact_match_in_any_chunking() {
    let e = "valid input";
    assert_eq!(AssertFormat::assert_debug_fmt(&[e], e), Ok(()));
    assert_eq!(AssertFormat::assert_debug_fmt(&["v", "alid", "", " in", "put"], e), Ok(()));
    let single: Vec<String> = e.chars().map(|c| c.to_string()).collect();
    let parts: Vec<&str> = single.iter().map(|s| s.as_str()).collect();
    assert_eq!(AssertFormat::assert_debug_fmt(&parts, e), Ok(()));
}

#[test]
fn chunking_does_not_change_failure() {
    let e = "valid input";
    assert!(AssertFormat::assert_debug_fmt(&["valid inpux"], e).is_err());
    assert!(AssertFormat::assert_debug_fmt(&["val", "id in", "pux"], e).is_err());
    assert!(AssertFormat::assert_debug_fmt(&["valid inp"], e).is_err());
    assert!(AssertFormat::assert_debug_fmt(&["val", "id", " inp"], e).is_err());
}

#[test]
fn mismatch_position_is_matched_length_before_fragment() {
    let r = AssertFormat::assert_debug_fmt(&["ab", "cdX", "ef"], "abcdef");
    assert_eq!(
        r,
        Err(FormatError::Mismatch {
            expected: "abcdef".to_string(),
            fragment: "cdX".to_string(),
            position: 2,
            divergence: 4,
        })
    );
}

#[test]
fn overrun_at_boundary_reports_end_of_expected() {
    let r = AssertFormat::assert_debug_fmt(&["valid", " input", "s"], "valid input");
    assert_eq!(
        r,
        Err(FormatError::Mismatch {
            expected: "valid input".to_string(),
            fragment: "s".to_string(),
            position: 11,
            divergence: 11,
        })
    );
}

#[test]
fn positions_count_characters() {
    let e = "h\u{e9}llo w\u{f6}rld";
    assert_eq!(AssertFormat::assert_debug_fmt(&["h\u{e9}", "llo", " w\u{f6}rld"], e), Ok(()));
    let r = AssertFormat::assert_debug_fmt(&["h\u{e9}llo", " w\u{f6}r", "x"], e);
    assert_eq!(
        r,
        Err(FormatError::Mismatch {
            expected: e.to_string(),
            fragment: "x".to_string(),
            position: 9,
            divergence: 9,
        })
    );
    let r = AssertFormat::assert_debug_fmt(&["h\u{e9}l"], e);
    assert_eq!(
        r,
        Err(FormatError::Underrun {
            expected: e.to_string(),
            matched: "h\u{e9}l".to_string(),
            missing: 8,
        })
    );
}
