use subrename::extract::extract_episode_number;

#[test]
fn season_episode_marker() {
    assert_eq!(extract_episode_number("Show.S01E07.mkv"), Some(7));
}

#[test]
fn season_episode_single_digits() {
    assert_eq!(extract_episode_number("s1e2.mkv"), Some(2));
}

#[test]
fn bare_e_marker() {
    assert_eq!(extract_episode_number("Show.E08.mkv"), Some(8));
}

#[test]
fn leading_number_with_dot() {
    assert_eq!(extract_episode_number("01.srt"), Some(1));
    assert_eq!(extract_episode_number("7.ass"), Some(7));
}

#[test]
fn three_leading_digits_do_not_match() {
    assert_eq!(extract_episode_number("123.mkv"), None);
}

#[test]
fn ep_prefix() {
    assert_eq!(extract_episode_number("Ep05.mkv"), Some(5));
    assert_eq!(extract_episode_number("ep12.srt"), Some(12));
}

#[test]
fn cjk_episode_counter() {
    assert_eq!(extract_episode_number("\u{7B2C}05\u{8A71}.mkv"), Some(5));
    assert_eq!(extract_episode_number("\u{7B2C}9\u{8A71}.ass"), Some(9));
}

#[test]
fn digits_before_bracket() {
    assert_eq!(extract_episode_number("08 [x].mkv"), Some(8));
}

#[test]
fn second_bracket_group() {
    assert_eq!(extract_episode_number("[Group][12].mkv"), Some(12));
}

#[test]
fn bracketed_ep_tag() {
    assert_eq!(extract_episode_number("[x_x] Show [Ep08].mkv"), Some(8));
}

#[test]
fn resolution_marker_excludes_candidate() {
    // Without the literal digits-plus-P elsewhere, the bracket rule takes 08.
    assert_eq!(extract_episode_number("08 [x].mkv"), Some(8));
    // With it, the candidate is discarded and no rule survives.
    assert_eq!(extract_episode_number("08 [x] 08P.mkv"), None);
}

#[test]
fn resolution_tag_720p() {
    // The captured 20 reappears in 720P, so the match is discarded.
    assert_eq!(extract_episode_number("Show.E20.720P.mkv"), None);
    // A capture that does not reappear before a P survives.
    assert_eq!(extract_episode_number("Show.E08.720P.mkv"), Some(8));
}

#[test]
fn no_marker_at_all() {
    assert_eq!(extract_episode_number("Show.mkv"), None);
    assert_eq!(extract_episode_number(""), None);
}

#[test]
fn rule_order_prefers_season_marker() {
    // The season marker rule runs before the leading-number rule.
    assert_eq!(extract_episode_number("S02E03.mkv"), Some(3));
}
