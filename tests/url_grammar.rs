use pinbot::url::parse_url;

#[test]
fn leading_zeros_keep_the_decimal_value() {
    assert_eq!(parse_url("https://discord.com/channels/039/007/0"), Some((39, 7, 0)));
}

#[test]
fn largest_id_fits() {
    assert_eq!(
        parse_url("https://discord.com/channels/18446744073709551615/1/2"),
        Some((u64::MAX, 1, 2))
    );
}

#[test]
fn id_past_u64_is_rejected() {
    assert_eq!(parse_url("https://discord.com/channels/18446744073709551616/1/2"), None);
    assert_eq!(parse_url("https://discord.com/channels/1/2/99999999999999999999999"), None);
}

#[test]
fn surrounding_whitespace_is_rejected() {
    assert_eq!(parse_url(" https://discord.com/channels/1/2/3"), None);
    assert_eq!(parse_url("https://discord.com/channels/1/2/3 "), None);
    assert_eq!(parse_url("https://discord.com/channels/1/2/3\n"), None);
}

#[test]
fn scheme_is_case_sensitive() {
    assert_eq!(parse_url("HTTPS://discord.com/channels/1/2/3"), None);
    assert_eq!(parse_url("httpss://discord.com/channels/1/2/3"), None);
}

#[test]
fn too_many_segments_are_rejected() {
    assert_eq!(parse_url("https://discord.com/channels/1/2/3/4"), None);
    assert_eq!(parse_url("https://discord.com/channels/1//3"), None);
}

#[test]
fn dot_before_com_is_any_character_but_a_line_feed() {
    assert_eq!(parse_url("https://discordxcom/channels/1/2/3"), Some((1, 2, 3)));
    assert_eq!(parse_url("https://discord\ncom/channels/1/2/3"), None);
}

#[test]
fn parsing_twice_gives_the_same_result() {
    let s = "http://discord.com/channels/5/6/7";
    assert_eq!(parse_url(s), parse_url(s));
    assert_eq!(parse_url(s), Some((5, 6, 7)));
    let t = "http://discord.com/channels/5/6/";
    assert_eq!(parse_url(t), parse_url(t));
    assert_eq!(parse_url(t), None);
}

#[test]
fn non_ascii_digits_are_rejected() {
    assert_eq!(parse_url("https://discord.com/channels/١/2/3"), None);
}
