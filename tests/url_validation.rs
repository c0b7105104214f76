use pinbot::url::parse_url;

#[test]
fn good_https() {
    assert_eq!(
        parse_url("https://discord.com/channels/432708847304704010/432708847304704013/1008041568613191813"),
        Some((432708847304704010, 432708847304704013, 1008041568613191813))
    );
}

#[test]
fn good_http() {
    assert_eq!(
        parse_url("http://discord.com/channels/432708847304704010/432708847304704013/1008041568613191813"),
        Some((432708847304704010, 432708847304704013, 1008041568613191813))
    );
}

#[test]
fn prefix() {
    assert_eq!(
        parse_url("prefixhttps://discord.com/channels/432708847304704010/432708847304704013/1008041568613191813"),
        None
    );
}

#[test]
fn suffix() {
    assert_eq!(
        parse_url("https://discord.com/channels/432708847304704010/432708847304704013/1008041568613191813suffix"),
        None
    );
}

#[test]
fn protocol() {
    assert_eq!(
        parse_url("ftp://discord.com/channels/432708847304704010/432708847304704013/1008041568613191813"),
        None
    );
}

#[test]
fn endpoint() {
    assert_eq!(
        parse_url("https://discord.com/nonsense/432708847304704010/432708847304704013/1008041568613191813"),
        None
    );
}

#[test]
fn nonsense() {
    assert_eq!(parse_url("not a url at all"), None);
}

#[test]
fn non_numeric() {
    assert_eq!(parse_url("https://discord.com/channels/039/not/numeric"), None);
}

#[test]
fn not_enough_segments() {
    assert_eq!(parse_url("https://discord.com/channels/432708847304704010/43"), None);
}

#[test]
fn empty() {
    assert_eq!(parse_url("https://discord.com/channels///"), None);
}
