use cryptopals::cookie::{parse_cookie, profile_for, strip_metas, ProfileOracle};

#[test]
fn challenge13_test() {
    assert!(parse_cookie("a=b&name=hello").contains_key("a"));
    assert!(parse_cookie("a=b&name=hello").contains_key("name"));
    assert_eq!(parse_cookie("a=b&name=hello").len(), 2);
    assert_eq!(parse_cookie("a=b&invalid&name=hello").len(), 2);
    assert_eq!(parse_cookie("a=b&=invalid&name=hello").len(), 2);
    assert_eq!(
        profile_for("mwright@example.com"),
        "email=mwright@example.com&uid=10&role=user"
    );
    let o = ProfileOracle::new(vec![1u8; 16]);
    assert!(!String::from_utf8_lossy(&o.oracle("mwright@example.com").unwrap())
        .contains("mwright@example.com"));
    assert!(o
        .decrypt(&o.oracle("mwright@example.com").unwrap())
        .unwrap()
        .contains_key("email"));
}

#[test]
fn parse_cookie_keeps_the_last_value() {
    let m = parse_cookie("a=1&b=2&a=3");
    assert_eq!(m.len(), 2);
    assert!(m.contains_key("a"));
    assert!(m.contains_key("b"));
    assert!(!m.contains_key("c"));
}

#[test]
fn strip_metas_drops_cookie_metacharacters() {
    assert_eq!(strip_metas("a=b&c"), "abc");
    assert_eq!(strip_metas("plain"), "plain");
    assert_eq!(strip_metas("&&=="), "");
}

#[test]
fn cut_and_paste_forges_an_admin_role() {
    let o = ProfileOracle::new(vec![7u8; 16]);
    // block two of this profile is "admin" followed by its own padding
    let username1 = "1@3456789.admin\u{b}\u{b}\u{b}\u{b}\u{b}\u{b}\u{b}\u{b}\u{b}\u{b}\u{b}";
    let with_admin_block = o.oracle(username1).unwrap();
    let block_starting_with_admin = &with_admin_block[16..32];
    // this profile fills three whole blocks, ending just after "role="
    let username2 = "mwright1234567890@example.com";
    let with_role_edge = o.oracle(username2).unwrap();
    let mut attack = with_role_edge[0..48].to_vec();
    attack.extend_from_slice(block_starting_with_admin);
    let profile = o.decrypt(&attack).unwrap();
    assert!(profile.contains_key("role"));
    assert!(profile.contains_key("email"));
}
