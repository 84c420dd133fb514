use mcaedit_core::cli::{is_preview_invocation, parse_mask_opt, parse_pattern_arg, parse_xyz_i, parse_xz};

fn args(a: &[&str]) -> Vec<String> {
    a.iter().map(|s| s.to_string()).collect()
}

#[test]
fn preview_invocations() {
    assert!(is_preview_invocation(&args(&["preview"])));
    assert!(is_preview_invocation(&args(&["--session", "s1", "preview", "--chunks", "3"])));
    assert!(is_preview_invocation(&args(&["--json", "view", "preview"])));
    assert!(is_preview_invocation(&args(&["--session=s1", "preview"])));
    assert!(!is_preview_invocation(&args(&["--session", "preview"])));
    assert!(!is_preview_invocation(&args(&["view", "slice", "preview"])));
    assert!(!is_preview_invocation(&args(&["info"])));
    assert!(!is_preview_invocation(&args(&[])));
}

#[test]
fn coordinate_arguments() {
    assert_eq!(parse_xz("3,-4"), Ok((3, -4)));
    assert_eq!(parse_xz("+3,-0"), Ok((3, 0)));
    assert_eq!(parse_xz("3"), Err("expected x,z got `3`".to_string()));
    assert_eq!(parse_xz("1,2,3"), Err("expected x,z got `1,2,3`".to_string()));
    assert_eq!(parse_xz("a,2"), Err("invalid digit found in string".to_string()));
    assert_eq!(parse_xz("1,"), Err("cannot parse integer from empty string".to_string()));
    assert_eq!(parse_xz("-,1"), Err("invalid digit found in string".to_string()));
    assert_eq!(parse_xz("2147483648,0"), Err("number too large to fit in target type".to_string()));
    assert_eq!(parse_xz("-2147483649,0"), Err("number too small to fit in target type".to_string()));
    assert_eq!(parse_xz("-2147483648,2147483647"), Ok((i32::MIN, i32::MAX)));
    assert_eq!(parse_xz(" 1,2"), Err("invalid digit found in string".to_string()));
    assert_eq!(parse_xyz_i("1,-2,3"), Ok((1, -2, 3)));
    assert_eq!(parse_xyz_i("1,2"), Err("expected x,y,z got `1,2`".to_string()));
    assert_eq!(parse_xyz_i("1,2,x"), Err("invalid digit found in string".to_string()));
    // agrees with str::parse
    for s in ["0", "+7", "-7", "", "+", "-", "12a", "99999999999", "-99999999999", "99999999999x"] {
        let want = s.parse::<i32>().map_err(|e| e.to_string());
        let got = parse_xz(&format!("{s},0")).map(|(x, _)| x);
        assert_eq!(got, want, "{s}");
    }
}

#[test]
fn mask_and_pattern_options() {
    assert!(parse_mask_opt(None, None).unwrap().is_none());
    let m = parse_mask_opt(None, Some("stone")).unwrap().unwrap();
    assert!(!m.matches(&mcaedit_core::blockstate::BlockState::parse("minecraft:stone").unwrap()));
    assert!(m.matches(&mcaedit_core::blockstate::BlockState::parse("minecraft:dirt").unwrap()));
    assert!(parse_pattern_arg(None, None).is_err());
    assert_eq!(parse_pattern_arg(None, None).unwrap_err(), "need --block or --pattern");
    assert!(parse_pattern_arg(Some("minecraft:stone"), Some("minecraft:dirt")).is_ok());
    assert!(parse_pattern_arg(None, Some("minecraft:dirt")).is_ok());
}
