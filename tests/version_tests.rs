use version::{ParseError, Version};

#[test]
fn test_newer() {
    let v_old = Version::build_string("1.0.0").unwrap();
    let v_new = Version::build_string("1.1.0").unwrap();

    assert_eq!(v_old.is_newer(&v_new), false);
    assert_eq!(v_new.is_newer(&v_old), true);

    let v_new = Version::build_string("2.0.0").unwrap();

    assert_eq!(v_old.is_newer(&v_new), false);
    assert_eq!(v_new.is_newer(&v_old), true);
}

#[test]
fn test_build() {
    let v_not_suffix = Version::build_string("1.0.0").unwrap();
    let v_has_suffix = Version::build_string("1.0.0-beta").unwrap();
    let v_less_patch = Version::build_string("1.0-beta").unwrap();

    println!(
        "v_not_suffix: {}\nv_has_suffix: {}\nv_less_patch: {}\n",
        v_not_suffix.to_string(),
        v_has_suffix.to_string(),
        v_less_patch.to_string()
    );
    assert_eq!(v_not_suffix.to_string(), "1.0.0");
    assert_eq!(v_has_suffix.to_string(), "1.0.0-beta");
    assert_eq!(v_less_patch.to_string(), "1.0.0-beta");
}

#[test]
fn test_suffix() {
    let v_has_suffix = Version::build_string("1.0.0").unwrap();
    let v_has_not_suffix = Version::build_string("1.0.0-beta").unwrap();

    assert_eq!(v_has_suffix.is_newer(&v_has_not_suffix), true)
}

#[test]
#[should_panic]
fn test_error_number() {
    let _ = Version::build_string("homo.114514.1919810").unwrap();
}

#[test]
#[should_panic]
fn test_error_length() {
    let _ = Version::build_string("1-beta").unwrap();
}

#[test]
fn prerelease_is_not_newer_than_release() {
    let beta = Version::build_string("1.0.0-beta").unwrap();
    let release = Version::build_string("1.0.0").unwrap();
    assert!(!beta.is_newer(&release));
}

#[test]
fn equal_versions_are_not_newer_either_way() {
    let a = Version::build_string("3.4.5").unwrap();
    let b = Version::build_string("3.4.5").unwrap();
    assert!(!a.is_newer(&b));
    assert!(!b.is_newer(&a));
    let c = Version::build_string("3.4.5-rc1").unwrap();
    let d = Version::build_string("3.4.5-rc2").unwrap();
    assert!(!c.is_newer(&d));
    assert!(!d.is_newer(&c));
}

#[test]
fn numeric_order_decides_before_suffix() {
    let a = Version::build_string("1.2.4-beta").unwrap();
    let b = Version::build_string("1.2.3").unwrap();
    assert!(a.is_newer(&b));
    assert!(!b.is_newer(&a));
    let c = Version::build_string("2.0.0").unwrap();
    let d = Version::build_string("1.9.9").unwrap();
    assert!(c.is_newer(&d));
    let e = Version::build_string("1.10.0").unwrap();
    let f = Version::build_string("1.9.200").unwrap();
    assert!(e.is_newer(&f));
}

#[test]
fn newer_given_uses_the_release_flags() {
    let a = Version::build_string("1.0.0").unwrap();
    let b = Version::build_string("1.0.0").unwrap();
    assert!(a.newer_given(&b, true, false));
    assert!(!a.newer_given(&b, false, true));
    assert!(!a.newer_given(&b, true, true));
    assert!(!a.newer_given(&b, false, false));
}

#[test]
fn missing_patch_defaults_to_zero() {
    let v = Version::build_string("1.0-beta").unwrap();
    assert_eq!(v.major(), 1);
    assert_eq!(v.minor(), 0);
    assert_eq!(v.patch(), 0);
    assert_eq!(v.suffix(), "beta");
    assert_eq!(v.to_string(), "1.0.0-beta");
}

#[test]
fn fields_are_read_in_order() {
    let v = Version::build_string("255.10.7-rc1").unwrap();
    assert_eq!((v.major(), v.minor(), v.patch()), (255, 10, 7));
    assert_eq!(v.suffix(), "rc1");
    assert_eq!(v.to_string(), "255.10.7-rc1");
}

#[test]
fn non_numeric_field_is_int_error() {
    let r = Version::build_string("homo.114514.1919810");
    assert!(matches!(r, Err(ParseError::IntError(_))));
}

#[test]
fn out_of_range_field_is_int_error() {
    assert!(matches!(Version::build_string("256.0.0"), Err(ParseError::IntError(_))));
    assert!(matches!(Version::build_string("1.2.300"), Err(ParseError::IntError(_))));
    assert!(matches!(Version::build_string("1..2"), Err(ParseError::IntError(_))));
    assert!(matches!(Version::build_string("-1.2"), Err(ParseError::LengthError)));
}

#[test]
fn single_field_is_length_error() {
    assert!(matches!(Version::build_string("1-beta"), Err(ParseError::LengthError)));
    assert!(matches!(Version::build_string(""), Err(ParseError::LengthError)));
}

#[test]
fn four_fields_is_length_error() {
    assert!(matches!(Version::build_string("1.2.3.4"), Err(ParseError::LengthError)));
    assert!(matches!(Version::build_string("a.b.c.d-x"), Err(ParseError::LengthError)));
}

#[test]
fn numbers_follow_unsigned_integer_syntax() {
    let v = Version::build_string("+1.007.0").unwrap();
    assert_eq!((v.major(), v.minor(), v.patch()), (1, 7, 0));
    assert_eq!(v.to_string(), "1.7.0");
}

#[test]
fn suffix_keeps_everything_after_the_first_dash() {
    let v = Version::build_string("1.0.0-beta-2").unwrap();
    assert_eq!(v.suffix(), "beta-2");
    assert_eq!(v.to_string(), "1.0.0-beta-2");
    let w = Version::build_string("1.2-").unwrap();
    assert_eq!(w.patch(), 0);
    assert_eq!(w.suffix(), "");
    assert!(w.is_release());
}

#[test]
fn blank_suffix_counts_as_release() {
    let v = Version::build_string("1.0.0- \t").unwrap();
    assert_eq!(v.suffix(), " \t");
    assert!(v.is_release());
    assert_eq!(v.to_string(), "1.0.0");
    assert_eq!(v.render(false), "1.0.0- \t");
    let pre = Version::build_string("1.0.0-beta").unwrap();
    assert!(v.is_newer(&pre));
}

#[test]
fn padded_suffix_is_kept_verbatim() {
    let v = Version::build_string("1.0.0- beta ").unwrap();
    assert!(!v.is_release());
    assert_eq!(v.to_string(), "1.0.0- beta ");
    assert_eq!(v.render(true), "1.0.0");
}

#[test]
fn rendered_text_parses_back() {
    for text in ["0.0.0", "1.2.3-rc1", "255.255.255-beta-7", "10.0.99-a.b"] {
        let v = Version::build_string(text).unwrap();
        let w = Version::build_string(&v.to_string()).unwrap();
        assert_eq!((w.major(), w.minor(), w.patch()), (v.major(), v.minor(), v.patch()));
        assert_eq!(w.suffix(), v.suffix());
        assert_eq!(w.to_string(), text);
    }
    let blank = Version::build_string("4.5.6-  ").unwrap();
    let back = Version::build_string(&blank.to_string()).unwrap();
    assert_eq!((back.major(), back.minor(), back.patch()), (4, 5, 6));
    assert_eq!(back.suffix(), "");
}
