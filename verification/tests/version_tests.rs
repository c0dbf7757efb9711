use std::str::FromStr;
use vim_flavor::FromStrError;
use vim_flavor::Version;

#[test]
fn test_new() {
    assert_eq!(Version::new(1, 2, 3), Version { l: 1, m: 2, n: 3 });
}

#[test]
fn test_from_str() {
    assert_eq!(
        Version::from_str("3.21.0").ok(),
        Some(Version::new(3, 21, 0))
    );

    // str's parse method version.
    assert_eq!("3.21.0".parse().ok(), Some(Version::new(3, 21, 0)));

    assert!("".parse::<Version>().is_err());
    assert!("3210".parse::<Version>().is_err());
    assert!("3.210".parse::<Version>().is_err());
    assert!("3.2.1.0".parse::<Version>().is_err());

    assert!("3.-2.1".parse::<Version>().is_err());
    assert!("3.-.1".parse::<Version>().is_err());
    assert!("3.a.1".parse::<Version>().is_err());
}

#[test]
fn test_sort() {
    let vec = vec![Version::new(1, 2, 3), Version::new(1, 12, 2)];
    let mut s = vec.clone();
    s.sort();
    assert_eq!(s, vec);
}

#[test]
fn test_from_str_errors() {
    // Not three dot-separated fields.
    assert_eq!("1.2".parse::<Version>(), Err(FromStrError::Split3));
    assert_eq!("1.2.3.4".parse::<Version>(), Err(FromStrError::Split3));

    // A field that is not an unsigned decimal number.
    assert_eq!("1..3".parse::<Version>(), Err(FromStrError::Parse));
    assert_eq!("1.x.3".parse::<Version>(), Err(FromStrError::Parse));

    // A field too large for usize.
    assert_eq!(
        "1.2.99999999999999999999999999".parse::<Version>(),
        Err(FromStrError::Parse)
    );

    // An optional leading plus sign is part of the number syntax.
    assert_eq!("1.+2.3".parse::<Version>().ok(), Some(Version::new(1, 2, 3)));
}
