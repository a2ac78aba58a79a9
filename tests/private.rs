use unic_locale_core::errors::ParserError;
use unic_locale_core::locale::Locale;
use unic_locale_core::private::PrivateExtensionList;

#[test]
fn add_tag_order() {
    let mut ab = PrivateExtensionList::new();
    ab.add_tag(b"b").unwrap();
    ab.add_tag(b"a").unwrap();
    let mut ba = PrivateExtensionList::new();
    ba.add_tag(b"a").unwrap();
    ba.add_tag(b"b").unwrap();
    assert_eq!(ab, ba);
    assert_eq!(ab.to_string(), "-x-a-b");
    assert_eq!(ba.to_string(), "-x-a-b");
}

#[test]
fn add_tag_lowercases_and_keeps_repeats() {
    let mut l = PrivateExtensionList::new();
    assert_eq!(l, PrivateExtensionList::default());
    assert!(l.is_empty());
    assert_eq!(l.to_string(), "");
    l.add_tag(b"FOO").unwrap();
    l.add_tag(b"foo").unwrap();
    l.add_tag(b"a1").unwrap();
    assert!(!l.is_empty());
    assert_eq!(l.len(), 3);
    assert_eq!(l.to_string(), "-x-a1-foo-foo");
}

#[test]
fn add_tag_rejects() {
    let mut l = PrivateExtensionList::new();
    l.add_tag(b"abcdefgh").unwrap();
    assert_eq!(l.add_tag(b"abcdefghi"), Err(ParserError::InvalidSubtag));
    assert_eq!(l.add_tag(b""), Err(ParserError::InvalidSubtag));
    assert_eq!(l.add_tag(b"a-b"), Err(ParserError::InvalidSubtag));
    assert_eq!(l.add_tag(&[0u8]), Err(ParserError::InvalidSubtag));
    assert_eq!(l.add_tag("é".as_bytes()), Err(ParserError::InvalidSubtag));
    assert_eq!(l.to_string(), "-x-abcdefgh");
}

#[test]
fn try_from_iter_sorts() {
    let raw = vec![b"Zz".to_vec(), b"b".to_vec(), b"a".to_vec()];
    let l = PrivateExtensionList::try_from_iter(&raw).unwrap();
    assert_eq!(l.to_string(), "-x-a-b-zz");
    let bad = vec![b"a".to_vec(), b"".to_vec()];
    assert_eq!(PrivateExtensionList::try_from_iter(&bad).err(), Some(ParserError::InvalidSubtag));
    assert!(PrivateExtensionList::try_from_iter(&[]).unwrap().is_empty());
}

#[test]
fn private_use_scenario() {
    let l = Locale::try_from_str("en-x-b-a").unwrap();
    assert_eq!(l, Locale::try_from_str("en-x-a-b").unwrap());
    assert_ne!(l, Locale::try_from_str("en-x-a").unwrap());
    assert_eq!(l.to_string(), "en-x-a-b");
}

#[test]
fn locale_round_trip() {
    for s in ["en-US", "en-US-x-a-b", "sl-Latn-IT-nedis-x-abc", "und-x-x"] {
        assert_eq!(Locale::try_from_str(s).unwrap().to_string(), s);
    }
    assert_eq!(Locale::try_from_str("EN-x-B-a-B").unwrap().to_string(), "en-x-a-b-b");
}

#[test]
fn empty_extension() {
    assert_eq!(Locale::try_from_str("en-x").err(), Some(ParserError::EmptyExtension));
    assert_eq!(Locale::try_from_str("en-US-X").err(), Some(ParserError::EmptyExtension));
    assert_eq!(Locale::try_from_str("en-x-").err(), Some(ParserError::InvalidSubtag));
}

#[test]
fn locale_errors() {
    assert_eq!(Locale::try_from_str("en-u-ca").err(), Some(ParserError::InvalidSubtag));
    assert_eq!(Locale::try_from_str("en-x-abcdefghi").err(), Some(ParserError::InvalidSubtag));
    assert_eq!(Locale::try_from_str("x-abc").err(), Some(ParserError::MissingPrimaryLanguage));
    assert_eq!(Locale::try_from_str("en-US-Latn-x-a").err(), Some(ParserError::InvalidSubtag));
}

#[test]
fn locale_parts() {
    let l = Locale::try_from_str("sl-Latn-x-b-a").unwrap();
    assert_eq!(l.id().to_string(), "sl-Latn");
    assert_eq!(l.private().to_string(), "-x-a-b");
    assert_eq!(l.private().len(), 2);
}

#[test]
fn locale_from_str() {
    let l: Locale = "EN-us-X-Foo".parse().unwrap();
    assert_eq!(l.to_string(), "en-US-x-foo");
    assert_eq!("en-x".parse::<Locale>().err(), Some(ParserError::EmptyExtension));
}
