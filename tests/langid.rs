use unic_locale_core::errors::ParserError;
use unic_locale_core::langid::LanguageIdentifier;

fn parse_id(s: &str) -> LanguageIdentifier {
    LanguageIdentifier::try_from_str(s).expect("Parsing failed.")
}

fn parts(
    language: Option<&str>,
    script: Option<&str>,
    region: Option<&str>,
    variants: &[&str],
) -> LanguageIdentifier {
    let vs: Vec<&[u8]> = variants.iter().map(|v| v.as_bytes()).collect();
    LanguageIdentifier::from_parts(
        language.map(|s| s.as_bytes()),
        script.map(|s| s.as_bytes()),
        region.map(|s| s.as_bytes()),
        &vs,
    )
    .expect("Parsing failed.")
}

#[test]
fn parse() {
    let structured: Vec<(&str, Option<&str>, Option<&str>, Option<&str>, Vec<&str>)> = vec![
        ("en", Some("en"), None, None, vec![]),
        ("lij", Some("lij"), None, None, vec![]),
        ("en-Latn", Some("en"), Some("Latn"), None, vec![]),
        ("en-US", Some("en"), None, Some("US"), vec![]),
        ("en-Latn-US", Some("en"), Some("Latn"), Some("US"), vec![]),
        ("es-419", Some("es"), None, Some("419"), vec![]),
        ("sl-Latn-IT-nedis", Some("sl"), Some("Latn"), Some("IT"), vec!["nedis"]),
        ("de-CH-1996", Some("de"), None, Some("CH"), vec!["1996"]),
        ("und", None, None, None, vec![]),
        ("und-Cyrl", None, Some("Cyrl"), None, vec![]),
        ("ca-valencia-fonipa", Some("ca"), None, None, vec!["fonipa", "valencia"]),
    ];
    for (input, language, script, region, variants) in structured {
        assert_eq!(parse_id(input), parts(language, script, region, &variants), "{}", input);
    }
    let strings: Vec<(&str, &str)> = vec![
        ("EN-us", "en-US"),
        ("eN-lAtN-Us", "en-Latn-US"),
        ("und", "und"),
        ("ca-valencia-fonipa", "ca-fonipa-valencia"),
        ("ca-fonipa-fonipa", "ca-fonipa"),
        ("sl-nedis-1994", "sl-1994-nedis"),
    ];
    for (input, output) in strings {
        assert_eq!(parse_id(input).to_string(), output);
    }
}

#[test]
fn case_insensitive_parse() {
    assert_eq!(parse_id("EN-LATN-US"), parse_id("en-latn-us"));
    assert_eq!(parse_id("EN-LATN-US").to_string(), "en-Latn-US");
}

#[test]
fn variant_order_from_parts() {
    let a = parts(Some("ca"), None, None, &["valencia", "fonipa"]);
    let b = parts(Some("ca"), None, None, &["fonipa", "valencia"]);
    assert_eq!(a, b);
    assert_eq!(a.to_string(), "ca-fonipa-valencia");
}

#[test]
fn round_trip_canonical_strings() {
    for s in ["en", "en-US", "en-Latn-US", "sl-Latn-IT-nedis", "und-Cyrl", "es-419", "de-1996-fonipa"] {
        assert_eq!(parse_id(s).to_string(), s);
    }
}

#[test]
fn en_us_scenario() {
    let id = parse_id("en-US");
    assert_eq!(id, parts(Some("en"), None, Some("US"), &[]));
    assert_eq!(id.to_string(), "en-US");
}

#[test]
fn sl_latn_it_nedis_scenario() {
    let id = parse_id("sl-Latn-IT-nedis");
    assert_eq!(id, parts(Some("sl"), Some("Latn"), Some("IT"), &["nedis"]));
    assert_eq!(id.to_string(), "sl-Latn-IT-nedis");
}

#[test]
fn length_boundaries() {
    assert!(LanguageIdentifier::try_from_str("abcdefgh").is_ok());
    assert!(LanguageIdentifier::try_from_str("abcdefghi").is_err());
    assert!(LanguageIdentifier::try_from_str("en-abcdefgh").is_ok());
    assert_eq!(
        LanguageIdentifier::try_from_str("en-abcdefghi"),
        Err(ParserError::InvalidSubtag)
    );
    assert_eq!(LanguageIdentifier::try_from_str("en-Latnn").map(|i| i.to_string()), Ok("en-latnn".to_string()));
}

#[test]
fn language_errors() {
    assert_eq!(LanguageIdentifier::try_from_str(""), Err(ParserError::MissingPrimaryLanguage));
    assert_eq!(LanguageIdentifier::try_from_str("e"), Err(ParserError::MissingPrimaryLanguage));
    assert_eq!(LanguageIdentifier::try_from_str("e1"), Err(ParserError::MissingPrimaryLanguage));
    assert_eq!(LanguageIdentifier::try_from_str("abcd"), Err(ParserError::MissingPrimaryLanguage));
    assert_eq!(LanguageIdentifier::try_from_str("Latn-en"), Err(ParserError::MissingPrimaryLanguage));
}

#[test]
fn subtag_errors() {
    assert_eq!(LanguageIdentifier::try_from_str("en-"), Err(ParserError::InvalidSubtag));
    assert_eq!(LanguageIdentifier::try_from_str("en-US-Latn"), Err(ParserError::InvalidSubtag));
    assert_eq!(LanguageIdentifier::try_from_str("en-41a"), Err(ParserError::InvalidSubtag));
    assert_eq!(LanguageIdentifier::try_from_str("en-abc"), Err(ParserError::InvalidSubtag));
    assert_eq!(LanguageIdentifier::try_from_str("en-x-foo"), Err(ParserError::InvalidSubtag));
    assert_eq!(LanguageIdentifier::try_from_str("en-a!bcd"), Err(ParserError::InvalidSubtag));
}

#[test]
fn from_parts_errors() {
    let none: [&[u8]; 0] = [];
    assert_eq!(
        LanguageIdentifier::from_parts(Some(b"e1".as_slice()), None, None, &none),
        Err(ParserError::InvalidSubtag)
    );
    assert_eq!(
        LanguageIdentifier::from_parts(None, Some(b"Lat".as_slice()), None, &none),
        Err(ParserError::InvalidSubtag)
    );
    assert_eq!(
        LanguageIdentifier::from_parts(None, None, Some(b"USA".as_slice()), &none),
        Err(ParserError::InvalidSubtag)
    );
    assert_eq!(
        LanguageIdentifier::from_parts(None, None, None, &[b"abc".as_slice()]),
        Err(ParserError::InvalidSubtag)
    );
    let id = LanguageIdentifier::from_parts(Some(b"UND".as_slice()), None, Some(b"fr".as_slice()), &none).unwrap();
    assert_eq!(id.to_string(), "und-FR");
    assert_eq!(id, parse_id("und-FR"));
}

#[test]
fn field_access() {
    let id = parse_id("SL-latn-it-NEDIS-1994");
    assert_eq!(id.language().as_ref().map(|s| s.as_bytes()), Some(b"sl".as_slice()));
    assert_eq!(id.script().as_ref().map(|s| s.as_bytes()), Some(b"Latn".as_slice()));
    assert_eq!(id.region().as_ref().map(|s| s.as_bytes()), Some(b"IT".as_slice()));
    let vs: Vec<&[u8]> = id.variants().iter().map(|s| s.as_bytes()).collect();
    assert_eq!(vs, vec![b"1994".as_slice(), b"nedis".as_slice()]);
    assert!(parse_id("und-US").language().is_none());
    assert_ne!(parse_id("en-US"), parse_id("en-GB"));
}

#[test]
fn langid_from_str() {
    let id: LanguageIdentifier = "de-at".parse().unwrap();
    assert_eq!(id.to_string(), "de-AT");
    assert_eq!("1de".parse::<LanguageIdentifier>(), Err(ParserError::MissingPrimaryLanguage));
}
