use vpin::vpx::latin1::{Latin1Error, Latin1String};

#[test]
fn accepts_what_a_record_can_carry() {
    let s = Latin1String::try_from("M\u{e9}tal \u{ff}").unwrap();
    assert_eq!(s.as_str(), "M\u{e9}tal \u{ff}");
    assert_eq!(s.to_bytes().as_slice(), b"M\xe9tal \xff");
}

#[test]
fn rejects_the_first_character_outside_latin1() {
    assert_eq!(
        "ok \u{2713} \u{2713}".parse::<Latin1String>(),
        Err(Latin1Error {
            character: '\u{2713}',
            index: 3
        })
    );
    // the reader stops at the first NUL
    assert_eq!(
        Latin1String::try_from("a\0b".to_string()),
        Err(Latin1Error {
            character: '\0',
            index: 1
        })
    );
}

#[test]
fn lossy_conversion_replaces_with_question_marks() {
    assert_eq!(Latin1String::from_lossy("Metal \u{2713} ok").as_str(), "Metal ? ok");
    assert_eq!(Latin1String::from_lossy("M\u{e9}tal").as_str(), "M\u{e9}tal");
}

#[test]
fn error_index_counts_utf8_bytes() {
    // two-byte characters before the offending one
    let err = Latin1String::try_from_str("\u{e9}\u{e9}\u{100}").unwrap_err();
    assert_eq!(err, Latin1Error { character: '\u{100}', index: 4 });
    // a four-byte character is itself the error, at the offset after the ascii prefix
    let err = Latin1String::try_from_str("ab\u{1F600}").unwrap_err();
    assert_eq!(err, Latin1Error { character: '\u{1F600}', index: 2 });
}

#[test]
fn new_and_default_are_empty() {
    assert_eq!(Latin1String::new().as_str(), "");
    assert_eq!(Latin1String::default().as_str(), "");
    assert!(Latin1String::new().to_bytes().is_empty());
}

#[test]
fn into_string_and_clone_keep_the_text() {
    let s = Latin1String::try_from_str("Bumper \u{e4}").unwrap();
    let c = s.clone();
    assert_eq!(s.into_string(), "Bumper \u{e4}".to_string());
    assert_eq!(c.as_str(), "Bumper \u{e4}");
}

#[test]
fn lossy_of_carried_string_is_unchanged_and_idempotent() {
    let once = Latin1String::from_lossy("a\u{0}b\u{20ac}c");
    assert_eq!(once.as_str(), "a?b?c");
    let twice = Latin1String::from_lossy(once.as_str());
    assert_eq!(twice.as_str(), once.as_str());
}

#[test]
fn bytes_have_no_nul_and_read_back() {
    let s = Latin1String::try_from_str("\u{1}x\u{ff}").unwrap();
    let bytes = s.to_bytes();
    assert_eq!(bytes, vec![1u8, b'x', 0xff]);
    assert!(bytes.iter().all(|b| *b != 0));
    let back: String = bytes.iter().map(|b| *b as char).collect();
    assert_eq!(back, s.as_str());
}

#[test]
fn validate_reports_ok_for_carried_text() {
    assert_eq!(vpin::vpx::latin1::validate("plain ascii"), Ok(()));
    assert!(vpin::vpx::latin1::is_latin1('\u{ff}'));
    assert!(!vpin::vpx::latin1::is_latin1('\u{0}'));
    assert!(!vpin::vpx::latin1::is_latin1('\u{100}'));
}
