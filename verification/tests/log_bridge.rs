use zeroclaw::log_bridge::{
    is_safe_target_byte, safe_target, Level, LevelFilter, LogRecord, RedactingLogBridge,
    MAX_TARGET_LEN, REDACTED_MESSAGE, REDACTED_TARGET,
};

/// The shapes the pinned dependency tree actually emits must cross
/// untouched, or the bridge stops being addressable by `RUST_LOG` and
/// stops naming which dependency spoke.
#[test]
fn real_dependency_targets_cross_verbatim() {
    for target in [
        "whatsapp_rust",
        "whatsapp_rust::socket",
        "Client/PairCode",
        "Client/UnifiedSession",
        "usync",
        "h2",
    ] {
        assert_eq!(
            safe_target(target),
            target,
            "a target the dependency tree really uses must cross verbatim"
        );
    }
}

/// Everything outside the documented representation is replaced whole:
/// no truncation, no character scrubbing, so no fragment survives.
#[test]
fn targets_outside_the_safe_representation_are_replaced_whole() {
    let over_long = "a".repeat(MAX_TARGET_LEN + 1);
    for target in [
        "",
        "has space",
        "972501234567@s.whatsapp.net",
        "/etc/passwd\n",
        "Zoë Müller",
        "target=Alice",
        "quoted\"target",
        over_long.as_str(),
    ] {
        assert_eq!(
            safe_target(target),
            REDACTED_TARGET,
            "a target outside the safe representation must be replaced whole: {target:?}"
        );
    }
    // The boundary itself, so the cap is a cap and not an off-by-one.
    let at_limit = "a".repeat(MAX_TARGET_LEN);
    assert_eq!(safe_target(&at_limit), at_limit);
}

/// The replacement is itself outside the representation, so re-running
/// the rule over an already-replaced target cannot resurrect anything.
#[test]
fn the_target_replacement_is_idempotent() {
    assert_eq!(safe_target(REDACTED_TARGET), REDACTED_TARGET);
}

#[test]
fn the_replacements_and_the_cap_have_their_values() {
    assert_eq!(REDACTED_MESSAGE, "[third-party message redacted]");
    assert_eq!(REDACTED_TARGET, "[third-party target redacted]");
    assert_eq!(MAX_TARGET_LEN, 128);
}

#[test]
fn safe_bytes_are_letters_digits_and_a_few_marks() {
    for byte in 0..=255u8 {
        let expected = byte.is_ascii_alphanumeric() || b"_:/".contains(&byte);
        assert_eq!(is_safe_target_byte(byte), expected, "byte {byte}");
    }
}

fn record<'a>(level: Level, target: &'a str, message: &'a str) -> LogRecord<'a> {
    LogRecord {
        level,
        target,
        message: Some(message),
        module: Some("secret::module"),
        file: Some("/home/alice/secret.rs"),
        line: Some(7),
    }
}

#[test]
fn no_free_text_crosses() {
    let bridge = RedactingLogBridge;
    let crossed = bridge
        .log(
            &record(Level::Warn, "usync", "contact Alice joined"),
            LevelFilter::Trace,
            true,
        )
        .unwrap();
    assert_eq!(crossed.level, Level::Warn);
    assert_eq!(crossed.target, "usync");
    assert_eq!(crossed.message, REDACTED_MESSAGE);
    assert_eq!(crossed.line, Some(7));

    let crossed = bridge
        .log(
            &record(Level::Warn, "972501234567@s.whatsapp.net", "hello"),
            LevelFilter::Trace,
            true,
        )
        .unwrap();
    assert_eq!(crossed.target, REDACTED_TARGET);
}

#[test]
fn unwanted_records_do_not_cross() {
    let bridge = RedactingLogBridge;
    let r = record(Level::Info, "h2", "x");
    assert!(bridge.log(&r, LevelFilter::Trace, false).is_none());
    assert!(bridge.log(&r, LevelFilter::Warn, true).is_none());
    assert!(bridge.log(&r, LevelFilter::Info, true).is_some());
}

#[test]
fn the_subscriber_is_asked_about_the_crossing_target() {
    let bridge = RedactingLogBridge;
    let levels = [
        Level::Error,
        Level::Warn,
        Level::Info,
        Level::Debug,
        Level::Trace,
    ];
    let filters = [
        LevelFilter::Off,
        LevelFilter::Error,
        LevelFilter::Warn,
        LevelFilter::Info,
        LevelFilter::Debug,
        LevelFilter::Trace,
    ];
    for (i, level) in levels.iter().enumerate() {
        for (j, max) in filters.iter().enumerate() {
            let asked = bridge.enabled(*level, *max, "has space");
            if i + 1 <= j {
                assert_eq!(asked, Some(REDACTED_TARGET));
            } else {
                assert_eq!(asked, None);
            }
        }
    }
    assert_eq!(
        bridge.enabled(Level::Error, LevelFilter::Error, "h2"),
        Some("h2")
    );
}

#[test]
fn targets_that_are_replaced_cross_alike() {
    let bridge = RedactingLogBridge;
    let one = record(Level::Info, "alice@example.org", "hello");
    let other = record(Level::Info, "has space", "bye");
    let a = bridge.log(&one, LevelFilter::Info, true).unwrap();
    let b = bridge.log(&other, LevelFilter::Info, true).unwrap();
    assert_eq!((a.level, a.target, a.message, a.line), (b.level, b.target, b.message, b.line));
}
