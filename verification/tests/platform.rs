use native_audio_capture::platform::{is_supported, MIN_MAJOR, MIN_MINOR};

/// The same decision with the text functions of the standard library.
fn by_the_standard_library(version: &str) -> bool {
    let parts: Vec<u32> = version.trim().split('.').filter_map(|p| p.parse().ok()).collect();
    if parts.len() >= 2 {
        parts[0] > 14 || (parts[0] == 14 && parts[1] >= 2)
    } else if parts.len() == 1 {
        parts[0] > 14
    } else {
        false
    }
}

#[test]
fn minimum_is_fourteen_two() {
    assert_eq!((MIN_MAJOR, MIN_MINOR), (14, 2));
    assert!(is_supported("14.2"));
    assert!(is_supported("14.2.0"));
    assert!(is_supported("14.2.1"));
    assert!(is_supported("14.10"));
    assert!(is_supported("15.0"));
    assert!(is_supported("26.1"));
    assert!(!is_supported("14.1"));
    assert!(!is_supported("14.1.9"));
    assert!(!is_supported("14.0"));
    assert!(!is_supported("13.6.1"));
    assert!(!is_supported("10.15.7"));
}

#[test]
fn major_alone_must_exceed_fourteen() {
    assert!(is_supported("15"));
    assert!(!is_supported("14"));
    assert!(!is_supported("13"));
}

#[test]
fn white_space_around_the_version_is_dropped() {
    assert!(is_supported("14.2.1\n"));
    assert!(is_supported("  14.2\r\n"));
    assert!(is_supported("\t15\n"));
    assert!(is_supported("\u{a0}14.2\u{3000}"));
    assert!(is_supported("\u{2003}14.2\u{85}"));
    assert!(!is_supported(" 14.1 "));
    // Inside the version it makes a component unreadable.
    assert!(!is_supported("14 .2"));
    assert!(!is_supported("14. 2"));
    assert!(!is_supported("15 .0"));
    assert!(is_supported("15 .15"));
}

#[test]
fn nothing_readable_is_unsupported() {
    assert!(!is_supported(""));
    assert!(!is_supported("   "));
    assert!(!is_supported("."));
    assert!(!is_supported("..."));
    assert!(!is_supported("abc"));
    assert!(!is_supported("fourteen.two"));
}

#[test]
fn unreadable_components_are_passed_over() {
    assert!(is_supported("14.x.3"));
    assert!(!is_supported("14.x.1"));
    assert!(is_supported("14..2"));
    assert!(is_supported("x.15"));
    assert!(!is_supported("x.14"));
    assert!(is_supported("14.2.x"));
    assert!(!is_supported("-14.2"));
    assert!(is_supported("-1.15"));
    assert!(is_supported("14.2beta.7"));
    assert!(!is_supported("14.2beta.1"));
}

#[test]
fn numbers_read_as_the_standard_library_reads_them() {
    assert!(is_supported("+14.2"));
    assert!(is_supported("14.+2"));
    assert!(is_supported("+.14.2"));
    assert!(!is_supported("+.14.1"));
    assert!(is_supported("+.14.2"));
    assert!(!is_supported("+.14.1"));
    assert!(is_supported("014.002"));
    assert!(is_supported("4294967295"));
    assert!(is_supported("14.4294967295"));
    assert!(!is_supported("4294967296"));
    assert!(!is_supported("4294967296.1"));
    assert!(is_supported("99999999999999999999.15"));
    assert!(!is_supported("14.99999999999999999999"));
    assert!(!is_supported("１４.２"));
}

#[test]
fn agrees_with_the_standard_library() {
    let pieces = [
        "", " ", "\n", "\t", ".", "+", "-", "0", "1", "2", "14", "15", "13", "x", "4294967295",
        "4294967296", "\u{a0}", "\u{2028}", "9", "00", "é",
    ];
    for a in pieces {
        for b in pieces {
            for c in pieces {
                for d in pieces {
                    let text = format!("{}{}{}{}", a, b, c, d);
                    assert_eq!(is_supported(&text), by_the_standard_library(&text), "{:?}", text);
                }
            }
        }
    }
}
