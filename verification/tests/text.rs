use vela_sim::drive::max_events_override;
use vela_sim::text::{is_white_space, parse_u64, trim_bounds};

fn trimmed(s: &str) -> String {
    let (lo, hi) = trim_bounds(s);
    s.chars().skip(lo).take(hi - lo).collect()
}

#[test]
fn white_space_is_that_of_unicode() {
    for n in 0..=0x10_FFFFu32 {
        if let Some(c) = char::from_u32(n) {
            assert_eq!(is_white_space(c), c.is_whitespace(), "U+{n:04X}");
        }
    }
}

#[test]
fn trimming_takes_the_space_around_a_text() {
    for s in ["", " ", "\t\n x y \u{3000}", "plain", "\u{85}é\u{a0}", "a b"] {
        assert_eq!(trimmed(s), s.trim());
        assert_eq!(trimmed(&trimmed(s)), s.trim());
    }
}

#[test]
fn numbers_are_read_as_std_reads_them() {
    for s in [
        "0", "7", "+7", "007", "18446744073709551615", "18446744073709551616",
        "99999999999999999999999", "", "+", "-1", "-0", "1_000", "12a", "a", " 1", "++1", "१",
    ] {
        assert_eq!(parse_u64(s, 0, s.chars().count()), s.parse::<u64>().ok(), "{s:?}");
    }
}

#[test]
fn an_event_count_is_read_from_the_environment() {
    assert_eq!(max_events_override(None), None);
    assert_eq!(max_events_override(Some(" 250 \n".to_string())), Some(250));
    assert_eq!(max_events_override(Some("many".to_string())), None);
    assert_eq!(max_events_override(Some(String::new())), None);
}
