use public_ip_notifier::config::{Config, ToConfig};
use public_ip_notifier::document::{Document, InvalidPathError};
use public_ip_notifier::error::StoreError;
use public_ip_notifier::notifier::{
    accept_address, accept_length, compose_notification, pause_seconds, poll_step,
    record_address, Notification, PollStep,
};
use public_ip_notifier::store::load;

fn config(ip: &str, minutes: u64) -> Config {
    Config::new(
        "me@example.com".to_string(),
        "someone".to_string(),
        "secret".to_string(),
        "smtp.example.com".to_string(),
        465,
        "you@example.com".to_string(),
        minutes,
        ip.to_string(),
        0,
        0,
    )
}

#[test]
fn address_is_trimmed() {
    assert_eq!(accept_address("  203.0.113.7\n"), Ok("203.0.113.7".to_string()));
    assert_eq!(accept_address("\t1.2.3.4\r\n"), Ok("1.2.3.4".to_string()));
}

#[test]
fn address_length_is_checked_in_bytes() {
    assert_eq!(accept_address("1.2.3.4"), Ok("1.2.3.4".to_string()));
    assert_eq!(accept_address("1.2.3."), Err(StoreError::Network));
    assert_eq!(accept_address("255.255.255.255"), Ok("255.255.255.255".to_string()));
    assert_eq!(accept_address("255.255.255.2555"), Err(StoreError::Network));
    assert_eq!(accept_address(""), Err(StoreError::Network));
    assert_eq!(accept_address("   \n"), Err(StoreError::Network));
    assert_eq!(accept_address("\u{e9}\u{e9}\u{e9}\u{e9}"), Ok("\u{e9}\u{e9}\u{e9}\u{e9}".to_string()));
    assert_eq!(accept_address("\u{e9}\u{e9}\u{e9}"), Err(StoreError::Network));
    assert_eq!(
        accept_address("\u{e9}\u{e9}\u{e9}\u{e9}\u{e9}\u{e9}\u{e9}\u{e9}"),
        Err(StoreError::Network)
    );
}

#[test]
fn every_whitespace_character_is_trimmed() {
    let spaces = [
        '\u{9}', '\u{a}', '\u{b}', '\u{c}', '\u{d}', ' ', '\u{85}', '\u{a0}', '\u{1680}',
        '\u{2000}', '\u{2001}', '\u{2002}', '\u{2003}', '\u{2004}', '\u{2005}', '\u{2006}',
        '\u{2007}', '\u{2008}', '\u{2009}', '\u{200a}', '\u{2028}', '\u{2029}', '\u{202f}',
        '\u{205f}', '\u{3000}',
    ];
    for c in spaces {
        let output = format!("{}{}1.2.3.4{}", c, c, c);
        assert_eq!(accept_address(&output), Ok("1.2.3.4".to_string()), "{:?}", c);
    }
    let mut count = 0;
    for code in 0..=0x10ffffu32 {
        if let Some(c) = char::from_u32(code) {
            assert_eq!(c.is_whitespace(), spaces.contains(&c), "{:?}", c);
            count += 1;
        }
    }
    assert!(count > 1_000_000);
    for c in ['\u{200b}', '\u{180e}', '\u{feff}', '\u{0}', '\u{1f}'] {
        let output = format!("{}1.2.3.4", c);
        assert_eq!(accept_address(&output), Ok(output.clone()), "{:?}", c);
    }
    assert_eq!(accept_address("1.2 3.4"), Ok("1.2 3.4".to_string()));
}

#[test]
fn length_is_checked_on_the_text_as_it_is() {
    assert_eq!(accept_length("1.2.3.4"), Ok("1.2.3.4".to_string()));
    assert_eq!(accept_length(" 1.2.3 "), Ok(" 1.2.3 ".to_string()));
    assert_eq!(accept_length("1.2.3"), Err(StoreError::Network));
    assert_eq!(accept_length("1234567890123456"), Err(StoreError::Network));
}

#[test]
fn round_with_the_known_address_changes_nothing() {
    let c = config("1.2.3.4", 5);
    assert_eq!(poll_step(&c, Ok("1.2.3.4".to_string())), PollStep::Unchanged);
}

#[test]
fn round_with_a_new_address_reports_it() {
    let c = config("1.2.3.4", 5);
    assert_eq!(
        poll_step(&c, Ok("5.6.7.8".to_string())),
        PollStep::Changed { address: "5.6.7.8".to_string() }
    );
}

#[test]
fn round_without_an_address_is_unreachable() {
    let c = config("1.2.3.4", 5);
    assert_eq!(poll_step(&c, Err(StoreError::Network)), PollStep::Unreachable);
    assert_eq!(poll_step(&c, Err(StoreError::Io)), PollStep::Unreachable);
}

#[test]
fn recorded_address_is_the_known_one_of_the_next_round() {
    let before = config("1.2.3.4", 5);
    let contents = record_address(before.to_json(), "5.6.7.8").unwrap();
    let after = load(&contents).unwrap().to_config();
    assert_eq!(after.ip_address, "5.6.7.8");
    assert_eq!(after.email_address, before.email_address);
    assert_eq!(poll_step(&after, Ok("5.6.7.8".to_string())), PollStep::Unchanged);
    assert_eq!(
        record_address(Document::Null, "5.6.7.8"),
        Ok("{\n  \"ipAddress\": \"5.6.7.8\"\n}".to_string())
    );
    assert_eq!(
        record_address(Document::Bool(true), "5.6.7.8"),
        Err(StoreError::InvalidPath(InvalidPathError::NotAnObject))
    );
}

#[test]
fn pause_is_sixty_seconds_a_minute() {
    assert_eq!(pause_seconds(&config("", 5)), Some(300));
    assert_eq!(pause_seconds(&config("", 0)), Some(0));
    assert_eq!(pause_seconds(&config("", u64::MAX / 60)), Some(u64::MAX / 60 * 60));
    assert_eq!(pause_seconds(&config("", u64::MAX / 60 + 1)), None);
    assert_eq!(pause_seconds(&config("", u64::MAX)), None);
}

#[test]
fn notification_tells_the_new_address() {
    let c = config("1.2.3.4", 5);
    assert_eq!(
        compose_notification(&c, "5.6.7.8"),
        Notification {
            sender: "IP Change Notifier <me@example.com>".to_string(),
            recipient: "you@example.com".to_string(),
            subject: "Your IP Changed!".to_string(),
            body: "Hello,\nYour public IP has changed to 5.6.7.8.".to_string(),
            host: "smtp.example.com".to_string(),
            port: 465,
            login: "me@example.com".to_string(),
            password: "secret".to_string(),
        }
    );
}
