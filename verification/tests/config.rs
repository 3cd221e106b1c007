use public_ip_notifier::config::{Config, ToConfig};
use public_ip_notifier::document::{Document, JsonNumber};

fn text(s: &str) -> Document {
    Document::Text(s.to_string())
}

fn object(entries: Vec<(&str, Document)>) -> Document {
    Document::Object(entries.into_iter().map(|(k, v)| (k.to_string(), v)).collect())
}

fn sample() -> Config {
    Config::new(
        "me@example.com".to_string(),
        "me".to_string(),
        "secret".to_string(),
        "smtp.example.com".to_string(),
        465,
        "you@example.com".to_string(),
        15,
        "203.0.113.7".to_string(),
        2,
        3,
    )
}

#[test]
fn new_keeps_each_field() {
    let c = sample();
    assert_eq!(c.email_address, "me@example.com");
    assert_eq!(c.username, "me");
    assert_eq!(c.email_password, "secret");
    assert_eq!(c.email_smtp_host, "smtp.example.com");
    assert_eq!(c.email_smtp_port, 465);
    assert_eq!(c.recipient_address, "you@example.com");
    assert_eq!(c.check_interval_minutes, 15);
    assert_eq!(c.ip_address, "203.0.113.7");
    assert_eq!(c.sequential_failures, 2);
    assert_eq!(c.failure_threshold, 3);
}

#[test]
fn to_json_writes_each_field_under_its_key() {
    let doc = sample().to_json();
    assert_eq!(
        doc,
        object(vec![
            ("emailAddress", text("me@example.com")),
            ("username", text("me")),
            ("emailPassword", text("secret")),
            ("emailSMTPHost", text("smtp.example.com")),
            ("emailSMTPPort", Document::from_u64(465)),
            ("recipientAddress", text("you@example.com")),
            ("checkIntervalMinutes", Document::from_u64(15)),
            ("ipAddress", text("203.0.113.7")),
            ("sequentialFailures", Document::from_u64(2)),
            ("failureThreshold", Document::from_u64(3)),
        ])
    );
}

#[test]
fn round_trip_gives_the_configuration_back() {
    let c = sample();
    assert_eq!(c.to_json().to_config(), c);
    let extreme = Config::new(
        String::new(),
        "\u{e9}".to_string(),
        "\"".to_string(),
        ".".to_string(),
        u16::MAX,
        "[0]".to_string(),
        u64::MAX,
        String::new(),
        u32::MAX,
        0,
    );
    assert_eq!(extreme.to_json().to_config(), extreme);
}

#[test]
fn port_that_is_no_number_falls_back_to_the_default() {
    let doc = object(vec![("emailSMTPPort", text("not-a-number"))]);
    assert_eq!(doc.to_config().email_smtp_port, 587);
}

#[test]
fn empty_document_gives_every_default() {
    let expected = Config::new(
        String::new(),
        String::new(),
        String::new(),
        String::new(),
        587,
        String::new(),
        5,
        String::new(),
        0,
        0,
    );
    assert_eq!(object(vec![]).to_config(), expected);
    assert_eq!(Document::Null.to_config(), expected);
    assert_eq!(Document::Array(vec![]).to_config(), expected);
}

#[test]
fn values_of_the_wrong_type_give_defaults() {
    let doc = object(vec![
        ("emailAddress", Document::from_u64(1)),
        ("emailSMTPPort", Document::Number(JsonNumber::Signed(-1))),
        ("checkIntervalMinutes", Document::Number(JsonNumber::Real("1.5".to_string()))),
        ("ipAddress", Document::Null),
        ("sequentialFailures", Document::Bool(true)),
    ]);
    let c = doc.to_config();
    assert_eq!(c.email_address, "");
    assert_eq!(c.email_smtp_port, 587);
    assert_eq!(c.check_interval_minutes, 5);
    assert_eq!(c.ip_address, "");
    assert_eq!(c.sequential_failures, 0);
}

#[test]
fn numbers_out_of_range_give_defaults() {
    let doc = object(vec![
        ("emailSMTPPort", Document::from_u64(65536)),
        ("failureThreshold", Document::from_u64(1 << 32)),
        ("checkIntervalMinutes", Document::from_u64(u64::MAX)),
    ]);
    let c = doc.to_config();
    assert_eq!(c.email_smtp_port, 587);
    assert_eq!(c.failure_threshold, 0);
    assert_eq!(c.check_interval_minutes, u64::MAX);
    let edge = object(vec![("emailSMTPPort", Document::from_u64(65535))]);
    assert_eq!(edge.to_config().email_smtp_port, 65535);
    let signed = object(vec![("emailSMTPPort", Document::Number(JsonNumber::Signed(25)))]);
    assert_eq!(signed.to_config().email_smtp_port, 25);
}

#[test]
fn unknown_keys_are_ignored_and_dropped() {
    let mut entries = match sample().to_json() {
        Document::Object(entries) => entries,
        other => panic!("not an object: {:?}", other),
    };
    entries.push(("extra".to_string(), text("kept out")));
    let with_extra = Document::Object(entries);
    let c = with_extra.to_config();
    assert_eq!(c, sample());
    assert_eq!(c.to_json().get("extra"), None);
}

#[test]
fn lines_show_the_configuration() {
    assert_eq!(
        sample().lines(),
        vec![
            "Email Address: me@example.com",
            "Username: me",
            "Email Password: secret",
            "SMTP Host: smtp.example.com",
            "SMTP Port: 465",
            "Recipient Address: you@example.com",
            "Check Interval (minutes): 15",
            "Last Known IP Address: 203.0.113.7",
        ]
    );
}
