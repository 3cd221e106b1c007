use public_ip_notifier::document::Document;
use public_ip_notifier::settings::{command_of, property_value, Command, SettingError};

fn args(list: &[&str]) -> Vec<String> {
    list.iter().map(|s| s.to_string()).collect()
}

#[test]
fn port_above_65535_is_rejected() {
    assert_eq!(property_value("emailSMTPPort", "65536"), Err(SettingError::PortOutOfRange));
    assert_eq!(property_value("emailSMTPPort", "70000"), Err(SettingError::PortOutOfRange));
    assert_eq!(
        property_value("emailSMTPPort", "18446744073709551615"),
        Err(SettingError::PortOutOfRange)
    );
}

#[test]
fn port_up_to_65535_is_accepted() {
    assert_eq!(property_value("emailSMTPPort", "65535"), Ok(Document::from_u64(65535)));
    assert_eq!(property_value("emailSMTPPort", "587"), Ok(Document::from_u64(587)));
    assert_eq!(property_value("emailSMTPPort", "1"), Ok(Document::from_u64(1)));
    assert_eq!(property_value("emailSMTPPort", "+25"), Ok(Document::from_u64(25)));
}

#[test]
fn port_zero_is_rejected() {
    assert_eq!(property_value("emailSMTPPort", "0"), Err(SettingError::PortOutOfRange));
    assert_eq!(property_value("emailSMTPPort", "000"), Err(SettingError::PortOutOfRange));
    assert_eq!(property_value("checkIntervalMinutes", "0"), Ok(Document::from_u64(0)));
}

#[test]
fn number_properties_take_unsigned_integers_only() {
    for bad in ["", "abc", "-1", "1.5", "12a", " 12", "+", "18446744073709551616"] {
        assert_eq!(property_value("emailSMTPPort", bad), Err(SettingError::NotANumber), "{}", bad);
        assert_eq!(
            property_value("checkIntervalMinutes", bad),
            Err(SettingError::NotANumber),
            "{}",
            bad
        );
    }
    assert_eq!(property_value("checkIntervalMinutes", "+5"), Ok(Document::from_u64(5)));
    assert_eq!(property_value("checkIntervalMinutes", "007"), Ok(Document::from_u64(7)));
    assert_eq!(
        property_value("checkIntervalMinutes", "18446744073709551615"),
        Ok(Document::from_u64(u64::MAX))
    );
    assert_eq!(property_value("checkIntervalMinutes", "65536"), Ok(Document::from_u64(65536)));
}

#[test]
fn other_properties_take_the_text() {
    assert_eq!(
        property_value("emailAddress", "me@example.com"),
        Ok(Document::Text("me@example.com".to_string()))
    );
    assert_eq!(property_value("ipAddress", "70000"), Ok(Document::Text("70000".to_string())));
    assert_eq!(property_value("email_smtp_port", "x"), Ok(Document::Text("x".to_string())));
}

#[test]
fn messages_name_the_fault() {
    assert_eq!(
        SettingError::NotANumber.message("checkIntervalMinutes"),
        "Error: checkIntervalMinutes must be a valid u64 integer."
    );
    assert_eq!(
        SettingError::PortOutOfRange.message("emailSMTPPort"),
        "Error: email_smtp_port must be between 1 and 65535."
    );
}

#[test]
fn commands_are_read_from_the_arguments() {
    assert_eq!(command_of(&args(&[])), Command::Watch);
    assert_eq!(command_of(&args(&["notifier"])), Command::Watch);
    assert_eq!(command_of(&args(&["notifier", "-h"])), Command::Help);
    assert_eq!(command_of(&args(&["notifier", "-p"])), Command::Print);
    assert_eq!(command_of(&args(&["notifier", "-t", "more"])), Command::Test);
    assert_eq!(command_of(&args(&["notifier", "-x"])), Command::Ignore);
    assert_eq!(command_of(&args(&["notifier", "watch"])), Command::Ignore);
    assert_eq!(
        command_of(&args(&["notifier", "-c", "emailSMTPPort", "25"])),
        Command::Assign { property: "emailSMTPPort".to_string(), value: "25".to_string() }
    );
    assert_eq!(command_of(&args(&["notifier", "-c"])), Command::SetUsage);
    assert_eq!(command_of(&args(&["notifier", "-c", "a"])), Command::SetUsage);
    assert_eq!(command_of(&args(&["notifier", "-c", "a", "b", "c"])), Command::SetUsage);
}
