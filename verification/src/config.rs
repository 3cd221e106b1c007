//! The typed configuration record and its projection from a document.

use crate::document::{
    lemma_members_unfold, push_entry, tree_member, tree_u64, Document, Numeral, Tree,
};
use crate::text::{decimal_text, digits_of, join2, texts};
use vstd::prelude::*;
use vstd::string::*;

verus! {

/// The port that is used where the document gives none.
pub const DEFAULT_SMTP_PORT: u16 = 587;

/// The check interval, in minutes, that is used where the document gives none.
pub const DEFAULT_CHECK_INTERVAL_MINUTES: u64 = 5;

/// Settings of the notifier: the mail account it sends from, the recipient,
/// how often it checks, and what it saw last.
#[derive(Debug, Clone, PartialEq, Eq)]
pub struct Config {
    /// The email address used to send notifications.
    pub email_address: String,
    /// The username to authenticate with (often the same as the address).
    pub username: String,
    /// The password or app-specific password for the email account.
    pub email_password: String,
    /// The SMTP host for the email service.
    pub email_smtp_host: String,
    /// The SMTP port for the email service.
    pub email_smtp_port: u16,
    /// The email address of the recipient who will receive notifications.
    pub recipient_address: String,
    /// The interval in minutes to check for IP changes.
    pub check_interval_minutes: u64,
    /// The last known IP address.
    pub ip_address: String,
    /// The number of sequential failures in checking the IP address.
    pub sequential_failures: u32,
    /// The threshold of sequential failures before sending an alert email.
    pub failure_threshold: u32,
}

/// The model of a `Config`: its texts as sequences of characters.
pub struct ConfigView {
    pub email_address: Seq<char>,
    pub username: Seq<char>,
    pub email_password: Seq<char>,
    pub email_smtp_host: Seq<char>,
    pub email_smtp_port: u16,
    pub recipient_address: Seq<char>,
    pub check_interval_minutes: u64,
    pub ip_address: Seq<char>,
    pub sequential_failures: u32,
    pub failure_threshold: u32,
}

impl View for Config {
    type V = ConfigView;

    open spec fn view(&self) -> ConfigView {
        ConfigView {
            email_address: self.email_address@,
            username: self.username@,
            email_password: self.email_password@,
            email_smtp_host: self.email_smtp_host@,
            email_smtp_port: self.email_smtp_port,
            recipient_address: self.recipient_address@,
            check_interval_minutes: self.check_interval_minutes,
            ip_address: self.ip_address@,
            sequential_failures: self.sequential_failures,
            failure_threshold: self.failure_threshold,
        }
    }
}

/// The lines that show a configuration, each a label and a value.
pub open spec fn shown(c: ConfigView) -> Seq<Seq<char>> {
    seq![
        "Email Address: "@ + c.email_address,
        "Username: "@ + c.username,
        "Email Password: "@ + c.email_password,
        "SMTP Host: "@ + c.email_smtp_host,
        "SMTP Port: "@ + digits_of(c.email_smtp_port as nat),
        "Recipient Address: "@ + c.recipient_address,
        "Check Interval (minutes): "@ + digits_of(c.check_interval_minutes as nat),
        "Last Known IP Address: "@ + c.ip_address,
    ]
}

/// The text under `key`, or the empty text where the key is missing or
/// holds something else.
pub open spec fn text_field(tree: Tree, key: Seq<char>) -> Seq<char> {
    match tree_member(tree, key) {
        Some(Tree::Text(t)) => t,
        _ => Seq::empty(),
    }
}

/// The unsigned integer under `key` where it is at most `limit`, or
/// `default` where the key is missing, holds something else, or is larger.
pub open spec fn number_field(tree: Tree, key: Seq<char>, limit: u64, default: u64) -> u64 {
    match tree_member(tree, key) {
        Some(t) => match tree_u64(t) {
            Some(n) => if n <= limit {
                n
            } else {
                default
            },
            None => default,
        },
        None => default,
    }
}

/// The configuration that a document stands for.
pub open spec fn tree_config(tree: Tree) -> ConfigView {
    ConfigView {
        email_address: text_field(tree, "emailAddress"@),
        username: text_field(tree, "username"@),
        email_password: text_field(tree, "emailPassword"@),
        email_smtp_host: text_field(tree, "emailSMTPHost"@),
        email_smtp_port: number_field(
            tree,
            "emailSMTPPort"@,
            u16::MAX as u64,
            DEFAULT_SMTP_PORT as u64,
        ) as u16,
        recipient_address: text_field(tree, "recipientAddress"@),
        check_interval_minutes: number_field(
            tree,
            "checkIntervalMinutes"@,
            u64::MAX,
            DEFAULT_CHECK_INTERVAL_MINUTES,
        ),
        ip_address: text_field(tree, "ipAddress"@),
        sequential_failures: number_field(tree, "sequentialFailures"@, u32::MAX as u64, 0) as u32,
        failure_threshold: number_field(tree, "failureThreshold"@, u32::MAX as u64, 0) as u32,
    }
}

/// A number tree that holds `n`.
pub open spec fn number_tree(n: int) -> Tree {
    Tree::Number(Numeral::Int(n))
}

/// The document that a configuration is written as.
pub open spec fn config_tree(c: ConfigView) -> Tree {
    Tree::Object(
        Map::<Seq<char>, Tree>::empty().insert("emailAddress"@, Tree::Text(c.email_address)).insert(
            "username"@,
            Tree::Text(c.username),
        ).insert("emailPassword"@, Tree::Text(c.email_password)).insert(
            "emailSMTPHost"@,
            Tree::Text(c.email_smtp_host),
        ).insert("emailSMTPPort"@, number_tree(c.email_smtp_port as int)).insert(
            "recipientAddress"@,
            Tree::Text(c.recipient_address),
        ).insert("checkIntervalMinutes"@, number_tree(c.check_interval_minutes as int)).insert(
            "ipAddress"@,
            Tree::Text(c.ip_address),
        ).insert("sequentialFailures"@, number_tree(c.sequential_failures as int)).insert(
            "failureThreshold"@,
            number_tree(c.failure_threshold as int),
        ),
    )
}

/// The text of each key of the configuration document.
pub proof fn lemma_reveal_keys()
    ensures
        "emailAddress"@.len() == 12,
        "username"@.len() == 8,
        "emailPassword"@.len() == 13,
        "emailSMTPHost"@.len() == 13,
        "emailSMTPPort"@.len() == 13,
        "recipientAddress"@.len() == 16,
        "checkIntervalMinutes"@.len() == 20,
        "ipAddress"@.len() == 9,
        "sequentialFailures"@.len() == 18,
        "failureThreshold"@.len() == 16,
        "emailPassword"@[5] == 'P',
        "emailSMTPHost"@[5] == 'S',
        "emailSMTPHost"@[9] == 'H',
        "emailSMTPPort"@[5] == 'S',
        "emailSMTPPort"@[9] == 'P',
        "recipientAddress"@[0] == 'r',
        "failureThreshold"@[0] == 'f',
{
    reveal_strlit("emailAddress");
    reveal_strlit("username");
    reveal_strlit("emailPassword");
    reveal_strlit("emailSMTPHost");
    reveal_strlit("emailSMTPPort");
    reveal_strlit("recipientAddress");
    reveal_strlit("checkIntervalMinutes");
    reveal_strlit("ipAddress");
    reveal_strlit("sequentialFailures");
    reveal_strlit("failureThreshold");
}

/// Writing a configuration as a document and reading the document back
/// gives the configuration again.
pub proof fn lemma_config_round_trip(c: ConfigView)
    ensures
        tree_config(config_tree(c)) == c,
{
    lemma_reveal_keys();
    let back = tree_config(config_tree(c));
    assert(back.email_address == c.email_address);
    assert(back.username == c.username);
    assert(back.email_password == c.email_password);
    assert(back.email_smtp_host == c.email_smtp_host);
    assert(back.email_smtp_port == c.email_smtp_port);
    assert(back.recipient_address == c.recipient_address);
    assert(back.check_interval_minutes == c.check_interval_minutes);
    assert(back.ip_address == c.ip_address);
    assert(back.sequential_failures == c.sequential_failures);
    assert(back.failure_threshold == c.failure_threshold);
}

fn read_text(doc: &Document, key: &str) -> (r: String)
    ensures
        r@ == text_field(doc@, key@),
{
    match doc.get(key) {
        Some(d) => match d.as_str() {
            Some(t) => t.to_owned(),
            None => String::new(),
        },
        None => String::new(),
    }
}

fn read_number(doc: &Document, key: &str, limit: u64, default: u64) -> (r: u64)
    ensures
        r == number_field(doc@, key@, limit, default),
{
    match doc.get(key) {
        Some(d) => match d.as_u64() {
            Some(n) => if n <= limit {
                n
            } else {
                default
            },
            None => default,
        },
        None => default,
    }
}

impl Config {
    /// Creates a configuration from its ten fields.
    pub fn new(
        email_address: String,
        username: String,
        email_password: String,
        email_smtp_host: String,
        email_smtp_port: u16,
        recipient_address: String,
        check_interval_minutes: u64,
        ip_address: String,
        sequential_failures: u32,
        failure_threshold: u32,
    ) -> (r: Self)
        ensures
            r == (Config {
                email_address,
                username,
                email_password,
                email_smtp_host,
                email_smtp_port,
                recipient_address,
                check_interval_minutes,
                ip_address,
                sequential_failures,
                failure_threshold,
            }),
    {
        Config {
            email_address,
            username,
            email_password,
            email_smtp_host,
            email_smtp_port,
            recipient_address,
            check_interval_minutes,
            ip_address,
            sequential_failures,
            failure_threshold,
        }
    }

    /// The lines that show the configuration to the user: one for each of
    /// the account's fields, the interval and the last known address.
    pub fn lines(&self) -> (r: Vec<String>)
        ensures
            texts(r@) == shown(self@),
    {
        let mut out: Vec<String> = Vec::new();
        out.push(join2("Email Address: ", self.email_address.as_str()));
        out.push(join2("Username: ", self.username.as_str()));
        out.push(join2("Email Password: ", self.email_password.as_str()));
        out.push(join2("SMTP Host: ", self.email_smtp_host.as_str()));
        out.push(join2("SMTP Port: ", decimal_text(self.email_smtp_port as u64).as_str()));
        out.push(join2("Recipient Address: ", self.recipient_address.as_str()));
        out.push(
            join2("Check Interval (minutes): ", decimal_text(self.check_interval_minutes).as_str()),
        );
        out.push(join2("Last Known IP Address: ", self.ip_address.as_str()));
        proof {
            assert(texts(out@) =~= shown(self@));
        }
        out
    }

    /// Writes the configuration as a document: an object with one entry for
    /// each field, under the field's key.
    pub fn to_json(&self) -> (r: Document)
        ensures
            r@ == config_tree(self@),
    {
        let mut entries: Vec<(String, Document)> = Vec::new();
        proof {
            lemma_members_unfold(entries@);
        }
        push_entry(&mut entries, "emailAddress", Document::Text(self.email_address.clone()));
        push_entry(&mut entries, "username", Document::Text(self.username.clone()));
        push_entry(&mut entries, "emailPassword", Document::Text(self.email_password.clone()));
        push_entry(&mut entries, "emailSMTPHost", Document::Text(self.email_smtp_host.clone()));
        push_entry(&mut entries, "emailSMTPPort", Document::from_u64(self.email_smtp_port as u64));
        push_entry(&mut entries, "recipientAddress", Document::Text(self.recipient_address.clone()));
        push_entry(&mut entries, "checkIntervalMinutes", Document::from_u64(self.check_interval_minutes));
        push_entry(&mut entries, "ipAddress", Document::Text(self.ip_address.clone()));
        push_entry(&mut entries, "sequentialFailures", Document::from_u64(self.sequential_failures as u64));
        push_entry(&mut entries, "failureThreshold", Document::from_u64(self.failure_threshold as u64));
        Document::Object(entries)
    }
}

/// Reading a configuration out of a value.
pub trait ToConfig {
    /// The configuration that the value stands for.
    fn to_config(&self) -> Config;
}

impl ToConfig for Document {
    /// Reads each field by its key. A field whose key is missing, or holds
    /// a value of another type or out of the field's range, gets its
    /// default: the empty text, port 587, an interval of 5 minutes, and 0
    /// for the failure counters. Keys that no field has are ignored.
    fn to_config(&self) -> (r: Config)
        ensures
            r@ == tree_config(self@),
    {
        Config {
            email_address: read_text(self, "emailAddress"),
            username: read_text(self, "username"),
            email_password: read_text(self, "emailPassword"),
            email_smtp_host: read_text(self, "emailSMTPHost"),
            email_smtp_port: read_number(self, "emailSMTPPort", 65535, DEFAULT_SMTP_PORT as u64) as u16,
            recipient_address: read_text(self, "recipientAddress"),
            check_interval_minutes: read_number(
                self,
                "checkIntervalMinutes",
                u64::MAX,
                DEFAULT_CHECK_INTERVAL_MINUTES,
            ),
            ip_address: read_text(self, "ipAddress"),
            sequential_failures: read_number(self, "sequentialFailures", 0xffff_ffff, 0) as u32,
            failure_threshold: read_number(self, "failureThreshold", 0xffff_ffff, 0) as u32,
        }
    }
}

} // verus!
