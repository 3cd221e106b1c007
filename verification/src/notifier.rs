//! The decisions of the watch: whether a fetched address is accepted,
//! whether it is new, how long to wait, and what the notification says.

use crate::config::{tree_config, Config};
use crate::document::{with_member, Document, Tree};
use crate::error::StoreError;
use crate::store::{set_key, written};
use crate::text::join3;
use vstd::prelude::*;
use vstd::string::*;
use vstd::utf8::encode_utf8;

verus! {

/// The shortest address that is accepted, in bytes.
pub const MIN_ADDRESS_BYTES: usize = 7;

/// The longest address that is accepted, in bytes.
pub const MAX_ADDRESS_BYTES: usize = 15;

/// Whether a character is whitespace: one of the characters with the
/// Unicode property `White_Space`.
pub open spec fn is_white_space(c: char) -> bool {
    let u = c as u32;
    (0x09 <= u <= 0x0d) || u == 0x20 || u == 0x85 || u == 0xa0 || u == 0x1680 || (0x2000 <= u
        <= 0x200a) || u == 0x2028 || u == 0x2029 || u == 0x202f || u == 0x205f || u == 0x3000
}

/// The number of whitespace characters at the start of a text.
pub open spec fn leading_space(text: Seq<char>) -> nat
    decreases text.len(),
{
    if text.len() == 0 || !is_white_space(text[0]) {
        0
    } else {
        1 + leading_space(text.skip(1))
    }
}

/// The number of whitespace characters at the end of a text.
pub open spec fn trailing_space(text: Seq<char>) -> nat
    decreases text.len(),
{
    if text.len() == 0 || !is_white_space(text.last()) {
        0
    } else {
        1 + trailing_space(text.drop_last())
    }
}

/// The text without the whitespace at its start and at its end.
pub open spec fn trimmed(text: Seq<char>) -> Seq<char> {
    if leading_space(text) >= text.len() {
        Seq::empty()
    } else {
        text.subrange(leading_space(text) as int, text.len() - trailing_space(text))
    }
}

/// `str::trim` of std: the text without the whitespace at its start and at
/// its end, where whitespace is what has the Unicode property
/// `White_Space`.
#[verifier::external_body]
fn trim(text: &str) -> (r: &str)
    ensures
        r@ == trimmed(text@),
{
    text.trim()
}

/// Whether a text has a length, in bytes of UTF-8, that an address can have.
pub open spec fn address_length(text: Seq<char>) -> bool {
    MIN_ADDRESS_BYTES <= encode_utf8(text).len() <= MAX_ADDRESS_BYTES
}

/// What a round of the watch found.
#[derive(Debug, Clone, PartialEq, Eq)]
pub enum PollStep {
    /// The address could not be fetched.
    Unreachable,
    /// The address is the last known one.
    Unchanged,
    /// The address is new: it is to be recorded, and the operator notified.
    Changed { address: String },
}

/// The model of a `PollStep`.
pub enum PollStepView {
    Unreachable,
    Unchanged,
    Changed { address: Seq<char> },
}

impl View for PollStep {
    type V = PollStepView;

    open spec fn view(&self) -> PollStepView {
        match self {
            PollStep::Unreachable => PollStepView::Unreachable,
            PollStep::Unchanged => PollStepView::Unchanged,
            PollStep::Changed { address } => PollStepView::Changed { address: address@ },
        }
    }
}

/// A mail that tells the operator of a new address, and the account that
/// it is sent through.
#[derive(Debug, Clone, PartialEq, Eq)]
pub struct Notification {
    /// The sender, as a display name and an address in angle brackets.
    pub sender: String,
    /// The address of the recipient.
    pub recipient: String,
    pub subject: String,
    pub body: String,
    /// The host of the mail relay.
    pub host: String,
    /// The port of the mail relay.
    pub port: u16,
    /// The name that the relay is logged in to with.
    pub login: String,
    /// The password that the relay is logged in to with.
    pub password: String,
}

/// The model of a `Notification`.
pub struct NotificationView {
    pub sender: Seq<char>,
    pub recipient: Seq<char>,
    pub subject: Seq<char>,
    pub body: Seq<char>,
    pub host: Seq<char>,
    pub port: u16,
    pub login: Seq<char>,
    pub password: Seq<char>,
}

impl View for Notification {
    type V = NotificationView;

    open spec fn view(&self) -> NotificationView {
        NotificationView {
            sender: self.sender@,
            recipient: self.recipient@,
            subject: self.subject@,
            body: self.body@,
            host: self.host@,
            port: self.port,
            login: self.login@,
            password: self.password@,
        }
    }
}

/// Accepts a fetched address by its length: one of 7 to 15 bytes is
/// handed on, any other is refused with `Network`.
pub fn accept_length(address: &str) -> (r: Result<String, StoreError>)
    ensures
        match r {
            Ok(accepted) => accepted@ == address@ && address_length(address@),
            Err(e) => e == StoreError::Network && !address_length(address@),
        },
{
    let length = address.as_bytes().len();
    if length < MIN_ADDRESS_BYTES || length > MAX_ADDRESS_BYTES {
        Err(StoreError::Network)
    } else {
        Ok(address.to_owned())
    }
}

/// Accepts the output of the address service: the output without the
/// whitespace around it, where that is from 7 to 15 bytes long. Any other
/// output is refused with `Network`.
pub fn accept_address(output: &str) -> (r: Result<String, StoreError>)
    ensures
        match r {
            Ok(address) => address@ == trimmed(output@) && address_length(address@),
            Err(e) => e == StoreError::Network && !address_length(trimmed(output@)),
        },
{
    accept_length(trim(output))
}

/// Output that is empty is refused.
pub proof fn lemma_empty_output_refused()
    ensures
        !address_length(trimmed(Seq::<char>::empty())),
{
}

/// Decides what a round of the watch found, from the configuration that
/// was read and the outcome of fetching the address.
pub fn poll_step(config: &Config, fetched: Result<String, StoreError>) -> (r: PollStep)
    ensures
        r@ == match fetched {
            Err(_) => PollStepView::Unreachable,
            Ok(address) => if address@ == config.ip_address@ {
                PollStepView::Unchanged
            } else {
                PollStepView::Changed { address: address@ }
            },
        },
{
    match fetched {
        Err(_) => PollStep::Unreachable,
        Ok(address) => {
            if address == config.ip_address {
                PollStep::Unchanged
            } else {
                PollStep::Changed { address }
            }
        },
    }
}

/// The contents of the file after a new address is recorded in the
/// document `json`: the document with the address as its last known one, as
/// indented text.
pub fn record_address(json: Document, address: &str) -> (r: Result<String, StoreError>)
    ensures
        written(with_member(json@, "ipAddress"@, Tree::Text(address@)), r),
{
    set_key(json, "ipAddress", Document::Text(address.to_owned()))
}

/// An address that was recorded is the last known address of the
/// configuration that is read next, so that a round that fetches it again
/// finds nothing new.
pub proof fn lemma_recorded_address_is_known(tree: Tree, address: Seq<char>)
    requires
        with_member(tree, "ipAddress"@, Tree::Text(address)) is Ok,
    ensures
        tree_config(with_member(tree, "ipAddress"@, Tree::Text(address))->Ok_0).ip_address
            == address,
{
}

/// The seconds to wait between two rounds: sixty for each minute of the
/// interval, or nothing where that number does not fit in 64 bits.
pub fn pause_seconds(config: &Config) -> (r: Option<u64>)
    ensures
        match r {
            Some(seconds) => seconds == config.check_interval_minutes * 60,
            None => config.check_interval_minutes * 60 > u64::MAX,
        },
{
    config.check_interval_minutes.checked_mul(60)
}

/// The notification of a new address: from the configured sender to the
/// configured recipient, through the configured relay, logged in with the
/// sender's address and password.
pub fn compose_notification(config: &Config, new_ip_address: &str) -> (r: Notification)
    ensures
        r@ == (NotificationView {
            sender: "IP Change Notifier <"@ + config.email_address@ + ">"@,
            recipient: config.recipient_address@,
            subject: "Your IP Changed!"@,
            body: "Hello,\nYour public IP has changed to "@ + new_ip_address@ + "."@,
            host: config.email_smtp_host@,
            port: config.email_smtp_port,
            login: config.email_address@,
            password: config.email_password@,
        }),
{
    Notification {
        sender: join3("IP Change Notifier <", config.email_address.as_str(), ">"),
        recipient: config.recipient_address.clone(),
        subject: "Your IP Changed!".to_owned(),
        body: join3("Hello,\nYour public IP has changed to ", new_ip_address, "."),
        host: config.email_smtp_host.clone(),
        port: config.email_smtp_port,
        login: config.email_address.clone(),
        password: config.email_password.clone(),
    }
}

} // verus!
