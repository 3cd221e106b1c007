//! The command line: which command the arguments ask for, and which value a
//! property is set to.

use crate::config::number_tree;
use crate::document::{Document, Tree};
use crate::text::{
    all_digits, decimal, join3, parse_u64, parsed_u64, same_text, unsigned_digits,
};
use vstd::prelude::*;

verus! {

/// The smallest port.
pub const MIN_PORT: u64 = 1;

/// The largest port.
pub const MAX_PORT: u64 = 65535;

/// Why a property was not set.
#[derive(Debug, Clone, Copy, PartialEq, Eq)]
pub enum SettingError {
    /// The property holds a number, and the value is not an unsigned
    /// integer of 64 bits.
    NotANumber,
    /// The value of the port is 0 or above 65535.
    PortOutOfRange,
}

/// What the arguments of the program ask for.
#[derive(Debug, Clone, PartialEq, Eq)]
pub enum Command {
    /// No flag: watch the public address.
    Watch,
    /// `-h`: show the usage.
    Help,
    /// `-c <property> <value>`: set a property of the configuration.
    Assign { property: String, value: String },
    /// `-c` without exactly two arguments after it.
    SetUsage,
    /// `-p`: print the configuration.
    Print,
    /// `-t`: send a test notification.
    Test,
    /// Any other flag: nothing is done.
    Ignore,
}

/// The model of a `Command`.
pub enum CommandView {
    Watch,
    Help,
    Assign { property: Seq<char>, value: Seq<char> },
    SetUsage,
    Print,
    Test,
    Ignore,
}

impl View for Command {
    type V = CommandView;

    open spec fn view(&self) -> CommandView {
        match self {
            Command::Watch => CommandView::Watch,
            Command::Help => CommandView::Help,
            Command::Assign { property, value } => CommandView::Assign {
                property: property@,
                value: value@,
            },
            Command::SetUsage => CommandView::SetUsage,
            Command::Print => CommandView::Print,
            Command::Test => CommandView::Test,
            Command::Ignore => CommandView::Ignore,
        }
    }
}

/// The command that a list of arguments asks for; the first argument is the
/// name of the program.
pub open spec fn asked(args: Seq<String>) -> CommandView {
    if args.len() <= 1 {
        CommandView::Watch
    } else if args[1]@ == "-h"@ {
        CommandView::Help
    } else if args[1]@ == "-c"@ {
        if args.len() == 4 {
            CommandView::Assign { property: args[2]@, value: args[3]@ }
        } else {
            CommandView::SetUsage
        }
    } else if args[1]@ == "-p"@ {
        CommandView::Print
    } else if args[1]@ == "-t"@ {
        CommandView::Test
    } else {
        CommandView::Ignore
    }
}

/// Whether a property holds a number.
pub open spec fn is_numeric(property: Seq<char>) -> bool {
    property == "emailSMTPPort"@ || property == "checkIntervalMinutes"@
}

/// The value that a property is set to. A property that holds a number
/// takes an unsigned integer, the port one from 1 to 65535; every other
/// property takes the text as it is.
pub open spec fn setting(property: Seq<char>, value: Seq<char>) -> Result<Tree, SettingError> {
    if is_numeric(property) {
        match parsed_u64(value) {
            None => Err(SettingError::NotANumber),
            Some(n) => if property == "emailSMTPPort"@ && !(MIN_PORT <= n <= MAX_PORT) {
                Err(SettingError::PortOutOfRange)
            } else {
                Ok(number_tree(n as int))
            },
        }
    } else {
        Ok(Tree::Text(value))
    }
}

/// The message that tells the user why a property was not set.
pub open spec fn refusal(error: SettingError, property: Seq<char>) -> Seq<char> {
    match error {
        SettingError::NotANumber => "Error: "@ + property + " must be a valid u64 integer."@,
        SettingError::PortOutOfRange => "Error: email_smtp_port must be between 1 and 65535."@,
    }
}

/// A value that denotes a number outside 1 to 65535 is never accepted for
/// the port: it is refused as out of range where the number fits in 64
/// bits, and as no number where it does not.
pub proof fn lemma_port_out_of_range_refused(value: Seq<char>)
    requires
        unsigned_digits(value).len() > 0,
        all_digits(unsigned_digits(value)),
        !(MIN_PORT <= decimal(unsigned_digits(value)) <= MAX_PORT),
    ensures
        setting("emailSMTPPort"@, value) == Err::<Tree, SettingError>(
            if decimal(unsigned_digits(value)) <= u64::MAX {
                SettingError::PortOutOfRange
            } else {
                SettingError::NotANumber
            },
        ),
{
}

/// Reads the command from the arguments of the program, of which the first
/// is the program's name.
pub fn command_of(args: &Vec<String>) -> (r: Command)
    ensures
        r@ == asked(args@),
{
    if args.len() <= 1 {
        return Command::Watch;
    }
    let flag = args[1].as_str();
    if same_text(flag, "-h") {
        Command::Help
    } else if same_text(flag, "-c") {
        if args.len() == 4 {
            Command::Assign { property: args[2].clone(), value: args[3].clone() }
        } else {
            Command::SetUsage
        }
    } else if same_text(flag, "-p") {
        Command::Print
    } else if same_text(flag, "-t") {
        Command::Test
    } else {
        Command::Ignore
    }
}

/// The document that `property` is set to when the user gives `value` for
/// it, or the reason why the value is refused.
pub fn property_value(property: &str, value: &str) -> (r: Result<Document, SettingError>)
    ensures
        match r {
            Ok(d) => setting(property@, value@) == Ok::<Tree, SettingError>(d@),
            Err(e) => setting(property@, value@) == Err::<Tree, SettingError>(e),
        },
{
    let port = same_text(property, "emailSMTPPort");
    if port || same_text(property, "checkIntervalMinutes") {
        match parse_u64(value) {
            None => Err(SettingError::NotANumber),
            Some(n) => {
                if port && (n < MIN_PORT || n > MAX_PORT) {
                    Err(SettingError::PortOutOfRange)
                } else {
                    Ok(Document::from_u64(n))
                }
            },
        }
    } else {
        Ok(Document::Text(value.to_owned()))
    }
}

impl SettingError {
    /// The message that tells the user why `property` was not set.
    pub fn message(&self, property: &str) -> (r: String)
        ensures
            r@ == refusal(*self, property@),
    {
        match self {
            SettingError::NotANumber => join3("Error: ", property, " must be a valid u64 integer."),
            SettingError::PortOutOfRange => {
                "Error: email_smtp_port must be between 1 and 65535.".to_owned()
            },
        }
    }
}

} // verus!
