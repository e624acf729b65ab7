//! Settings of the history, and the arguments that choose its entries.

use crate::decimal::{decimal, parse_decimal, parsed, to_decimal, PLUS};
use crate::history::History;
use crate::text::{append_chars, ascii_chars, chars_of, string_of};
use vstd::prelude::*;
use vstd::string::StringSliceAdditionalSpecFns;

verus! {

/// Format string for the entries, until one is set.
pub const DEFAULT_FORMAT: &'static str = "[header,table]%n\\t%(time:%X)\\t%P\\t%e\\t%C";

/// Shell variable to set the format string.
pub const SHELL_VAR_FORMAT: &'static str = "TIMEHISTORY_FORMAT";

/// Shell variable to set the history limit.
pub const SHELL_VAR_LIMIT: &'static str = "TIMEHISTORY_LIMIT";

/// Shell variable to set the command line limit.
pub const SHELL_VAR_CMDLINE_LIMIT: &'static str = "TIMEHISTORY_CMDLINE_LIMIT";

/// The settings as text: the format string and the limit of the history,
/// and the limit of the command lines if it is known; a line for each.
pub open spec fn config_text(default_format: Seq<char>, size: usize, max_cmdline: Option<usize>)
    -> Seq<char> {
    "TIMEHISTORY_FORMAT        = "@ + default_format + "\n"@ + "TIMEHISTORY_LIMIT         = "@
        + ascii_chars(decimal(size as nat)) + "\n"@ + match max_cmdline {
        Some(max_cmdline) => "TIMEHISTORY_CMDLINE_LIMIT = "@ + ascii_chars(
            decimal(max_cmdline as nat),
        ) + "\n"@,
        None => Seq::empty(),
    }
}

/// The number of the entry that the argument `arg` chooses: the number
/// that it writes or, if it starts with `+` and writes a number above zero,
/// the number of the entry at that offset from the newest, where `+1` is
/// the newest entry. There is none when `arg` writes no number.
pub open spec fn chosen_number(last_number: usize, arg: Seq<u8>) -> Option<usize> {
    match parsed(arg) {
        Some(number) => if number > 0 && arg.len() > 0 && arg[0] == PLUS {
            Some(
                if last_number >= number - 1 {
                    (last_number - (number - 1)) as usize
                } else {
                    0
                },
            )
        } else {
            Some(number)
        },
        None => None,
    }
}

/// Appends a number in decimal notation.
fn append_number(output: &mut Vec<char>, value: usize)
    ensures
        final(output)@ == old(output)@ + ascii_chars(decimal(value as nat)),
{
    let digits = to_decimal(value);
    let mut index: usize = 0;
    assert(output@ =~= old(output)@ + ascii_chars(digits@.take(0)));
    while index < digits.len()
        invariant
            index <= digits@.len(),
            output@ == old(output)@ + ascii_chars(digits@.take(index as int)),
        decreases digits@.len() - index,
    {
        output.push(digits[index] as char);
        index += 1;
        assert(output@ =~= old(output)@ + ascii_chars(digits@.take(index as int)));
    }
    assert(digits@.take(index as int) =~= digits@);
}

/// The builtin of the shell that shows the history.
pub struct TimeHistory;

impl TimeHistory {
    /// Writes the settings: the format string `default_format`, the limit
    /// of `history` and, if it is known, the limit `max_cmdline` of the
    /// command lines.
    pub fn print_config(
        &self,
        default_format: &str,
        history: &History,
        max_cmdline: Option<usize>,
    ) -> (text: String)
        ensures
            text@ == config_text(default_format@, history@.size, max_cmdline),
    {
        let mut output: Vec<char> = Vec::new();
        append_chars(&mut output, chars_of("TIMEHISTORY_FORMAT        = ").as_slice());
        append_chars(&mut output, chars_of(default_format).as_slice());
        append_chars(&mut output, chars_of("\n").as_slice());
        append_chars(&mut output, chars_of("TIMEHISTORY_LIMIT         = ").as_slice());
        append_number(&mut output, history.size());
        append_chars(&mut output, chars_of("\n").as_slice());

        if let Some(max_cmdline) = max_cmdline {
            append_chars(&mut output, chars_of("TIMEHISTORY_CMDLINE_LIMIT = ").as_slice());
            append_number(&mut output, max_cmdline);
            append_chars(&mut output, chars_of("\n").as_slice());
        }
        assert(output@ =~= config_text(default_format@, history@.size, max_cmdline));

        string_of(output.as_slice())
    }

    /// The number of the entry that the argument `arg` of the builtin
    /// chooses in `history`.
    pub fn entry_number(&self, history: &History, arg: &str) -> (number: Option<usize>)
        ensures
            number == chosen_number(history@.last_number, arg.spec_bytes()),
    {
        let bytes = arg.as_bytes();
        match parse_decimal(bytes) {
            Some(number) => {
                if number > 0 && bytes.len() > 0 && bytes[0] == PLUS {
                    Some(history.offset_number(number))
                } else {
                    Some(number)
                }
            },
            None => None,
        }
    }
}

} // verus!
