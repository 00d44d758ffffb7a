//! How many tasks may run at a time.

use crate::cli::value_parser::CustomValueParser;
use crate::text::text_eq;
use vstd::prelude::*;

verus! {

/// The value of a decimal digit.
pub open spec fn digit_value(c: char) -> Option<nat> {
    if c == '0' {
        Some(0)
    } else if c == '1' {
        Some(1)
    } else if c == '2' {
        Some(2)
    } else if c == '3' {
        Some(3)
    } else if c == '4' {
        Some(4)
    } else if c == '5' {
        Some(5)
    } else if c == '6' {
        Some(6)
    } else if c == '7' {
        Some(7)
    } else if c == '8' {
        Some(8)
    } else if c == '9' {
        Some(9)
    } else {
        None
    }
}

/// Whether a text is made of decimal digits only.
pub open spec fn all_digits(s: Seq<char>) -> bool {
    forall|i: int| 0 <= i < s.len() ==> digit_value(#[trigger] s[i]) is Some
}

/// The number that a text of decimal digits stands for.
pub open spec fn digits_value(s: Seq<char>) -> nat
    decreases s.len(),
{
    if s.len() == 0 {
        0
    } else {
        match digit_value(s.last()) {
            Some(d) => digits_value(s.drop_last()) * 10 + d,
            None => digits_value(s.drop_last()) * 10,
        }
    }
}

/// The number that a text stands for as a `u64`: the text is one or more
/// decimal digits, with or without a plus sign before them, and the number
/// is not too large.
pub open spec fn parsed_u64(text: Seq<char>) -> Option<u64> {
    let body = if text.len() > 0 && text[0] == '+' {
        text.subrange(1, text.len() as int)
    } else {
        text
    };
    if body.len() > 0 && all_digits(body) && digits_value(body) <= u64::MAX {
        Some(digits_value(body) as u64)
    } else {
        None
    }
}

/// `str::parse::<u64>`: reads a number in decimal notation. The text has
/// to be digits from `0` to `9`, at least one, with at most a plus sign
/// before them; anything else in it, white space too, is an error, and so
/// is a number that does not fit.
#[verifier::external_body]
pub(crate) fn parse_u64(text: &str) -> (r: Option<u64>)
    ensures
        r == parsed_u64(text@),
{
    text.parse::<u64>().ok()
}

/// `num_cpus::get`: the number of logical processors that the process may
/// use, at least one.
#[verifier::external_body]
pub(crate) fn logical_cpus() -> (r: usize)
    ensures
        r >= 1,
{
    num_cpus::get()
}

/// `num_cpus::get_physical`: the number of physical cores of the machine,
/// at least one.
#[verifier::external_body]
pub(crate) fn physical_cpus() -> (r: usize)
    ensures
        r >= 1,
{
    num_cpus::get_physical()
}

/// A number of threads by what it follows.
#[derive(Debug, Clone, Copy, PartialEq, Eq, Structural)]
pub enum NamedThreadConfig {
    /// As many as there are logical processors.
    Cpu,
    /// As many as there are physical cores.
    Physical,
}

/// A number of threads: named, or given.
#[derive(Debug, Clone, Copy, PartialEq, Eq, Structural)]
pub enum ThreadsConfig {
    Named(NamedThreadConfig),
    Num(u64),
}

/// The configuration that a text stands for: `cpu`, `physical`, or a
/// number that is at least one.
pub open spec fn parsed_threads(text: Seq<char>) -> Option<ThreadsConfig> {
    if text == "cpu"@ {
        Some(ThreadsConfig::Named(NamedThreadConfig::Cpu))
    } else if text == "physical"@ {
        Some(ThreadsConfig::Named(NamedThreadConfig::Physical))
    } else {
        match parsed_u64(text) {
            Some(n) => if n >= 1 {
                Some(ThreadsConfig::Num(n))
            } else {
                None
            },
            None => None,
        }
    }
}

/// The number of threads of a configuration on a machine with this many
/// logical processors and physical cores. A given number that does not
/// fit the machine's word is cut down to the largest that does.
pub open spec fn threads_on(config: ThreadsConfig, logical: usize, physical: usize) -> usize {
    match config {
        ThreadsConfig::Named(NamedThreadConfig::Cpu) => logical,
        ThreadsConfig::Named(NamedThreadConfig::Physical) => physical,
        ThreadsConfig::Num(n) => if n <= usize::MAX {
            n as usize
        } else {
            usize::MAX
        },
    }
}

impl ThreadsConfig {
    /// Reads a configuration: `cpu`, `physical`, or a number that is at
    /// least one.
    pub fn parse(text: &str) -> (r: Option<Self>)
        ensures
            r == parsed_threads(text@),
    {
        if text_eq(text, "cpu") {
            Some(ThreadsConfig::Named(NamedThreadConfig::Cpu))
        } else if text_eq(text, "physical") {
            Some(ThreadsConfig::Named(NamedThreadConfig::Physical))
        } else {
            match parse_u64(text) {
                Some(n) => if n >= 1 {
                    Some(ThreadsConfig::Num(n))
                } else {
                    None
                },
                None => None,
            }
        }
    }

    /// The number of threads on a machine with this many logical
    /// processors and physical cores.
    pub fn resolve(self, logical: usize, physical: usize) -> (r: usize)
        ensures
            r == threads_on(self, logical, physical),
    {
        match self {
            ThreadsConfig::Named(named) => match named {
                NamedThreadConfig::Cpu => logical,
                NamedThreadConfig::Physical => physical,
            },
            ThreadsConfig::Num(n) => if n <= usize::MAX as u64 {
                n as usize
            } else {
                usize::MAX
            },
        }
    }

    /// The number of threads on this machine. It is at least one where a
    /// given number is.
    pub fn get_num_threads(self) -> (r: usize)
        ensures
            exists|logical: usize, physical: usize|
                logical >= 1 && physical >= 1 && r == threads_on(self, logical, physical),
            self matches ThreadsConfig::Num(n) ==> r == threads_on(self, 1, 1),
            !(self matches ThreadsConfig::Num(n) && n == 0) ==> r >= 1,
    {
        let logical = logical_cpus();
        let physical = physical_cpus();
        self.resolve(logical, physical)
    }

    /// The parser of configurations.
    pub fn value_parser() -> (r: CustomValueParser<ThreadsConfig>)
        ensures
            r == CustomValueParser::<ThreadsConfig>(core::marker::PhantomData),
    {
        CustomValueParser::new()
    }
}

} // verus!
