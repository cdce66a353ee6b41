//! The rule that prefers binary, octal and hexadecimal literals over
//! `parseInt(text, radix)` and `Number.parseInt(text, radix)`.
use vstd::prelude::*;
use vstd::string::StringExecFns;

use crate::text::str_eq;

verus! {

/// A radix that has a literal form.
#[derive(Copy, Clone, Debug, PartialEq, Eq, Structural)]
pub enum Radix {
    Binary,
    Octal,
    Hexadecimal,
}

impl Radix {
    pub open spec fn spec_value(&self) -> u32 {
        match *self {
            Radix::Binary => 2,
            Radix::Octal => 8,
            Radix::Hexadecimal => 16,
        }
    }

    pub open spec fn spec_prefix(&self) -> Seq<char> {
        match *self {
            Radix::Binary => "0b"@,
            Radix::Octal => "0o"@,
            Radix::Hexadecimal => "0x"@,
        }
    }

    pub open spec fn spec_description(&self) -> Seq<char> {
        match *self {
            Radix::Binary => "binary"@,
            Radix::Octal => "octal"@,
            Radix::Hexadecimal => "hexadecimal"@,
        }
    }

    /// The base of the radix.
    pub fn value(&self) -> (r: u32)
        ensures
            r == self.spec_value(),
    {
        match self {
            Radix::Binary => 2,
            Radix::Octal => 8,
            Radix::Hexadecimal => 16,
        }
    }

    /// The prefix of a number literal in this radix.
    pub fn prefix(&self) -> (r: &'static str)
        ensures
            r@ == self.spec_prefix(),
    {
        match self {
            Radix::Binary => "0b",
            Radix::Octal => "0o",
            Radix::Hexadecimal => "0x",
        }
    }

    /// The name of the radix, as a message reads it.
    pub fn description(&self) -> (r: &'static str)
        ensures
            r@ == self.spec_description(),
    {
        match self {
            Radix::Binary => "binary",
            Radix::Octal => "octal",
            Radix::Hexadecimal => "hexadecimal",
        }
    }
}

/// The value of a digit character in any radix up to 36, or 36 for a
/// character that is no digit.
pub open spec fn digit_value(c: char) -> int {
    if '0' <= c <= '9' {
        c as int - '0' as int
    } else if 'a' <= c <= 'z' {
        c as int - 'a' as int + 10
    } else if 'A' <= c <= 'Z' {
        c as int - 'A' as int + 10
    } else {
        36
    }
}

/// The value of a sequence of digits in the given radix.
pub open spec fn digits_value(ds: Seq<char>, radix: int) -> int
    decreases ds.len(),
{
    if ds.len() == 0 {
        0
    } else {
        digits_value(ds.drop_last(), radix) * radix + digit_value(ds.last())
    }
}

/// Whether `s` is an optional `+` or `-` followed by one digit or more of
/// the radix, whose value fits in an `i128`.
pub open spec fn parses_as_i128(s: Seq<char>, radix: int) -> bool {
    let negative = s.len() > 0 && s[0] == '-';
    let ds = if s.len() > 0 && (s[0] == '-' || s[0] == '+') { s.skip(1) } else { s };
    &&& ds.len() > 0
    &&& forall|i: int| 0 <= i < ds.len() ==> digit_value(#[trigger] ds[i]) < radix
    &&& if negative {
        digits_value(ds, radix) <= 0x8000_0000_0000_0000_0000_0000_0000_0000
    } else {
        digits_value(ds, radix) <= 0x7fff_ffff_ffff_ffff_ffff_ffff_ffff_ffff
    }
}

/// Relies on `i128::from_str_radix`: it accepts exactly an optional sign and
/// digits of the radix whose value fits in an `i128`.
#[verifier::external_body]
fn parses_i128(text: &str, radix: u32) -> (r: bool)
    requires
        2 <= radix <= 36,
    ensures
        r == parses_as_i128(text@, radix as int),
{
    i128::from_str_radix(text, radix).is_ok()
}

/// A call of `parseInt` with a string constant and a radix that has a literal form.
pub struct CallInfo {
    callee: &'static str,
    text: String,
    radix: Radix,
}

impl CallInfo {
    pub closed spec fn spec_callee(&self) -> Seq<char> {
        self.callee@
    }

    pub closed spec fn spec_text(&self) -> Seq<char> {
        self.text@
    }

    pub closed spec fn spec_radix(&self) -> Radix {
        self.radix
    }

    pub fn new(callee: &'static str, text: String, radix: Radix) -> (r: CallInfo)
        ensures
            r.spec_callee() == callee@,
            r.spec_text() == text@,
            r.spec_radix() == radix,
    {
        CallInfo { callee, text, radix }
    }

    /// The call, from what the rule reads of it: the number of its arguments,
    /// the first one if it is a string constant, the radix the second one
    /// asks for if it is a number with a literal form, and its callee. Some
    /// exactly when the call has two such arguments and its callee is the
    /// global `parseInt` or `Number.parseInt`.
    pub fn from_parts(arg_count: usize, text: Option<String>, radix: Option<Radix>, callee: &Callee) -> (r: Option<CallInfo>)
        ensures
            r is Some <==> arg_count == 2 && text is Some && radix is Some && get_callee_spec(*callee) is Some,
            r matches Some(c) ==> c.spec_text() == text->0@ && c.spec_radix() == radix->0
                && c.spec_callee() == get_callee_spec(*callee)->0,
    {
        if arg_count != 2 {
            return None;
        }
        let text = match text {
            Some(t) => t,
            None => return None,
        };
        let radix = match radix {
            Some(x) => x,
            None => return None,
        };
        match get_callee(callee) {
            Some(name) => Some(CallInfo { callee: name, text, radix }),
            None => None,
        }
    }

    /// The text of the number literal that replaces the call: the radix's
    /// prefix and the string's digits, when the string is a number of that
    /// radix.
    pub fn to_numeric_literal(&self) -> (r: Option<String>)
        ensures
            r is Some <==> parses_as_i128(self.spec_text(), self.spec_radix().spec_value() as int),
            r matches Some(s) ==> s@ == self.spec_radix().spec_prefix() + self.spec_text(),
    {
        if !parses_i128(self.text.as_str(), self.radix.value()) {
            return None;
        }
        let number = String::from_str(self.radix.prefix());
        Some(number.concat(self.text.as_str()))
    }

    /// The message of the diagnostic.
    pub fn diagnostic_message(&self) -> (r: String)
        ensures
            r@ == "Use "@ + self.spec_radix().spec_description() + " literals instead of "@ + self.spec_callee(),
    {
        String::from_str("Use ")
            .concat(self.radix.description())
            .concat(" literals instead of ")
            .concat(self.callee)
    }

    /// The message of the fix.
    pub fn action_message(&self) -> (r: String)
        ensures
            r@ == "Replace with "@ + self.spec_radix().spec_description() + " literals"@,
    {
        String::from_str("Replace with ")
            .concat(self.radix.description())
            .concat(" literals")
    }
}

/// The shape of a call's callee, as the rule reads it.
pub enum Callee<'a> {
    /// A plain identifier, and whether the file declares it.
    Identifier { name: &'a str, declared: bool },
    /// `object.member`, and whether the file declares `object`.
    Member { object: &'a str, object_declared: bool, member: &'a str },
    /// Anything else.
    Other,
}

/// How the rule names a callee: the global `parseInt` and
/// `Number.parseInt` by their call, any other callee not at all.
pub open spec fn get_callee_spec(callee: Callee) -> Option<Seq<char>> {
    match callee {
        Callee::Identifier { name, declared } => {
            if name@ == "parseInt"@ && !declared { Some("parseInt()"@) } else { None }
        },
        Callee::Member { object, object_declared, member } => {
            if object@ == "Number"@ && !object_declared && member@ == "parseInt"@ {
                Some("Number.parseInt()"@)
            } else {
                None
            }
        },
        Callee::Other => None,
    }
}

/// How the rule names a callee that is the global `parseInt` or
/// `Number.parseInt`, and `None` for any other callee.
pub fn get_callee(callee: &Callee) -> (r: Option<&'static str>)
    ensures
        r is Some <==> get_callee_spec(*callee) is Some,
        r matches Some(s) ==> s@ == get_callee_spec(*callee)->0,
{
    match callee {
        Callee::Identifier { name, declared } => {
            if str_eq(name, "parseInt") && !*declared {
                Some("parseInt()")
            } else {
                None
            }
        },
        Callee::Member { object, object_declared, member } => {
            if str_eq(object, "Number") && !*object_declared && str_eq(member, "parseInt") {
                Some("Number.parseInt()")
            } else {
                None
            }
        },
        Callee::Other => None,
    }
}

} // verus!
