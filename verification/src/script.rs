//! What running a script needs decided before anything touches the
//! system: the exact text written to the temporary script file, the
//! command line handed to PowerShell, the risky-script confirmation rule,
//! and the meaning of a numbered-selection answer.

use vstd::prelude::*;

verus! {

use vstd::string::StringExecFns;
use crate::text::{lower_of, lowercase, trim_spec, trim_str};
use crate::registry::Shell;

// ----- script file contents -----

/// The text written to the temporary script file: `sh` and `cmd` scripts
/// get their interpreter preamble, PowerShell scripts are written as-is.
pub open spec fn script_source_spec(script: Seq<char>, shell: Shell) -> Seq<char> {
    match shell {
        Shell::Sh => "#!/bin/sh\n"@ + script,
        Shell::Cmd => "@echo off\n"@ + script,
        Shell::Powershell => script,
    }
}

/// The script-file text for a `sh` script.
pub fn sh_script_source(script: &str) -> (r: String)
    ensures
        r@ == script_source_spec(script@, Shell::Sh),
{
    String::from_str("#!/bin/sh\n").concat(script)
}

/// The script-file text for a `cmd` script.
pub fn cmd_script_source(script: &str) -> (r: String)
    ensures
        r@ == script_source_spec(script@, Shell::Cmd),
{
    String::from_str("@echo off\n").concat(script)
}

/// The script-file text for any shell.
pub fn script_source(script: &str, shell: Shell) -> (r: String)
    ensures
        r@ == script_source_spec(script@, shell),
{
    match shell {
        Shell::Sh => sh_script_source(script),
        Shell::Cmd => cmd_script_source(script),
        Shell::Powershell => script.to_owned(),
    }
}

// ----- the PowerShell command line -----

/// What snailquote::escape returns: a pure function of the characters.
pub uninterp spec fn escaped_of(s: Seq<char>) -> Seq<char>;

/// Relies on snailquote::escape: shell-quotes an argument; the result
/// depends on the argument text alone.
#[verifier::external_body]
fn escape_arg(s: &str) -> (r: String)
    ensures
        r@ == escaped_of(s@),
{
    snailquote::escape(s).into_owned()
}

/// The one command string handed to PowerShell: `&`, the script path, then
/// every argument escaped, joined by single spaces.
pub open spec fn powershell_command_spec(path: Seq<char>, args: Seq<Seq<char>>) -> Seq<char>
    decreases args.len(),
{
    if args.len() == 0 {
        "&"@ + " "@ + path
    } else {
        powershell_command_spec(path, args.drop_last()) + " "@ + escaped_of(args.last())
    }
}

/// Build the PowerShell command line for a script path and its arguments.
pub fn powershell_command_line(path: &str, args: &Vec<String>) -> (r: String)
    ensures
        r@ == powershell_command_spec(path@, args@.map_values(|a: String| a@)),
{
    let ghost aseq = args@.map_values(|a: String| a@);
    let mut r = String::from_str("&");
    r.append(" ");
    r.append(path);
    let mut i: usize = 0;
    proof {
        assert(aseq.take(0) =~= Seq::<Seq<char>>::empty());
    }
    while i < args.len()
        invariant
            aseq == args@.map_values(|a: String| a@),
            i <= args@.len(),
            r@ == powershell_command_spec(path@, aseq.take(i as int)),
        decreases args@.len() - i,
    {
        r.append(" ");
        let e = escape_arg(args[i].as_str());
        r.append(e.as_str());
        proof {
            assert(aseq.take(i + 1).drop_last() =~= aseq.take(i as int));
            assert(aseq.take(i + 1).last() == aseq[i as int]);
            assert(aseq[i as int] == args@[i as int]@);
        }
        i = i + 1;
    }
    proof {
        assert(aseq.take(aseq.len() as int) =~= aseq);
    }
    r
}

// ----- the risky-script confirmation -----

/// Does an answer to the risky-script prompt grant permission? Only `y`
/// or `yes`: lowercased, surrounding whitespace ignored.
pub fn confirmation_accepts(answer: &str) -> (r: bool)
    ensures
        r == (trim_spec(lower_of(answer@)) == "y"@ || trim_spec(lower_of(answer@)) == "yes"@),
{
    let lowered = lowercase(answer);
    let trimmed = trim_str(lowered.as_str());
    if trimmed == String::from_str("y") {
        return true;
    }
    trimmed == String::from_str("yes")
}

// ----- the numbered selection prompt -----

pub open spec fn is_digit_char(c: char) -> bool {
    0x30 <= c as int && c as int <= 0x39
}

/// The value of a run of decimal digits.
pub open spec fn digits_value(s: Seq<char>) -> int
    decreases s.len(),
{
    if s.len() == 0 {
        0
    } else {
        digits_value(s.drop_last()) * 10 + (s.last() as int - 0x30)
    }
}

/// The digits of a number as `u8::from_str` sees them: an optional leading
/// plus sign is skipped.
pub open spec fn unsigned_digits(s: Seq<char>) -> Seq<char> {
    if s.len() > 0 && s[0] == '+' {
        s.drop_first()
    } else {
        s
    }
}

/// Texts that `str::parse::<u8>` accepts: an optional plus sign, then at
/// least one digit, with a value below 256.
pub open spec fn parses_as_u8(s: Seq<char>) -> bool {
    &&& unsigned_digits(s).len() > 0
    &&& (forall|i: int|
        0 <= i < unsigned_digits(s).len() ==> is_digit_char(#[trigger] unsigned_digits(s)[i]))
    &&& digits_value(unsigned_digits(s)) <= 255
}

proof fn lemma_digits_value_nonneg(s: Seq<char>)
    requires
        forall|i: int| 0 <= i < s.len() ==> is_digit_char(#[trigger] s[i]),
    ensures
        digits_value(s) >= 0,
    decreases s.len(),
{
    if s.len() > 0 {
        lemma_digits_value_nonneg(s.drop_last());
    }
}

/// A digit run's value only grows as digits are appended.
proof fn lemma_digits_value_prefix(s: Seq<char>, i: int)
    requires
        forall|t: int| 0 <= t < s.len() ==> is_digit_char(#[trigger] s[t]),
        0 <= i <= s.len(),
    ensures
        digits_value(s) >= digits_value(s.take(i)),
    decreases s.len() - i,
{
    if i < s.len() {
        assert(s.take(i + 1).drop_last() =~= s.take(i));
        assert(s.take(i + 1).last() == s[i]);
        lemma_digits_value_nonneg(s.take(i));
        assert(digits_value(s.take(i + 1)) >= digits_value(s.take(i)));
        lemma_digits_value_prefix(s, i + 1);
        assert(s.take(s.len() as int) =~= s);
    } else {
        assert(s.take(s.len() as int) =~= s);
    }
}

/// Parse a decimal `u8` the way `str::parse::<u8>` does.
pub fn parse_u8(s: &str) -> (r: Option<u8>)
    ensures
        r is Some <==> parses_as_u8(s@),
        r matches Some(n) ==> n as int == digits_value(unsigned_digits(s@)),
{
    let len = s.unicode_len();
    let mut start: usize = 0;
    if len > 0 && s.get_char(0) == '+' {
        start = 1;
    }
    let ghost d = unsigned_digits(s@);
    proof {
        assert(d =~= s@.skip(start as int));
    }
    if start >= len {
        return None;
    }
    let mut acc: u32 = 0;
    let mut i: usize = start;
    proof {
        assert(d.take(0) =~= Seq::<char>::empty());
    }
    while i < len
        invariant
            len == s@.len(),
            start <= i <= len,
            start <= len,
            d == unsigned_digits(s@),
            d == s@.skip(start as int),
            forall|t: int| 0 <= t < i - start ==> is_digit_char(#[trigger] d[t]),
            acc as int == digits_value(d.take(i - start)),
            acc <= 255,
        decreases len - i,
    {
        let c = s.get_char(i);
        let u = c as u32;
        proof {
            assert(d[i - start] == s@[i as int]);
            assert(d.take(i - start + 1).drop_last() =~= d.take(i - start));
            assert(d.take(i - start + 1).last() == d[i - start]);
        }
        if u < 0x30 || u > 0x39 {
            proof {
                assert(!is_digit_char(d[i - start]));
            }
            return None;
        }
        let digit: u32 = u - 0x30;
        let next: u32 = acc * 10 + digit;
        if next > 255 {
            proof {
                assert(digits_value(d.take(i - start + 1)) == next);
                if parses_as_u8(s@) {
                    assert forall|t: int| 0 <= t < d.len() implies is_digit_char(
                        #[trigger] d[t],
                    ) by {
                        assert(is_digit_char(unsigned_digits(s@)[t]));
                    }
                    lemma_digits_value_prefix(d, i - start + 1);
                }
            }
            return None;
        }
        acc = next;
        i = i + 1;
    }
    proof {
        assert(d.take((len - start) as int) =~= d);
        assert(parses_as_u8(s@));
    }
    Some(acc as u8)
}

/// The meaning of an answer to the numbered selection prompt: `a` or `q`
/// aborts, a number picks an index, anything else is invalid.
#[derive(Debug, Clone, Copy, PartialEq, Eq, Structural)]
pub enum ChoiceAnswer {
    Abort,
    Pick(u8),
    Invalid,
}

/// Classify a selection-prompt answer after trimming it.
pub fn parse_choice(line: &str) -> (r: ChoiceAnswer)
    ensures
        trim_spec(line@) == "a"@ || trim_spec(line@) == "q"@ ==> r == ChoiceAnswer::Abort,
        !(trim_spec(line@) == "a"@ || trim_spec(line@) == "q"@) && parses_as_u8(trim_spec(line@))
            ==> (r matches ChoiceAnswer::Pick(n) && n as int == digits_value(
            unsigned_digits(trim_spec(line@)),
        )),
        !(trim_spec(line@) == "a"@ || trim_spec(line@) == "q"@) && !parses_as_u8(trim_spec(line@))
            ==> r == ChoiceAnswer::Invalid,
{
    let trimmed = trim_str(line);
    if trimmed == String::from_str("a") || trimmed == String::from_str("q") {
        return ChoiceAnswer::Abort;
    }
    match parse_u8(trimmed.as_str()) {
        Some(n) => ChoiceAnswer::Pick(n),
        None => ChoiceAnswer::Invalid,
    }
}

} // verus!
