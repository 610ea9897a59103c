//! What the server says of itself, and how much it logs.
use vstd::prelude::*;
use vstd::string::StringExecFns;
use vstd::utf8;

use crate::serialize;
use crate::text;

verus! {

/// A decimal digit.
pub open spec fn digit(d: nat) -> char {
    (0x30 + d) as char
}

/// A number in decimal.
pub open spec fn digits(n: nat) -> Seq<char>
    decreases n,
{
    if n < 10 {
        seq![digit(n)]
    } else {
        digits(n / 10).push(digit(n % 10))
    }
}

/// A number in decimal, with a sign if it is negative.
pub open spec fn decimal(n: int) -> Seq<char> {
    if n < 0 {
        seq!['-'] + digits((-n) as nat)
    } else {
        digits(n as nat)
    }
}

/// A decimal digit.
fn digit_str(d: u32) -> (r: &'static str)
    requires
        d < 10,
    ensures
        r@ == seq![digit(d as nat)],
{
    proof {
        reveal_strlit("0");
        reveal_strlit("1");
        reveal_strlit("2");
        reveal_strlit("3");
        reveal_strlit("4");
        reveal_strlit("5");
        reveal_strlit("6");
        reveal_strlit("7");
        reveal_strlit("8");
        reveal_strlit("9");
    }
    match d {
        0 => "0",
        1 => "1",
        2 => "2",
        3 => "3",
        4 => "4",
        5 => "5",
        6 => "6",
        7 => "7",
        8 => "8",
        _ => "9",
    }
}

/// Appends a number in decimal.
fn append_digits(s: &mut String, n: u32)
    ensures
        final(s)@ == old(s)@ + digits(n as nat),
    decreases n,
{
    if n >= 10 {
        append_digits(s, n / 10);
    }
    s.append(digit_str(n % 10));
    assert(s@ =~= old(s)@ + digits(n as nat));
}

/// Appends a number in decimal, with a sign if it is negative.
pub fn append_decimal(s: &mut String, n: i32)
    ensures
        final(s)@ == old(s)@ + decimal(n as int),
{
    if n < 0 {
        proof {
            reveal_strlit("-");
        }
        s.append("-");
        append_digits(s, (-(n as i64)) as u32);
        assert("-"@ =~= seq!['-']);
        assert(s@ =~= old(s)@ + decimal(n as int));
    } else {
        append_digits(s, n as u32);
    }
}

/// What the server says of itself.
pub open spec fn status_text(
    version: Seq<char>,
    protocol: int,
    max_players: int,
    online: int,
    motd: Seq<char>,
) -> Seq<char> {
    "{\n    \"version\": {\n        \"name\": \""@ + version + "\",\n        \"protocol\": "@ + decimal(
        protocol,
    ) + "\n    },\n    \"players\": {\n        \"max\": "@ + decimal(max_players)
        + ",\n        \"online\": "@ + decimal(online)
        + ",\n        \"sample\": []\n    },\n    \"description\": {\n        \"text\" : \""@ + motd
        + "\"\n    }\n}\n"@
}

/// What the server says of itself, as a packet's data; `None` if it is too long for its length
/// field. Neither the version nor the message may hold a quote or a backslash.
pub fn status_response(
    version: &str,
    protocol: i32,
    max_players: i32,
    online: i32,
    motd: &str,
) -> (r: Option<Vec<u8>>)
    ensures
        ({
            let s = status_text(
                version@,
                protocol as int,
                max_players as int,
                online as int,
                motd@,
            );
            match r {
                Some(out) => utf8::encode_utf8(s).len() <= i32::MAX && out@ == serialize::text(s),
                None => utf8::encode_utf8(s).len() > i32::MAX,
            }
        }),
{
    let mut s = String::from_str("{\n    \"version\": {\n        \"name\": \"");
    s.append(version);
    s.append("\",\n        \"protocol\": ");
    append_decimal(&mut s, protocol);
    s.append("\n    },\n    \"players\": {\n        \"max\": ");
    append_decimal(&mut s, max_players);
    s.append(",\n        \"online\": ");
    append_decimal(&mut s, online);
    s.append(",\n        \"sample\": []\n    },\n    \"description\": {\n        \"text\" : \"");
    s.append(motd);
    s.append("\"\n    }\n}\n");
    text::assemble_string(s.as_str())
}

/// How much is logged.
#[derive(Debug, Clone, Copy, PartialEq, Eq, Structural)]
pub enum LogLevel {
    Trace,
    Debug,
    Info,
    Warn,
    Error,
}

/// A letter from a to z in upper case; any other character as it is.
pub open spec fn upper_char(c: char) -> char {
    if 'a' <= c <= 'z' {
        (c as u32 - 32) as char
    } else {
        c
    }
}

/// A text with the letters from a to z in upper case.
pub open spec fn upper(s: Seq<char>) -> Seq<char> {
    s.map_values(|c: char| upper_char(c))
}

/// The level that goes by the name, in whatever case.
pub open spec fn level_named(name: Seq<char>) -> Option<LogLevel> {
    if upper(name) == "TRACE"@ {
        Some(LogLevel::Trace)
    } else if upper(name) == "DEBUG"@ {
        Some(LogLevel::Debug)
    } else if upper(name) == "INFO"@ {
        Some(LogLevel::Info)
    } else if upper(name) == "WARN"@ {
        Some(LogLevel::Warn)
    } else if upper(name) == "ERROR"@ {
        Some(LogLevel::Error)
    } else {
        None
    }
}

/// Whether the name in upper case is the given word.
fn is_named(name: &str, word: &str) -> (r: bool)
    ensures
        r == (upper(name@) == word@),
{
    let n: usize = name.unicode_len();
    if n != word.unicode_len() {
        return false;
    }
    for i in 0..n
        invariant
            n == name@.len(),
            n == word@.len(),
            forall|k: int| 0 <= k < i ==> upper(name@)[k] == #[trigger] word@[k],
    {
        let c: char = name.get_char(i);
        let w: char = word.get_char(i);
        let same: bool = if 'a' <= c && c <= 'z' {
            c as u32 - 32 == w as u32
        } else {
            c == w
        };
        assert(same == (upper(name@)[i as int] == word@[i as int]));
        if !same {
            return false;
        }
    }
    assert(upper(name@) =~= word@);
    true
}

/// The level that goes by the name, in whatever case, and whether there is one: if not, the level
/// is that of information.
pub fn log_level(name: &str) -> (r: (LogLevel, bool))
    ensures
        match level_named(name@) {
            Some(level) => r == (level, true),
            None => r == (LogLevel::Info, false),
        },
{
    if is_named(name, "TRACE") {
        (LogLevel::Trace, true)
    } else if is_named(name, "DEBUG") {
        (LogLevel::Debug, true)
    } else if is_named(name, "INFO") {
        (LogLevel::Info, true)
    } else if is_named(name, "WARN") {
        (LogLevel::Warn, true)
    } else if is_named(name, "ERROR") {
        (LogLevel::Error, true)
    } else {
        (LogLevel::Info, false)
    }
}

} // verus!
