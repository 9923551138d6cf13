//! Commands: the closed set of requests, and their validation from the
//! whitespace-separated words of one input line.
use vstd::prelude::*;

verus! {

/// A validated request.
#[allow(non_camel_case_types)]
#[derive(Debug, PartialEq, Eq)]
pub enum db_command {
    SET(String, i32),
    GET(String),
    UNSET(String),
    NUMEQUALTO(i32),
    END,
    BEGIN,
    ROLLBACK,
    COMMIT,
}

/// Abstract view of a command: keys as character sequences.
pub ghost enum CommandModel {
    SetValue(Seq<char>, i32),
    Get(Seq<char>),
    Unset(Seq<char>),
    NumEqualTo(i32),
    End,
    Begin,
    Rollback,
    Commit,
}

impl View for db_command {
    type V = CommandModel;

    open spec fn view(&self) -> CommandModel {
        match self {
            db_command::SET(k, v) => CommandModel::SetValue(k@, *v),
            db_command::GET(k) => CommandModel::Get(k@),
            db_command::UNSET(k) => CommandModel::Unset(k@),
            db_command::NUMEQUALTO(v) => CommandModel::NumEqualTo(*v),
            db_command::END => CommandModel::End,
            db_command::BEGIN => CommandModel::Begin,
            db_command::ROLLBACK => CommandModel::Rollback,
            db_command::COMMIT => CommandModel::Commit,
        }
    }
}

pub open spec fn is_digit(c: char) -> bool {
    '0' <= c && c <= '9'
}

/// Decimal value of a sequence of digits.
pub open spec fn digits_value(s: Seq<char>) -> int
    decreases s.len(),
{
    if s.len() == 0 {
        0
    } else {
        10 * digits_value(s.drop_last()) + (s.last() as int - '0' as int)
    }
}

/// One or more decimal digits.
pub open spec fn all_digits(s: Seq<char>) -> bool {
    s.len() > 0 && forall|i: int| 0 <= i < s.len() ==> is_digit(#[trigger] s[i])
}

/// The integer written by `s`: an optional `+` or `-`, then one or more
/// decimal digits.
pub open spec fn signed_value(s: Seq<char>) -> Option<int> {
    if s.len() > 0 && s[0] == '-' {
        if all_digits(s.drop_first()) {
            Some(-digits_value(s.drop_first()))
        } else {
            None
        }
    } else if s.len() > 0 && s[0] == '+' {
        if all_digits(s.drop_first()) {
            Some(digits_value(s.drop_first()))
        } else {
            None
        }
    } else if all_digits(s) {
        Some(digits_value(s))
    } else {
        None
    }
}

/// The 32-bit integer written by `s`, if it writes one in range.
pub open spec fn i32_of(s: Seq<char>) -> Option<i32> {
    match signed_value(s) {
        Some(v) => if i32::MIN <= v && v <= i32::MAX {
            Some(v as i32)
        } else {
            None
        },
        None => None,
    }
}

/// Magnitudes above this are out of range for either sign.
const MAGNITUDE_CAP: u64 = 2147483649;

spec fn capped(x: int) -> int {
    if x > MAGNITUDE_CAP {
        MAGNITUDE_CAP as int
    } else {
        x
    }
}

proof fn lemma_digits_value_nonneg(s: Seq<char>)
    requires
        forall|i: int| 0 <= i < s.len() ==> is_digit(#[trigger] s[i]),
    ensures
        digits_value(s) >= 0,
    decreases s.len(),
{
    if s.len() > 0 {
        assert(is_digit(s[s.len() - 1]));
        lemma_digits_value_nonneg(s.drop_last());
    }
}

/// Parses a decimal 32-bit integer with an optional sign, as `str::parse`
/// does for `i32`.
pub fn parse_i32(s: &str) -> (r: Option<i32>)
    ensures
        r == i32_of(s@),
{
    let n = s.unicode_len();
    if n == 0 {
        return None;
    }
    let first = s.get_char(0);
    let neg = first == '-';
    let start: usize = if first == '-' || first == '+' {
        1
    } else {
        0
    };
    let ghost digits = s@.subrange(start as int, n as int);
    proof {
        if start == 1 {
            assert(digits =~= s@.drop_first());
        } else {
            assert(digits =~= s@);
        }
    }
    if start == n {
        return None;
    }
    let mut acc: u64 = 0;
    let mut i: usize = start;
    while i < n
        invariant
            n == s@.len(),
            start <= i <= n,
            digits == s@.subrange(start as int, n as int),
            start == 1 ==> digits == s@.drop_first(),
            start == 0 ==> digits == s@,
            (start == 1) == (s@[0] == '-' || s@[0] == '+'),
            neg == (s@[0] == '-'),
            forall|j: int| start <= j < i ==> is_digit(#[trigger] s@[j]),
            acc == capped(digits_value(s@.subrange(start as int, i as int))),
        decreases n - i,
    {
        let c = s.get_char(i);
        if !('0' <= c && c <= '9') {
            proof {
                assert(!is_digit(digits[i - start]));
            }
            return None;
        }
        let d = (c as u32 - '0' as u32) as u64;
        let ghost prev = s@.subrange(start as int, i as int);
        let ghost next = s@.subrange(start as int, i + 1);
        proof {
            assert(next.drop_last() =~= prev);
            assert forall|j: int| 0 <= j < prev.len() implies is_digit(#[trigger] prev[j]) by {
                assert(prev[j] == s@[start + j]);
            }
            lemma_digits_value_nonneg(prev);
        }
        acc = acc * 10 + d;
        if acc > MAGNITUDE_CAP {
            acc = MAGNITUDE_CAP;
        }
        i = i + 1;
    }
    proof {
        assert(s@.subrange(start as int, n as int) == digits);
        assert forall|j: int| 0 <= j < digits.len() implies is_digit(#[trigger] digits[j]) by {
            assert(digits[j] == s@[start + j]);
        }
        lemma_digits_value_nonneg(digits);
    }
    if neg {
        if acc <= 2147483648 {
            Some((0 - (acc as i64)) as i32)
        } else {
            None
        }
    } else {
        if acc <= 2147483647 {
            Some(acc as i32)
        } else {
            None
        }
    }
}

/// The character sequences of the words of a line.
pub open spec fn words_of(command: Seq<&str>) -> Seq<Seq<char>> {
    command.map_values(|w: &str| w@)
}

/// The command written by the words `w`, or the error message for them.
pub open spec fn validate(w: Seq<Seq<char>>) -> Result<CommandModel, Seq<char>> {
    if w.len() == 0 {
        Err("INVALID COMMAND"@)
    } else if w[0] == "SET"@ {
        if w.len() != 3 {
            Err("Incorrect number of arguments for SET command"@)
        } else {
            match i32_of(w[2]) {
                Some(v) => Ok(CommandModel::SetValue(w[1], v)),
                None => Err("Invalid value supplied to SET"@),
            }
        }
    } else if w[0] == "GET"@ {
        if w.len() != 2 {
            Err("Incorrect number of arguments for GET command"@)
        } else {
            Ok(CommandModel::Get(w[1]))
        }
    } else if w[0] == "NUMEQUALTO"@ {
        if w.len() != 2 {
            Err("Incorrect number of arguments for NUMEQUALTO command"@)
        } else {
            match i32_of(w[1]) {
                Some(v) => Ok(CommandModel::NumEqualTo(v)),
                None => Err("Invalid value supplied to NUMEQUALTO"@),
            }
        }
    } else if w[0] == "UNSET"@ {
        if w.len() != 2 {
            Err("Incorrect number of arguments for UNSET command"@)
        } else {
            Ok(CommandModel::Unset(w[1]))
        }
    } else if w[0] == "BEGIN"@ {
        if w.len() != 1 {
            Err("Incorrect number of arguments for BEGIN command"@)
        } else {
            Ok(CommandModel::Begin)
        }
    } else if w[0] == "ROLLBACK"@ {
        if w.len() != 1 {
            Err("Incorrect number of arguments for ROLLBACK command"@)
        } else {
            Ok(CommandModel::Rollback)
        }
    } else if w[0] == "COMMIT"@ {
        if w.len() != 1 {
            Err("Incorrect number of arguments for COMMIT command"@)
        } else {
            Ok(CommandModel::Commit)
        }
    } else if w[0] == "END"@ {
        if w.len() != 1 {
            Err("Incorrect number of arguments for END command"@)
        } else {
            Ok(CommandModel::End)
        }
    } else {
        Err("INVALID COMMAND"@)
    }
}

/// Character-wise equality of two strings.
fn str_equal(a: &str, b: &str) -> (r: bool)
    ensures
        r == (a@ == b@),
{
    let n = a.unicode_len();
    if n != b.unicode_len() {
        return false;
    }
    let mut i: usize = 0;
    while i < n
        invariant
            n == a@.len(),
            n == b@.len(),
            i <= n,
            forall|j: int| 0 <= j < i ==> a@[j] == b@[j],
        decreases n - i,
    {
        if a.get_char(i) != b.get_char(i) {
            return false;
        }
        i = i + 1;
    }
    assert(a@ =~= b@);
    true
}

/// Turns the words of one input line into a command, or into the message
/// of what is wrong with them: an unknown verb, a wrong number of words for
/// a known verb, or a value that is not a 32-bit integer.
pub fn is_valid_command(command: &Vec<&str>) -> (r: Result<db_command, &'static str>)
    ensures
        match r {
            Ok(c) => validate(words_of(command@)) == Ok::<CommandModel, Seq<char>>(c@),
            Err(e) => validate(words_of(command@)) == Err::<CommandModel, Seq<char>>(e@),
        },
{
    let ghost w = words_of(command@);
    let n = command.len();
    if n == 0 {
        return Err("INVALID COMMAND");
    }
    let verb = command[0];
    assert(w[0] == verb@);
    if str_equal(verb, "SET") {
        if n != 3 {
            Err("Incorrect number of arguments for SET command")
        } else {
            assert(w[2] == command@[2]@ && w[1] == command@[1]@);
            match parse_i32(command[2]) {
                Some(v) => Ok(db_command::SET(command[1].to_owned(), v)),
                None => Err("Invalid value supplied to SET"),
            }
        }
    } else if str_equal(verb, "GET") {
        if n != 2 {
            Err("Incorrect number of arguments for GET command")
        } else {
            assert(w[1] == command@[1]@);
            Ok(db_command::GET(command[1].to_owned()))
        }
    } else if str_equal(verb, "NUMEQUALTO") {
        if n != 2 {
            Err("Incorrect number of arguments for NUMEQUALTO command")
        } else {
            assert(w[1] == command@[1]@);
            match parse_i32(command[1]) {
                Some(v) => Ok(db_command::NUMEQUALTO(v)),
                None => Err("Invalid value supplied to NUMEQUALTO"),
            }
        }
    } else if str_equal(verb, "UNSET") {
        if n != 2 {
            Err("Incorrect number of arguments for UNSET command")
        } else {
            assert(w[1] == command@[1]@);
            Ok(db_command::UNSET(command[1].to_owned()))
        }
    } else if str_equal(verb, "BEGIN") {
        if n != 1 {
            Err("Incorrect number of arguments for BEGIN command")
        } else {
            Ok(db_command::BEGIN)
        }
    } else if str_equal(verb, "ROLLBACK") {
        if n != 1 {
            Err("Incorrect number of arguments for ROLLBACK command")
        } else {
            Ok(db_command::ROLLBACK)
        }
    } else if str_equal(verb, "COMMIT") {
        if n != 1 {
            Err("Incorrect number of arguments for COMMIT command")
        } else {
            Ok(db_command::COMMIT)
        }
    } else if str_equal(verb, "END") {
        if n != 1 {
            Err("Incorrect number of arguments for END command")
        } else {
            Ok(db_command::END)
        }
    } else {
        Err("INVALID COMMAND")
    }
}

} // verus!
