//! The validation kernel of the task-creating and task-editing commands:
//! deadline and duration arguments checked exactly as the commands demand
//! them, before anything is sent to the service.
use vstd::prelude::*;
use vstd::string::StrSliceExecFns;
use vstd::string::StringSliceAdditionalSpecFns;

use crate::dates::ymd_day;
use crate::model::DurationUnit;

verus! {

/// What the user did in one round of the continuous interactive listing.
#[derive(Debug, Clone, Copy, PartialEq, Eq, Structural)]
pub enum ListAction {
    /// An action was performed; the listing goes on.
    Action,
    /// The listing is over.
    Cancel,
}

/// Why a deadline or duration argument was refused.
#[derive(Debug, Clone, Copy, PartialEq, Eq, Structural)]
pub enum TaskExtrasError {
    /// The deadline is not a date in the form `YYYY-MM-DD`.
    BadDeadline,
    /// A duration was given without a due date.
    DurationWithoutDue,
    /// The duration has no colon between amount and unit.
    BadDurationFormat,
    /// The duration's amount is not a positive integer.
    BadDurationAmount,
    /// The duration's amount is zero.
    ZeroDuration,
    /// The duration's unit is neither `minute` nor `day`.
    BadDurationUnit,
}

/// The validated extras of a create or update command.
#[derive(Debug, Clone)]
pub struct TaskExtras {
    /// The deadline date, passed through once it parses.
    pub deadline_date: Option<String>,
    /// The language sent along with a deadline.
    pub deadline_lang: Option<String>,
    /// The duration amount.
    pub duration: Option<u32>,
    /// The duration unit.
    pub duration_unit: Option<DurationUnit>,
}

/// The position of the first colon at or after `k`.
pub open spec fn first_colon(s: Seq<char>, k: int) -> Option<int>
    decreases s.len() - k,
{
    if k < 0 || k >= s.len() {
        None
    } else if s[k] == ':' {
        Some(k)
    } else {
        first_colon(s, k + 1)
    }
}

/// Whether a character is a decimal digit.
pub open spec fn is_digit(c: char) -> bool {
    '0' <= c && c <= '9'
}

/// The value of a decimal digit string.
pub open spec fn dec_value(s: Seq<char>) -> int
    decreases s.len(),
{
    if s.len() == 0 {
        0
    } else {
        dec_value(s.drop_last()) * 10 + (s.last() as int - 48)
    }
}

/// An amount string with its optional leading plus sign stripped.
pub open spec fn parse_body(s: Seq<char>) -> Seq<char> {
    if s.len() > 0 && s[0] == '+' {
        s.skip(1)
    } else {
        s
    }
}

/// The number an amount string denotes: an optional leading plus sign,
/// then at least one digit, the value fitting an unsigned 32-bit integer.
pub open spec fn spec_parse_u32(s: Seq<char>) -> Option<u32> {
    if parse_body(s).len() > 0 && (forall|i: int|
        0 <= i < parse_body(s).len() ==> is_digit(#[trigger] parse_body(s)[i])) && dec_value(
        parse_body(s),
    ) <= u32::MAX {
        Some(dec_value(parse_body(s)) as u32)
    } else {
        None
    }
}

/// What checking a duration argument yields: the amount and unit, or the
/// first reason it is refused.
pub open spec fn spec_duration_arg(s: Seq<char>) -> Result<(u32, DurationUnit), TaskExtrasError> {
    match first_colon(s, 0) {
        None => Err(TaskExtrasError::BadDurationFormat),
        Some(i) => {
            let amount = s.take(i);
            let unit = s.skip(i + 1);
            match spec_parse_u32(amount) {
                None => Err(TaskExtrasError::BadDurationAmount),
                Some(v) => if v == 0 {
                    Err(TaskExtrasError::ZeroDuration)
                } else if unit == "minute"@ {
                    Ok((v, DurationUnit::Minute))
                } else if unit == "day"@ {
                    Ok((v, DurationUnit::Day))
                } else {
                    Err(TaskExtrasError::BadDurationUnit)
                },
            }
        },
    }
}

/// The first reason the extras of a command are refused, if any: a
/// malformed deadline, then a duration without a due date, then whatever
/// the duration argument itself is refused for.
pub open spec fn spec_extras_error(
    has_due: bool,
    deadline: Option<Seq<char>>,
    duration: Option<Seq<char>>,
) -> Option<TaskExtrasError> {
    match deadline {
        Some(d) if ymd_day(d) is None => Some(TaskExtrasError::BadDeadline),
        _ => match duration {
            None => None,
            Some(s) => if !has_due {
                Some(TaskExtrasError::DurationWithoutDue)
            } else {
                match spec_duration_arg(s) {
                    Err(e) => Some(e),
                    Ok(_) => None,
                }
            },
        },
    }
}

/// The view of an optional owned string.
pub open spec fn opt_view(s: Option<String>) -> Option<Seq<char>> {
    match s {
        Some(x) => Some(x@),
        None => None,
    }
}

fn str_eq(a: &str, b: &str) -> (r: bool)
    ensures
        r == (a@ == b@),
{
    let xa = a.as_bytes();
    let xb = b.as_bytes();
    let na = xa.len();
    let nb = xb.len();
    proof {
        broadcast use vstd::utf8::encode_utf8_decode_utf8;

        assert(vstd::utf8::decode_utf8(vstd::utf8::encode_utf8(a@)) == a@);
        assert(vstd::utf8::decode_utf8(vstd::utf8::encode_utf8(b@)) == b@);
    }
    if na != nb {
        proof {
            assert(xa@ != xb@);
        }
        return false;
    }
    let mut i: usize = 0;
    while i < na
        invariant
            i <= na,
            na == nb,
            na == xa@.len(),
            nb == xb@.len(),
            xa@ == a.spec_bytes(),
            xb@ == b.spec_bytes(),
            (a@ == b@) == (xa@ == xb@),
            forall|k: int| 0 <= k < i ==> xa@[k] == xb@[k],
        decreases na - i,
    {
        if xa[i] != xb[i] {
            proof {
                assert(xa@ != xb@);
            }
            return false;
        }
        i += 1;
    }
    proof {
        assert(xa@ =~= xb@);
    }
    true
}

fn parse_u32_arg(s: &str) -> (r: Option<u32>)
    ensures
        r == spec_parse_u32(s@),
{
    let n = s.unicode_len();
    let mut start: usize = 0;
    if n > 0 && s.get_char(0) == '+' {
        start = 1;
    }
    let ghost body = parse_body(s@);
    proof {
        assert(body =~= s@.skip(start as int));
    }
    if start >= n {
        proof {
            assert(body.len() == 0);
        }
        return None;
    }
    let mut val: u64 = 0;
    let mut i: usize = start;
    while i < n
        invariant
            start <= i <= n,
            n == s@.len(),
            start <= 1,
            body == s@.skip(start as int),
            body == parse_body(s@),
            forall|k: int| start <= k < i ==> is_digit(#[trigger] s@[k]),
            val as int == dec_value(s@.skip(start as int).take(i - start)),
            val <= u32::MAX,
        decreases n - i,
    {
        let c = s.get_char(i);
        if !(c >= '0' && c <= '9') {
            proof {
                assert(c == s@[i as int]);
                assert(!is_digit(c));
                assert(parse_body(s@)[i - start as int] == s@[i as int]);
            }
            return None;
        }
        let d = c as u64 - 48;
        let next = val * 10 + d;
        proof {
            assert(s@.skip(start as int).take(i + 1 - start as int).drop_last() =~= s@.skip(
                start as int,
            ).take(i - start as int));
            assert(s@.skip(start as int).take(i + 1 - start as int).last() == s@[i as int]);
        }
        if next > u32::MAX as u64 {
            proof {
                let full = parse_body(s@);
                assert(full == body);
                assert(dec_value(full.take(i + 1 - start as int)) == next as int);
                if forall|z: int| 0 <= z < full.len() ==> is_digit(#[trigger] full[z]) {
                    lemma_dec_value_grows(full, i + 1 - start as int);
                    assert(dec_value(full) > u32::MAX);
                }
            }
            return None;
        }
        val = next;
        i += 1;
    }
    proof {
        assert(s@.skip(start as int).take(n - start as int) =~= body);
        assert(val as int == dec_value(parse_body(s@)));
        assert(parse_body(s@).len() > 0);
        assert(forall|k: int|
            0 <= k < parse_body(s@).len() ==> is_digit(#[trigger] parse_body(s@)[k]));
    }
    Some(val as u32)
}

proof fn lemma_dec_value_grows(s: Seq<char>, k: int)
    requires
        0 < k <= s.len(),
        forall|i: int| 0 <= i < s.len() ==> is_digit(#[trigger] s[i]),
    ensures
        dec_value(s) >= dec_value(s.take(k)),
    decreases s.len() - k,
{
    if k == s.len() {
        assert(s.take(k) =~= s);
    } else {
        lemma_dec_value_grows(s, k + 1);
        assert(s.take(k + 1).drop_last() =~= s.take(k));
        assert(s.take(k + 1).last() == s[k]);
        assert(dec_value(s.take(k + 1)) == dec_value(s.take(k)) * 10 + (s[k] as int - 48));
        assert(dec_value(s.take(k)) >= 0) by {
            lemma_dec_value_nonneg(s.take(k));
        }
    }
}

proof fn lemma_dec_value_nonneg(s: Seq<char>)
    requires
        forall|i: int| 0 <= i < s.len() ==> is_digit(#[trigger] s[i]),
    ensures
        dec_value(s) >= 0,
    decreases s.len(),
{
    if s.len() > 0 {
        assert(s.drop_last()[s.len() - 2] == s[s.len() - 2] || s.len() == 1);
        lemma_dec_value_nonneg(s.drop_last());
    }
}

/// Checks a duration argument of the form `amount:unit`.
pub fn parse_duration_arg(s: &str) -> (r: Result<(u32, DurationUnit), TaskExtrasError>)
    ensures
        r == spec_duration_arg(s@),
{
    let n = s.unicode_len();
    let mut i: usize = 0;
    let mut colon: Option<usize> = None;
    while i < n
        invariant_except_break
            i <= n,
            n == s@.len(),
            colon is None,
            first_colon(s@, 0) == first_colon(s@, i as int),
        ensures
            n == s@.len(),
            match colon {
                Some(c) => first_colon(s@, 0) == Some(c as int) && c < n,
                None => first_colon(s@, 0) is None,
            },
        decreases n - i,
    {
        if s.get_char(i) == ':' {
            colon = Some(i);
            proof {
                assert(first_colon(s@, i as int) == Some(i as int));
            }
            break;
        }
        i += 1;
    }
    match colon {
        None => Err(TaskExtrasError::BadDurationFormat),
        Some(c) => {
            let amount = s.substring_char(0, c);
            let unit = s.substring_char(c + 1, n);
            proof {
                assert(amount@ == s@.take(c as int));
                assert(unit@ == s@.skip(c as int + 1));
            }
            match parse_u32_arg(amount) {
                None => Err(TaskExtrasError::BadDurationAmount),
                Some(v) => {
                    if v == 0 {
                        Err(TaskExtrasError::ZeroDuration)
                    } else if str_eq(unit, "minute") {
                        Ok((v, DurationUnit::Minute))
                    } else if str_eq(unit, "day") {
                        Ok((v, DurationUnit::Day))
                    } else {
                        Err(TaskExtrasError::BadDurationUnit)
                    }
                },
            }
        },
    }
}

/// Validates the deadline and duration arguments of the create and update
/// commands: the deadline must be a `YYYY-MM-DD` date, a duration needs a
/// due date and must be a positive amount of minutes or days.
pub fn prepare_task_extras(
    has_due: bool,
    deadline: Option<String>,
    duration: Option<String>,
) -> (r: Result<TaskExtras, TaskExtrasError>)
    ensures
        r is Ok <==> spec_extras_error(has_due, opt_view(deadline), opt_view(duration)) is None,
        match r {
            Ok(x) => {
                &&& x.deadline_date == deadline
                &&& (match x.deadline_lang {
                    Some(l) => deadline is Some && l@ == "en"@,
                    None => deadline is None,
                })
                &&& (match duration {
                    Some(ds) => spec_duration_arg(ds@) matches Ok(p) && x.duration == Some(p.0)
                        && x.duration_unit == Some(p.1),
                    None => x.duration is None && x.duration_unit is None,
                })
            },
            Err(e) => spec_extras_error(has_due, opt_view(deadline), opt_view(duration)) == Some(
                e,
            ),
        },
{
    let mut out = TaskExtras {
        deadline_date: None,
        deadline_lang: None,
        duration: None,
        duration_unit: None,
    };
    match &deadline {
        Some(d) => {
            match crate::dates::parse_ymd(d.as_str()) {
                Some(_) => {
                    out.deadline_lang = Some("en".to_owned());
                },
                None => {
                    return Err(TaskExtrasError::BadDeadline);
                },
            }
        },
        None => {},
    }
    out.deadline_date = deadline;
    match &duration {
        Some(ds) => {
            if !has_due {
                return Err(TaskExtrasError::DurationWithoutDue);
            }
            match parse_duration_arg(ds.as_str()) {
                Ok((v, u)) => {
                    out.duration = Some(v);
                    out.duration_unit = Some(u);
                },
                Err(e) => {
                    return Err(e);
                },
            }
        },
        None => {},
    }
    Ok(out)
}

} // verus!
