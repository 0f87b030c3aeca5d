use vstd::prelude::*;
use vstd::string::StringExecFns;

verus! {

/// Name for what `str::to_lowercase` returns for a string: its Unicode
/// lowercase mapping.
pub uninterp spec fn lowercase(s: Seq<char>) -> Seq<char>;

/// Calls `str::to_lowercase`; the result is named by `lowercase`.
#[verifier::external_body]
pub fn to_lowercase(s: &str) -> (r: String)
    ensures
        r@ == lowercase(s@),
{
    s.to_lowercase()
}

/// True iff the two strings hold the same characters.
pub fn str_eq(a: &str, b: &str) -> (e: bool)
    ensures
        e == (a@ == b@),
{
    String::from_str(a) == String::from_str(b)
}

/// The decimal digit character for 0..=9.
pub open spec fn digit_char(d: nat) -> char {
    if d == 0 {
        '0'
    } else if d == 1 {
        '1'
    } else if d == 2 {
        '2'
    } else if d == 3 {
        '3'
    } else if d == 4 {
        '4'
    } else if d == 5 {
        '5'
    } else if d == 6 {
        '6'
    } else if d == 7 {
        '7'
    } else if d == 8 {
        '8'
    } else {
        '9'
    }
}

/// Decimal notation of `n`, without leading zeros.
pub open spec fn decimal(n: nat) -> Seq<char>
    decreases n,
{
    if n < 10 {
        seq![digit_char(n)]
    } else {
        decimal(n / 10).push(digit_char(n % 10))
    }
}

/// Decimal notation of `n`, padded with a leading zero to two digits.
pub open spec fn pad2(n: nat) -> Seq<char> {
    if n < 10 {
        seq!['0'].add(decimal(n))
    } else {
        decimal(n)
    }
}

/// Appends the digit `d` (0..=9).
fn push_digit(s: &mut String, d: u64)
    requires
        d < 10,
    ensures
        final(s)@ == old(s)@.push(digit_char(d as nat)),
{
    let t: &str = if d == 0 {
        "0"
    } else if d == 1 {
        "1"
    } else if d == 2 {
        "2"
    } else if d == 3 {
        "3"
    } else if d == 4 {
        "4"
    } else if d == 5 {
        "5"
    } else if d == 6 {
        "6"
    } else if d == 7 {
        "7"
    } else if d == 8 {
        "8"
    } else {
        "9"
    };
    proof {
        reveal_strlit("0");
        reveal_strlit("1");
        reveal_strlit("2");
        reveal_strlit("3");
        reveal_strlit("4");
        reveal_strlit("5");
        reveal_strlit("6");
        reveal_strlit("7");
        reveal_strlit("8");
        reveal_strlit("9");
    }
    s.append(t);
    assert(s@ =~= old(s)@.push(digit_char(d as nat)));
}

/// Appends the decimal notation of `n`.
pub fn push_decimal(s: &mut String, n: u64)
    ensures
        final(s)@ == old(s)@ + decimal(n as nat),
    decreases n,
{
    if n >= 10 {
        push_decimal(s, n / 10);
    }
    push_digit(s, n % 10);
    assert(final(s)@ =~= old(s)@ + decimal(n as nat));
}

/// Appends `n` in decimal, padded to at least two digits.
pub fn push_pad2(s: &mut String, n: u32)
    ensures
        final(s)@ == old(s)@ + pad2(n as nat),
{
    if n < 10 {
        push_digit(s, 0);
    }
    push_decimal(s, n as u64);
    assert(final(s)@ =~= old(s)@ + pad2(n as nat));
}

/// "mm:ss" text of a duration in seconds: minutes and seconds each padded
/// to two digits (minutes may take more).
pub open spec fn clock_text(secs: nat) -> Seq<char> {
    pad2(secs / 60) + seq![':'] + pad2(secs % 60)
}

/// Formats a duration in seconds as "mm:ss".
pub fn format_clock(secs: u32) -> (t: String)
    ensures
        t@ == clock_text(secs as nat),
{
    let m = secs / 60;
    let sec = secs % 60;
    let mut out = String::new();
    push_pad2(&mut out, m);
    out.append(":");
    proof {
        reveal_strlit(":");
    }
    push_pad2(&mut out, sec);
    assert(out@ =~= clock_text(secs as nat));
    out
}

/// Decimal notation of `n`, padded with leading zeros to four digits.
pub open spec fn pad4(n: nat) -> Seq<char> {
    if n < 10 {
        seq!['0', '0', '0'] + decimal(n)
    } else if n < 100 {
        seq!['0', '0'] + decimal(n)
    } else if n < 1000 {
        seq!['0'] + decimal(n)
    } else {
        decimal(n)
    }
}

/// Appends `n` in decimal, padded to at least four digits.
pub fn push_pad4(s: &mut String, n: u32)
    ensures
        final(s)@ == old(s)@ + pad4(n as nat),
{
    if n < 1000 {
        push_digit(s, 0);
    }
    if n < 100 {
        push_digit(s, 0);
    }
    if n < 10 {
        push_digit(s, 0);
    }
    push_decimal(s, n as u64);
    assert(final(s)@ =~= old(s)@ + pad4(n as nat));
}

/// "YYYY-MM-DD HH:MM:SS" for a date given with a month counted from 0.
pub open spec fn date_time_text(year: nat, month0: nat, day: nat, hours: nat, minutes: nat, seconds: nat) -> Seq<char> {
    pad4(year) + seq!['-'] + pad2(month0 + 1) + seq!['-'] + pad2(day) + seq![' '] + pad2(hours) + seq![':'] + pad2(
        minutes,
    ) + seq![':'] + pad2(seconds)
}

/// Formats a date and time as "YYYY-MM-DD HH:MM:SS"; the month is given
/// counted from 0 (January is 0), as clocks report it.
pub fn format_date_time(year: u32, month0: u32, day: u32, hours: u32, minutes: u32, seconds: u32) -> (t: String)
    requires
        month0 < u32::MAX,
    ensures
        t@ == date_time_text(year as nat, month0 as nat, day as nat, hours as nat, minutes as nat, seconds as nat),
{
    let mut out = String::new();
    push_pad4(&mut out, year);
    out.append("-");
    push_pad2(&mut out, month0 + 1);
    out.append("-");
    push_pad2(&mut out, day);
    out.append(" ");
    push_pad2(&mut out, hours);
    out.append(":");
    push_pad2(&mut out, minutes);
    out.append(":");
    push_pad2(&mut out, seconds);
    proof {
        reveal_strlit("-");
        reveal_strlit(" ");
        reveal_strlit(":");
    }
    assert(out@ =~= date_time_text(year as nat, month0 as nat, day as nat, hours as nat, minutes as nat, seconds as nat));
    out
}

/// Decimal notation of an integer, with a leading '-' when it is negative.
pub open spec fn signed_decimal(n: int) -> Seq<char> {
    if n < 0 {
        seq!['-'] + decimal((-n) as nat)
    } else {
        decimal(n as nat)
    }
}

/// Appends `n` in decimal, with a leading '-' when it is negative.
pub fn push_signed(s: &mut String, n: i32)
    ensures
        final(s)@ == old(s)@ + signed_decimal(n as int),
{
    if n < 0 {
        s.append("-");
        proof {
            reveal_strlit("-");
        }
        let m: i64 = -(n as i64);
        push_decimal(s, m as u64);
    } else {
        push_decimal(s, n as u64);
    }
    assert(final(s)@ =~= old(s)@ + signed_decimal(n as int));
}

/// The texts of a list of names.
pub open spec fn names(v: Seq<&str>) -> Seq<Seq<char>> {
    v.map_values(|t: &str| t@)
}

/// A best time as "mm:ss", or "--:--" when there is none yet.
pub fn best_time_text(t: Option<u32>) -> (s: String)
    ensures
        s@ == match t {
            Some(x) => clock_text(x as nat),
            None => "--:--"@,
        },
{
    match t {
        Some(x) => format_clock(x),
        None => String::from_str("--:--"),
    }
}

/// The average time of `count` games taking `total` seconds in all, as
/// "mm:ss" (rounded down), or "--:--" when there were none.
pub fn average_time_text(total: u32, count: u32) -> (s: String)
    ensures
        s@ == if count > 0 {
            clock_text((total / count) as nat)
        } else {
            "--:--"@
        },
{
    if count > 0 {
        format_clock(total / count)
    } else {
        String::from_str("--:--")
    }
}

/// A best score in decimal, or "--" when there is none yet.
pub fn best_score_text(score: Option<i32>) -> (s: String)
    ensures
        s@ == match score {
            Some(x) => signed_decimal(x as int),
            None => "--"@,
        },
{
    match score {
        Some(x) => {
            let mut out = String::new();
            push_signed(&mut out, x);
            assert(out@ =~= signed_decimal(x as int));
            out
        },
        None => String::from_str("--"),
    }
}

} // verus!
