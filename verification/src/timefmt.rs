//! Rendering an epoch timestamp as a human-readable UTC date and time,
//! and decimal formatting of counters.

use vstd::prelude::*;
use crate::text::push_char;

verus! {

/// The decimal digit character for `d`.
pub open spec fn digit_char(d: nat) -> char
    recommends
        d < 10,
{
    ((48 + d) as u8) as char
}

/// The decimal digits of `n`, zero-padded on the left to at least `w`
/// places.
pub open spec fn dec_pad(n: nat, w: nat) -> Seq<char>
    decreases n + w,
{
    if n < 10 && w <= 1 {
        seq![digit_char(n)]
    } else {
        dec_pad(n / 10, (if w == 0 { 0nat } else { (w - 1) as nat })).push(digit_char(n % 10))
    }
}

/// Append the zero-padded decimal form of `n` to `out`.
pub fn push_dec(out: &mut String, n: u64, w: u64)
    ensures
        final(out)@ == old(out)@ + dec_pad(n as nat, w as nat),
    decreases n + w,
{
    if n < 10 && w <= 1 {
        push_char(out, (48 + (n as u8)) as char);
        proof {
            assert(final(out)@ =~= old(out)@ + dec_pad(n as nat, w as nat));
        }
    } else {
        push_dec(out, n / 10, if w == 0 { 0 } else { w - 1 });
        push_char(out, (48 + ((n % 10) as u8)) as char);
        proof {
            assert(final(out)@ =~= old(out)@ + dec_pad(n as nat, w as nat));
        }
    }
}

/// The decimal text of a count.
pub fn u64_to_dec(n: u64) -> (r: String)
    ensures
        r@ == dec_pad(n as nat, 1),
{
    let mut s = String::new();
    push_dec(&mut s, n, 1);
    proof {
        assert(Seq::<char>::empty() + dec_pad(n as nat, 1) =~= dec_pad(n as nat, 1));
    }
    s
}

/// The civil date of a day count since the epoch: year, month, day.
/// The computation follows the standard era decomposition.  The guarded
/// subtractions never take their fallback branch: `lemma_civil_date_inverse`
/// shows the result is a calendar date whose own day count is `days` again.
pub open spec fn spec_civil_date(days: u64) -> (int, int, int) {
    let z = days + 719468;
    let era = z / 146097;
    let doe = z % 146097;
    let a1 = doe - doe / 1460;
    let a2 = a1 + doe / 36524;
    let a3 = if a2 >= doe / 146096 {
        a2 - doe / 146096
    } else {
        0
    };
    let yoe = a3 / 365;
    let y = yoe + era * 400;
    let sub = 365 * yoe + yoe / 4 - yoe / 100;
    let doy = if doe >= sub {
        doe - sub
    } else {
        0
    };
    let mp = (5 * doy + 2) / 153;
    let t = (153 * mp + 2) / 5;
    let d = if doy >= t {
        doy - t + 1
    } else {
        1
    };
    let m = if mp < 10 {
        mp + 3
    } else {
        mp - 9
    };
    let y2 = if m <= 2 {
        y + 1
    } else {
        y
    };
    (y2, m, d)
}

/// The day count of a calendar date, counted from the epoch: the
/// standard era decomposition run forwards.
pub open spec fn days_from_civil(y: int, m: int, d: int) -> int {
    let y2 = if m <= 2 {
        y - 1
    } else {
        y
    };
    let era = y2 / 400;
    let yoe = y2 - era * 400;
    let mp = if m > 2 {
        m - 3
    } else {
        m + 9
    };
    let doy = (153 * mp + 2) / 5 + d - 1;
    let doe = yoe * 365 + yoe / 4 - yoe / 100 + doy;
    era * 146097 + doe - 719468
}

/// The civil date really is the inverse of the day count: the rendered
/// date is a calendar date, and counting its days again returns the
/// original day count.
pub proof fn lemma_civil_date_inverse(days: u64)
    ensures
        ({
            let (y, m, d) = spec_civil_date(days);
            &&& 1 <= m <= 12
            &&& 1 <= d <= 31
            &&& days_from_civil(y, m, d) == days
        }),
{
    let z = days + 719468;
    let era = z / 146097;
    let doe = z % 146097;
    assert(0 <= doe < 146097);
    assert(z == era * 146097 + doe) by (nonlinear_arith)
        requires
            era == z / 146097,
            doe == z % 146097,
            z >= 0,
    ;
    let a1 = doe - doe / 1460;
    let a2 = a1 + doe / 36524;
    assert(a2 >= doe / 146096) by (nonlinear_arith)
        requires
            0 <= doe < 146097,
            a1 == doe - doe / 1460,
            a2 == a1 + doe / 36524,
    ;
    let a3 = a2 - doe / 146096;
    let yoe = a3 / 365;
    assert(0 <= yoe <= 399 && 365 * yoe <= a3 <= doe) by (nonlinear_arith)
        requires
            0 <= doe < 146097,
            a3 == doe - doe / 1460 + doe / 36524 - doe / 146096,
            yoe == a3 / 365,
    ;
    let y = yoe + era * 400;
    let sub = 365 * yoe + yoe / 4 - yoe / 100;
    assert(doe >= sub) by (nonlinear_arith)
        requires
            0 <= doe < 146097,
            a3 == doe - doe / 1460 + doe / 36524 - doe / 146096,
            yoe == a3 / 365,
            sub == 365 * yoe + yoe / 4 - yoe / 100,
    ;
    let doy = doe - sub;
    assert(0 <= doy <= 365) by (nonlinear_arith)
        requires
            0 <= doe < 146097,
            a3 == doe - doe / 1460 + doe / 36524 - doe / 146096,
            yoe == a3 / 365,
            doy == doe - (365 * yoe + yoe / 4 - yoe / 100),
    ;
    let mp = (5 * doy + 2) / 153;
    let t = (153 * mp + 2) / 5;
    assert(0 <= mp <= 11 && t <= doy && doy - t <= 30) by (nonlinear_arith)
        requires
            0 <= doy <= 365,
            mp == (5 * doy + 2) / 153,
            t == (153 * mp + 2) / 5,
    ;
    let d = doy - t + 1;
    let m = if mp < 10 {
        mp + 3
    } else {
        mp - 9
    };
    let y2 = if m <= 2 {
        y + 1
    } else {
        y
    };
    assert(spec_civil_date(days) == (y2, m, d));
    assert(1 <= m <= 12);
    assert(1 <= d <= 31);
    // Running the decomposition forwards undoes each step.
    let back_y = if m <= 2 {
        y2 - 1
    } else {
        y2
    };
    assert(back_y == y);
    let back_era = back_y / 400;
    vstd::arithmetic::div_mod::lemma_fundamental_div_mod_converse(back_y, 400, era, yoe);
    assert(back_era == era);
    assert(back_y - back_era * 400 == yoe);
    let back_mp = if m > 2 {
        m - 3
    } else {
        m + 9
    };
    assert(back_mp == mp);
    assert(days_from_civil(y2, m, d) == days);
}

/// The rendered timestamp: date, time of day, and the UTC marker.
pub open spec fn spec_format_timestamp(secs: u64) -> Seq<char> {
    let days = secs / 86400;
    let time = secs % 86400;
    let (y, m, d) = spec_civil_date(days);
    dec_pad(y as nat, 4) + "-"@ + dec_pad(m as nat, 2) + "-"@ + dec_pad(d as nat, 2) + " "@
        + dec_pad((time / 3600) as nat, 2) + ":"@ + dec_pad(((time % 3600) / 60) as nat, 2) + ":"@
        + dec_pad((time % 60) as nat, 2) + " UTC"@
}

/// Render an epoch timestamp as `YYYY-MM-DD HH:MM:SS UTC`.
pub fn format_timestamp(epoch_secs: u64) -> (r: String)
    ensures
        r@ == spec_format_timestamp(epoch_secs),
{
    let secs = epoch_secs;
    let days = secs / 86400;
    let time = secs % 86400;
    let hours = time / 3600;
    let minutes = (time % 3600) / 60;
    let seconds = time % 60;

    let z = days + 719468;
    let era = z / 146097;
    let doe = z % 146097;
    let a1 = doe - doe / 1460;
    let a2 = a1 + doe / 36524;
    let a3 = if a2 >= doe / 146096 {
        a2 - doe / 146096
    } else {
        0
    };
    let yoe = a3 / 365;
    let y = yoe + era * 400;
    let sub = 365 * yoe + yoe / 4 - yoe / 100;
    let doy = if doe >= sub {
        doe - sub
    } else {
        0
    };
    let mp = (5 * doy + 2) / 153;
    let t = (153 * mp + 2) / 5;
    let d = if doy >= t {
        doy - t + 1
    } else {
        1
    };
    let m = if mp < 10 {
        mp + 3
    } else {
        mp - 9
    };
    let y2 = if m <= 2 {
        y + 1
    } else {
        y
    };

    let mut out = String::new();
    push_dec(&mut out, y2, 4);
    push_char(&mut out, '-');
    push_dec(&mut out, m, 2);
    push_char(&mut out, '-');
    push_dec(&mut out, d, 2);
    push_char(&mut out, ' ');
    push_dec(&mut out, hours, 2);
    push_char(&mut out, ':');
    push_dec(&mut out, minutes, 2);
    push_char(&mut out, ':');
    push_dec(&mut out, seconds, 2);
    push_char(&mut out, ' ');
    push_char(&mut out, 'U');
    push_char(&mut out, 'T');
    push_char(&mut out, 'C');
    proof {
        reveal_strlit("-");
        reveal_strlit(" ");
        reveal_strlit(":");
        reveal_strlit(" UTC");
        assert(out@ =~= spec_format_timestamp(epoch_secs));
    }
    out
}

} // verus!
