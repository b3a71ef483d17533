//! Human-readable rendering of file sizes and timestamps, built on a
//! verified decimal formatter.

use vstd::prelude::*;
use vstd::string::StringExecFns;

verus! {

/// Bytes per kilobyte.
pub const KB: u64 = 1024;

/// Bytes per megabyte.
pub const MB: u64 = 1048576;

/// Bytes per gigabyte.
pub const GB: u64 = 1073741824;

/// The decimal digit character for `d`.
pub open spec fn digit_char(d: int) -> char
    recommends
        0 <= d < 10,
{
    if d == 0 {
        '0'
    } else if d == 1 {
        '1'
    } else if d == 2 {
        '2'
    } else if d == 3 {
        '3'
    } else if d == 4 {
        '4'
    } else if d == 5 {
        '5'
    } else if d == 6 {
        '6'
    } else if d == 7 {
        '7'
    } else if d == 8 {
        '8'
    } else {
        '9'
    }
}

/// The decimal rendering of `n`, most significant digit first, without
/// leading zeros (except for `n == 0`).
pub open spec fn dec_str(n: nat) -> Seq<char>
    decreases n,
{
    if n < 10 {
        seq![digit_char(n as int)]
    } else {
        dec_str(n / 10).push(digit_char((n % 10) as int))
    }
}

/// The decimal rendering of `n` padded with a leading zero to two digits.
pub open spec fn pad2(n: nat) -> Seq<char>
    recommends
        n < 100,
{
    if n < 10 {
        seq!['0', digit_char(n as int)]
    } else {
        dec_str(n)
    }
}

/// One decimal digit as a string slice.
fn digit_str(d: u64) -> (r: &'static str)
    requires
        d < 10,
    ensures
        r@ == seq![digit_char(d as int)],
{
    proof {
        reveal_strlit("0");
        reveal_strlit("1");
        reveal_strlit("2");
        reveal_strlit("3");
        reveal_strlit("4");
        reveal_strlit("5");
        reveal_strlit("6");
        reveal_strlit("7");
        reveal_strlit("8");
        reveal_strlit("9");
    }
    let r = match d {
        0 => "0",
        1 => "1",
        2 => "2",
        3 => "3",
        4 => "4",
        5 => "5",
        6 => "6",
        7 => "7",
        8 => "8",
        _ => "9",
    };
    proof {
        assert(r@ =~= seq![digit_char(d as int)]);
    }
    r
}

/// Renders `n` in decimal.
pub fn u64_to_dec(n: u64) -> (r: String)
    ensures
        r@ == dec_str(n as nat),
    decreases n,
{
    if n < 10 {
        String::from_str(digit_str(n))
    } else {
        let mut s = u64_to_dec(n / 10);
        s.append(digit_str(n % 10));
        proof {
            assert(dec_str((n / 10) as nat) + seq![digit_char((n % 10) as int)] =~= dec_str(
                n as nat,
            ));
        }
        s
    }
}

/// Renders `n` in decimal, zero-padded to two digits.
fn u64_to_dec_pad2(n: u64) -> (r: String)
    requires
        n < 100,
    ensures
        r@ == pad2(n as nat),
{
    if n < 10 {
        let mut s = String::from_str("0");
        s.append(digit_str(n));
        proof {
            reveal_strlit("0");
            assert("0"@ + seq![digit_char(n as int)] =~= pad2(n as nat));
        }
        s
    } else {
        u64_to_dec(n)
    }
}

/// Hundredths of `bytes / unit`, rounded to the nearest (half up).
pub open spec fn hundredths(bytes: nat, unit: nat) -> nat
    recommends
        unit >= 2,
{
    (100 * bytes + unit / 2) / unit
}

/// The numeric part of a scaled size: the rounded ratio with exactly two
/// decimal places.
pub open spec fn scaled_part(bytes: nat, unit: nat) -> Seq<char>
    recommends
        unit >= 2,
{
    let h = hundredths(bytes, unit);
    dec_str(h / 100) + seq!['.'] + pad2(h % 100)
}

/// Computes [`hundredths`] without overflow.
fn hundredths_u64(bytes: u64, unit: u64) -> (h: u64)
    requires
        1024 <= unit <= 0x4000_0000,
    ensures
        h == hundredths(bytes as nat, unit as nat),
{
    let wide: u128 = (bytes as u128) * 100 + (unit as u128) / 2;
    let q: u128 = wide / (unit as u128);
    proof {
        let big: int = 0xffff_ffff_ffff_ffffint * 100 + 0x2000_0000;
        vstd::arithmetic::div_mod::lemma_div_is_ordered(wide as int, big, unit as int);
        vstd::arithmetic::div_mod::lemma_div_is_ordered_by_denominator(big, 1024, unit as int);
        assert(big / 1024 < 0x1_0000_0000_0000_0000);
    }
    q as u64
}

/// A size rendered for people: two rounded decimals of the largest binary
/// unit the size reaches (GB, MB, KB), or the exact byte count below 1 KB.
pub open spec fn format_file_size_spec(bytes: nat) -> Seq<char> {
    if bytes >= GB {
        scaled_part(bytes, GB as nat) + seq![' ', 'G', 'B']
    } else if bytes >= MB {
        scaled_part(bytes, MB as nat) + seq![' ', 'M', 'B']
    } else if bytes >= KB {
        scaled_part(bytes, KB as nat) + seq![' ', 'K', 'B']
    } else {
        dec_str(bytes) + seq![' ', 'B']
    }
}

/// Renders the numeric part of a scaled size.
fn scaled_string(bytes: u64, unit: u64) -> (r: String)
    requires
        1024 <= unit <= 0x4000_0000,
    ensures
        r@ == scaled_part(bytes as nat, unit as nat),
{
    let h = hundredths_u64(bytes, unit);
    let mut s = u64_to_dec(h / 100);
    s.append(".");
    let frac = u64_to_dec_pad2(h % 100);
    s.append(frac.as_str());
    proof {
        reveal_strlit(".");
        assert(dec_str((h / 100) as nat) + "."@ + pad2((h % 100) as nat) =~= scaled_part(
            bytes as nat,
            unit as nat,
        ));
    }
    s
}

/// Formats a byte count for display: `"1.50 KB"`, `"2.00 GB"`, `"512 B"`.
pub fn format_file_size(bytes: u64) -> (r: String)
    ensures
        r@ == format_file_size_spec(bytes as nat),
{
    proof {
        reveal_strlit(" GB");
        reveal_strlit(" MB");
        reveal_strlit(" KB");
        reveal_strlit(" B");
    }
    if bytes >= GB {
        let mut s = scaled_string(bytes, GB);
        s.append(" GB");
        proof {
            assert(scaled_part(bytes as nat, GB as nat) + " GB"@ =~= format_file_size_spec(
                bytes as nat,
            ));
        }
        s
    } else if bytes >= MB {
        let mut s = scaled_string(bytes, MB);
        s.append(" MB");
        proof {
            assert(scaled_part(bytes as nat, MB as nat) + " MB"@ =~= format_file_size_spec(
                bytes as nat,
            ));
        }
        s
    } else if bytes >= KB {
        let mut s = scaled_string(bytes, KB);
        s.append(" KB");
        proof {
            assert(scaled_part(bytes as nat, KB as nat) + " KB"@ =~= format_file_size_spec(
                bytes as nat,
            ));
        }
        s
    } else {
        let mut s = u64_to_dec(bytes);
        s.append(" B");
        proof {
            assert(dec_str(bytes as nat) + " B"@ =~= format_file_size_spec(bytes as nat));
        }
        s
    }
}

/// A timestamp rendered as whole days plus a zero-padded clock reading;
/// non-positive timestamps are unknown.
pub open spec fn format_timestamp_spec(ts: int) -> Seq<char> {
    if ts <= 0 {
        seq!['U', 'n', 'k', 'n', 'o', 'w', 'n']
    } else {
        let days = ts / 86400;
        let rem = ts % 86400;
        dec_str(days as nat) + seq![' ', 'd', 'a', 'y', 's', ',', ' '] + pad2((rem / 3600) as nat)
            + seq![':'] + pad2(((rem % 3600) / 60) as nat) + seq![':'] + pad2(
            ((rem % 3600) % 60) as nat,
        )
    }
}

/// Formats a Unix timestamp as `"D days, HH:MM:SS"`, or `"Unknown"` when it
/// is not positive.
pub fn format_timestamp(ts: i64) -> (r: String)
    ensures
        r@ == format_timestamp_spec(ts as int),
{
    if ts <= 0 {
        let s = String::from_str("Unknown");
        proof {
            reveal_strlit("Unknown");
            assert("Unknown"@ =~= format_timestamp_spec(ts as int));
        }
        return s;
    }
    let total_days: i64 = ts / 86400;
    let remaining_after_days: i64 = ts % 86400;
    let hours: i64 = remaining_after_days / 3600;
    let remaining_after_hours: i64 = remaining_after_days % 3600;
    let minutes: i64 = remaining_after_hours / 60;
    let seconds: i64 = remaining_after_hours % 60;
    let mut s = u64_to_dec(total_days as u64);
    s.append(" days, ");
    let hh = u64_to_dec_pad2(hours as u64);
    s.append(hh.as_str());
    s.append(":");
    let mm = u64_to_dec_pad2(minutes as u64);
    s.append(mm.as_str());
    s.append(":");
    let ss = u64_to_dec_pad2(seconds as u64);
    s.append(ss.as_str());
    proof {
        reveal_strlit(" days, ");
        reveal_strlit(":");
        assert(dec_str(total_days as nat) + " days, "@ + pad2(hours as nat) + ":"@ + pad2(
            minutes as nat,
        ) + ":"@ + pad2(seconds as nat) =~= format_timestamp_spec(ts as int));
    }
    s
}

} // verus!
