//! Version strings and command-line checks of the server.
use vstd::prelude::*;
use vstd::string::StringExecFns;

verus! {

/// The server's version: major in the top byte, minor in the next, patch in
/// the low half.
pub const TEMPORAL_LENS_VERSION: u32 = 0x0001_0000;

/// The version of the HTTP protocol the server speaks, laid out the same way.
pub const REST_PROTCOL_VERSION: u32 = 0x0001_0000;

/// The decimal digit `d`.
pub open spec fn digit_char(d: nat) -> char {
    if d == 0 {
        '0'
    } else if d == 1 {
        '1'
    } else if d == 2 {
        '2'
    } else if d == 3 {
        '3'
    } else if d == 4 {
        '4'
    } else if d == 5 {
        '5'
    } else if d == 6 {
        '6'
    } else if d == 7 {
        '7'
    } else if d == 8 {
        '8'
    } else {
        '9'
    }
}

/// `n` in decimal, without leading zeros.
pub open spec fn decimal(n: nat) -> Seq<char>
    decreases n,
{
    if n < 10 {
        seq![digit_char(n)]
    } else {
        decimal(n / 10) + seq![digit_char(n % 10)]
    }
}

/// The value of the decimal digits `ds`.
pub open spec fn digits_value(ds: Seq<char>) -> int
    decreases ds.len(),
{
    if ds.len() == 0 {
        0
    } else {
        digits_value(ds.drop_last()) * 10 + (ds.last() as int - '0' as int)
    }
}

/// What `str::parse::<u16>` accepts: an optional `+`, then one or more
/// decimal digits whose value fits in a `u16`.
pub open spec fn parsed_u16(s: Seq<char>) -> Option<u16> {
    let ds = if s.len() > 0 && s[0] == '+' {
        s.drop_first()
    } else {
        s
    };
    if ds.len() > 0 && (forall|i: int| 0 <= i < ds.len() ==> '0' <= #[trigger] ds[i] <= '9')
        && digits_value(ds) <= u16::MAX {
        Some(digits_value(ds) as u16)
    } else {
        None
    }
}

/// Relies on `u32`'s `Display` through `ToString`: `n` in decimal.
#[verifier::external_body]
fn decimal_string(n: u32) -> (r: String)
    ensures
        r@ == decimal(n as nat),
{
    n.to_string()
}

/// Relies on `str::parse::<u16>`: the number that `s` spells, if it spells one.
#[verifier::external_body]
fn parse_u16(s: &str) -> (r: Option<u16>)
    ensures
        r == parsed_u16(s@),
{
    s.parse::<u16>().ok()
}

/// The major, minor and patch numbers of a packed version.
pub open spec fn version_parts(version: u32) -> (u32, u32, u32) {
    (
        (version & 0xFF00_0000u32) >> 24u32,
        (version & 0x00FF_0000u32) >> 16u32,
        version & 0x0000_FFFFu32,
    )
}

/// `major.minor.patch` of a packed version.
pub fn version_string(version: u32) -> (r: String)
    ensures
        r@ == decimal(version_parts(version).0 as nat) + seq!['.'] + decimal(
            version_parts(version).1 as nat,
        ) + seq!['.'] + decimal(version_parts(version).2 as nat),
{
    let major = (version & 0xFF00_0000u32) >> 24u32;
    let minor = (version & 0x00FF_0000u32) >> 16u32;
    let patch = version & 0x0000_FFFFu32;
    proof {
        reveal_strlit(".");
    }
    let r = decimal_string(major).concat(".");
    let r = r.concat(decimal_string(minor).as_str());
    let r = r.concat(".");
    r.concat(decimal_string(patch).as_str())
}

/// Accepts a port number: `Ok` exactly when `s` spells a `u16`.
pub fn port_validator(s: String) -> (r: Result<(), String>)
    ensures
        r is Ok <==> parsed_u16(s@) is Some,
        match r {
            Err(e) => e@ == "Not a valid port number"@,
            Ok(_) => true,
        },
{
    match parse_u16(s.as_str()) {
        Some(_) => Ok(()),
        None => Err(String::from_str("Not a valid port number")),
    }
}

} // verus!
