use vstd::prelude::*;
use crate::text::{ascii_chars, ascii_to_string, all_ascii};

verus! {

/// A civil UTC time at second precision, kept as plain fields. The outside
/// world supplies the current time; the library only formats, parses and
/// compares it.
#[derive(Debug, Clone, Copy, PartialEq, Eq, Structural)]
pub struct Timestamp {
    pub year: u32,
    pub month: u8,
    pub day: u8,
    pub hour: u8,
    pub minute: u8,
    pub second: u8,
}

/// A calendar date, used for the in-memory last-used marker of builds.
#[derive(Debug, Clone, Copy, PartialEq, Eq, Structural)]
pub struct Date {
    pub year: u32,
    pub month: u8,
    pub day: u8,
}

impl Timestamp {
    /// Field ranges that make the timestamp printable as RFC 3339.
    pub open spec fn wf(self) -> bool {
        &&& self.year <= 9999
        &&& 1 <= self.month <= 12
        &&& 1 <= self.day <= 31
        &&& self.hour <= 23
        &&& self.minute <= 59
        &&& self.second <= 59
    }

    /// The calendar date of this timestamp.
    pub open spec fn date_spec(self) -> Date {
        Date { year: self.year, month: self.month, day: self.day }
    }

    /// The calendar date of this timestamp.
    pub fn date(self) -> (r: Date)
        ensures
            r == self.date_spec(),
    {
        Date { year: self.year, month: self.month, day: self.day }
    }
}

/// Two decimal digit bytes, zero padded.
pub open spec fn two_digit_bytes(n: int) -> Seq<u8> {
    seq![(48 + n / 10) as u8, (48 + n % 10) as u8]
}

/// Four decimal digit bytes, zero padded.
pub open spec fn four_digit_bytes(n: int) -> Seq<u8> {
    seq![
        (48 + n / 1000) as u8,
        (48 + (n / 100) % 10) as u8,
        (48 + (n / 10) % 10) as u8,
        (48 + n % 10) as u8,
    ]
}

/// The 20 bytes of the RFC 3339 spelling `YYYY-MM-DDThh:mm:ssZ`.
pub open spec fn rfc3339_bytes(t: Timestamp) -> Seq<u8> {
    four_digit_bytes(t.year as int) + seq![45u8] + two_digit_bytes(t.month as int) + seq![45u8]
        + two_digit_bytes(t.day as int) + seq![84u8] + two_digit_bytes(t.hour as int) + seq![58u8]
        + two_digit_bytes(t.minute as int) + seq![58u8] + two_digit_bytes(t.second as int) + seq![
        90u8,
    ]
}

pub proof fn lemma_rfc3339_ascii(t: Timestamp)
    requires
        t.wf(),
    ensures
        all_ascii(rfc3339_bytes(t)),
        rfc3339_bytes(t).len() == 20,
{
}

/// Append the RFC 3339 bytes of `t` to `out`.
#[verifier::rlimit(100)]
pub fn push_rfc3339(out: &mut Vec<u8>, t: Timestamp)
    requires
        t.wf(),
    ensures
        final(out)@ == old(out)@ + rfc3339_bytes(t),
{
    let y = t.year;
    out.push(48 + (y / 1000) as u8);
    out.push(48 + ((y / 100) % 10) as u8);
    out.push(48 + ((y / 10) % 10) as u8);
    out.push(48 + (y % 10) as u8);
    out.push(45);
    out.push(48 + t.month / 10);
    out.push(48 + t.month % 10);
    out.push(45);
    out.push(48 + t.day / 10);
    out.push(48 + t.day % 10);
    out.push(84);
    out.push(48 + t.hour / 10);
    out.push(48 + t.hour % 10);
    out.push(58);
    out.push(48 + t.minute / 10);
    out.push(48 + t.minute % 10);
    out.push(58);
    out.push(48 + t.second / 10);
    out.push(48 + t.second % 10);
    out.push(90);
    proof {
        assert(out@ =~= old(out)@ + rfc3339_bytes(t));
    }
}

/// Format `t` as RFC 3339, seconds precision, UTC.
pub fn format_rfc3339(t: Timestamp) -> (r: String)
    requires
        t.wf(),
    ensures
        r@ == ascii_chars(rfc3339_bytes(t)),
{
    let mut out: Vec<u8> = Vec::new();
    push_rfc3339(&mut out, t);
    proof {
        lemma_rfc3339_ascii(t);
        assert(out@ =~= rfc3339_bytes(t));
    }
    ascii_to_string(&out)
}

} // verus!
