use vstd::prelude::*;
use crate::errors::Error;
use vstd::string::StringSliceAdditionalSpecFns;
use crate::sut::{ModuleRevision, Revision, hash_hex_bytes, hex_digit, hex_val};
use crate::text::{ascii_chars, ascii_to_string, all_ascii, dec_bytes, lemma_dec_bytes_chars};
use crate::timefmt::Timestamp;

verus! {

/// What one build log entry records.
#[derive(Debug, Clone)]
pub enum BuildLogContents {
    Create { rev: Revision },
    Complete { success: bool },
    Use,
    ClearFail,
}

/// One line of the build log.
#[derive(Debug, Clone)]
pub struct BuildLogEntry {
    pub id: u64,
    pub time: Timestamp,
    pub contents: BuildLogContents,
}

impl BuildLogEntry {
    /// The entry can be written: the time is printable and a recorded
    /// revision is a plain hash without submodule overrides (the only form
    /// this system ever produces).
    pub open spec fn wf(self) -> bool {
        &&& self.time.wf()
        &&& match self.contents {
            BuildLogContents::Create { rev } => rev.wf() && rev.submodule_overrides@.len() == 0,
            _ => true,
        }
    }
}

/// The JSON bytes of a revision without overrides: `{"top":"git-<hex>"}`.
pub open spec fn rev_json_bytes(rev: Revision) -> Seq<u8> {
    seq![123u8, 34u8, 116u8, 111u8, 112u8, 34u8, 58u8, 34u8, 103u8, 105u8, 116u8, 45u8]
        + hash_hex_bytes(rev.top.spec_hash()) + seq![34u8, 125u8]
}

/// The bytes of the tag and variant payload, from the tag's first letter up
/// to (not including) the final closing brace.
pub open spec fn contents_json_bytes(c: BuildLogContents) -> Seq<u8> {
    match c {
        BuildLogContents::Create { rev } => seq![
            67u8, 114u8, 101u8, 97u8, 116u8, 101u8, 34u8, 44u8, 34u8, 114u8, 101u8, 118u8, 34u8,
            58u8,
        ] + rev_json_bytes(rev),
        BuildLogContents::Complete { success } => seq![
            67u8, 111u8, 109u8, 112u8, 108u8, 101u8, 116u8, 101u8, 34u8, 44u8, 34u8, 115u8, 117u8,
            99u8, 99u8, 101u8, 115u8, 115u8, 34u8, 58u8,
        ] + (if success {
            seq![116u8, 114u8, 117u8, 101u8]
        } else {
            seq![102u8, 97u8, 108u8, 115u8, 101u8]
        }),
        BuildLogContents::Use => seq![85u8, 115u8, 101u8, 34u8],
        BuildLogContents::ClearFail => seq![
            67u8, 108u8, 101u8, 97u8, 114u8, 70u8, 97u8, 105u8, 108u8, 34u8,
        ],
    }
}

/// The canonical JSON line of a log entry (without the trailing newline):
/// `{"id":<id>,"time":"<rfc3339>","type":"<tag>"...}`. The `Use` and
/// `ClearFail` payloads end right after the tag's closing quote; `Create`
/// and `Complete` continue with one more field.
pub open spec fn entry_json_bytes(e: BuildLogEntry) -> Seq<u8> {
    seq![123u8, 34u8, 105u8, 100u8, 34u8, 58u8] + dec_bytes(e.id as int) + seq![
        44u8, 34u8, 116u8, 105u8, 109u8, 101u8, 34u8, 58u8, 34u8,
    ] + crate::timefmt::rfc3339_bytes(e.time) + seq![
        34u8, 44u8, 34u8, 116u8, 121u8, 112u8, 101u8, 34u8, 58u8, 34u8,
    ] + contents_json_bytes(e.contents) + seq![125u8]
}

/// Append `{"id":<id>,"time":"<rfc>","type":"`.
#[verifier::rlimit(100)]
fn push_entry_head(out: &mut Vec<u8>, id: u64, time: Timestamp)
    requires
        time.wf(),
    ensures
        final(out)@ == old(out)@ + seq![123u8, 34u8, 105u8, 100u8, 34u8, 58u8] + dec_bytes(
            id as int,
        ) + seq![44u8, 34u8, 116u8, 105u8, 109u8, 101u8, 34u8, 58u8, 34u8]
            + crate::timefmt::rfc3339_bytes(time) + seq![
            34u8, 44u8, 34u8, 116u8, 121u8, 112u8, 101u8, 34u8, 58u8, 34u8,
        ],
{
    let ghost pre = old(out)@;
    out.push(123);
    out.push(34);
    out.push(105);
    out.push(100);
    out.push(34);
    out.push(58);
    proof {
        assert(out@ =~= pre + seq![123u8, 34u8, 105u8, 100u8, 34u8, 58u8]);
    }
    crate::text::push_dec_u64(out, id);
    out.push(44);
    out.push(34);
    out.push(116);
    out.push(105);
    out.push(109);
    out.push(101);
    out.push(34);
    out.push(58);
    out.push(34);
    proof {
        assert(out@ =~= pre + seq![123u8, 34u8, 105u8, 100u8, 34u8, 58u8] + dec_bytes(id as int)
            + seq![44u8, 34u8, 116u8, 105u8, 109u8, 101u8, 34u8, 58u8, 34u8]);
    }
    crate::timefmt::push_rfc3339(out, time);
    out.push(34);
    out.push(44);
    out.push(34);
    out.push(116);
    out.push(121);
    out.push(112);
    out.push(101);
    out.push(34);
    out.push(58);
    out.push(34);
    proof {
        assert(out@ =~= pre + seq![123u8, 34u8, 105u8, 100u8, 34u8, 58u8] + dec_bytes(id as int)
            + seq![44u8, 34u8, 116u8, 105u8, 109u8, 101u8, 34u8, 58u8, 34u8]
            + crate::timefmt::rfc3339_bytes(time) + seq![
            34u8, 44u8, 34u8, 116u8, 121u8, 112u8, 101u8, 34u8, 58u8, 34u8,
        ]);
    }
}

/// Append `{"top":"git-<hex>"}`.
#[verifier::rlimit(100)]
fn push_rev_json(out: &mut Vec<u8>, rev: &Revision)
    requires
        rev.wf(),
    ensures
        final(out)@ == old(out)@ + rev_json_bytes(*rev),
{
    let ghost pre = old(out)@;
    out.push(123);
    out.push(34);
    out.push(116);
    out.push(111);
    out.push(112);
    out.push(34);
    out.push(58);
    out.push(34);
    out.push(103);
    out.push(105);
    out.push(116);
    out.push(45);
    proof {
        assert(out@ =~= pre + seq![
            123u8, 34u8, 116u8, 111u8, 112u8, 34u8, 58u8, 34u8, 103u8, 105u8, 116u8, 45u8,
        ]);
    }
    push_hash_hex(out, rev.top.hash_bytes());
    out.push(34);
    out.push(125);
    proof {
        assert(out@ =~= pre + rev_json_bytes(*rev));
    }
}

/// Append the tag and variant payload.
#[verifier::rlimit(100)]
fn push_contents(out: &mut Vec<u8>, c: &BuildLogContents)
    requires
        match c {
            BuildLogContents::Create { rev } => rev.wf(),
            _ => true,
        },
    ensures
        final(out)@ == old(out)@ + contents_json_bytes(*c),
{
    let ghost pre = old(out)@;
    match c {
        BuildLogContents::Create { rev } => {
            out.push(67);
            out.push(114);
            out.push(101);
            out.push(97);
            out.push(116);
            out.push(101);
            out.push(34);
            out.push(44);
            out.push(34);
            out.push(114);
            out.push(101);
            out.push(118);
            out.push(34);
            out.push(58);
            proof {
                assert(out@ =~= pre + seq![
                    67u8, 114u8, 101u8, 97u8, 116u8, 101u8, 34u8, 44u8, 34u8, 114u8, 101u8, 118u8,
                    34u8, 58u8,
                ]);
            }
            push_rev_json(out, rev);
            proof {
                assert(out@ =~= pre + contents_json_bytes(*c));
            }
        },
        BuildLogContents::Complete { success } => {
            out.push(67);
            out.push(111);
            out.push(109);
            out.push(112);
            out.push(108);
            out.push(101);
            out.push(116);
            out.push(101);
            out.push(34);
            out.push(44);
            out.push(34);
            out.push(115);
            out.push(117);
            out.push(99);
            out.push(99);
            out.push(101);
            out.push(115);
            out.push(115);
            out.push(34);
            out.push(58);
            if *success {
                out.push(116);
                out.push(114);
                out.push(117);
                out.push(101);
            } else {
                out.push(102);
                out.push(97);
                out.push(108);
                out.push(115);
                out.push(101);
            }
            proof {
                assert(out@ =~= pre + contents_json_bytes(*c));
            }
        },
        BuildLogContents::Use => {
            out.push(85);
            out.push(115);
            out.push(101);
            out.push(34);
            proof {
                assert(out@ =~= pre + contents_json_bytes(*c));
            }
        },
        BuildLogContents::ClearFail => {
            out.push(67);
            out.push(108);
            out.push(101);
            out.push(97);
            out.push(114);
            out.push(70);
            out.push(97);
            out.push(105);
            out.push(108);
            out.push(34);
            proof {
                assert(out@ =~= pre + contents_json_bytes(*c));
            }
        },
    }
}

/// Serialize a log entry to its canonical JSON line (no newline).
pub fn serialize_entry(e: &BuildLogEntry) -> (r: String)
    requires
        e.wf(),
    ensures
        r@ == ascii_chars(entry_json_bytes(*e)),
        forall|i: int| 0 <= i < r@.len() ==> (#[trigger] r@[i]) != '\n',
{
    let mut out: Vec<u8> = Vec::new();
    push_entry_head(&mut out, e.id, e.time);
    push_contents(&mut out, &e.contents);
    out.push(125);
    proof {
        assert(out@ =~= entry_json_bytes(*e));
        lemma_entry_json_ascii(*e);
    }
    let r = ascii_to_string(&out);
    proof {
        assert forall|i: int| 0 <= i < r@.len() implies (#[trigger] r@[i]) != '\n' by {
            assert(r@[i] == out@[i] as char);
            assert(out@[i] != 10);
        }
    }
    r
}

/// Append the 40 hex digits of a 20-byte hash.
fn push_hash_hex(out: &mut Vec<u8>, h: &Vec<u8>)
    requires
        h@.len() == 20,
    ensures
        final(out)@ == old(out)@ + hash_hex_bytes(h@),
{
    let ghost pre = old(out)@;
    let mut i: usize = 0;
    proof {
        assert(out@ =~= pre + hash_hex_bytes(h@).take(0));
    }
    while i < 20
        invariant
            h@.len() == 20,
            0 <= i <= 20,
            out@ == pre + hash_hex_bytes(h@).take(2 * i),
        decreases 20 - i,
    {
        let b = h[i];
        let hi = b / 16;
        let lo = b % 16;
        out.push(
            if hi < 10 {
                48 + hi
            } else {
                87 + hi
            },
        );
        out.push(
            if lo < 10 {
                48 + lo
            } else {
                87 + lo
            },
        );
        proof {
            assert(out@ =~= pre + hash_hex_bytes(h@).take(2 * (i + 1)));
        }
        i = i + 1;
    }
    proof {
        assert(hash_hex_bytes(h@).take(40) =~= hash_hex_bytes(h@));
    }
}

/// The canonical line is ASCII and contains no newline byte.
#[verifier::rlimit(100)]
pub proof fn lemma_entry_json_ascii(e: BuildLogEntry)
    requires
        e.wf(),
    ensures
        all_ascii(entry_json_bytes(e)),
        forall|i: int|
            0 <= i < entry_json_bytes(e).len() ==> (#[trigger] entry_json_bytes(e)[i]) != 10,
{
    lemma_dec_bytes_chars(e.id as int);
    crate::timefmt::lemma_rfc3339_ascii(e.time);
    assert forall|i: int|
        0 <= i < entry_json_bytes(e).len() implies (#[trigger] entry_json_bytes(e)[i]) < 0x80
        && entry_json_bytes(e)[i] != 10 by {
        let b = entry_json_bytes(e);
        let d = dec_bytes(e.id as int);
        let t = crate::timefmt::rfc3339_bytes(e.time);
        let c = contents_json_bytes(e.contents);
        assert(forall|j: int| 0 <= j < d.len() ==> 48 <= #[trigger] d[j] <= 57);
        assert(forall|j: int| 0 <= j < t.len() ==> 44 <= #[trigger] t[j] <= 90);
        assert(forall|j: int| 0 <= j < c.len() ==> 33 <= #[trigger] c[j] < 0x80) by {
            match e.contents {
                BuildLogContents::Create { rev } => {
                    assert(forall|j: int|
                        0 <= j < hash_hex_bytes(rev.top.spec_hash()).len() ==> 48 <= #[trigger] hash_hex_bytes(
                            rev.top.spec_hash(),
                        )[j] <= 102);
                },
                _ => {},
            }
        }
    }
}


/// Read one byte, if in bounds.
fn byte_at(b: &[u8], i: usize) -> (r: Option<u8>)
    ensures
        match r {
            Some(v) => i < b@.len() && v == b@[i as int],
            None => i >= b@.len(),
        },
{
    if i < b.len() {
        Some(b[i])
    } else {
        None
    }
}

/// Match `pat`'s bytes at position `pos` of `b`: succeeds exactly when
/// they are there, returning the position after them.
fn match_at(b: &[u8], pos: usize, pat: &str) -> (r: Option<usize>)
    ensures
        match r {
            Some(p) => p == pos + pat.spec_bytes().len() && p <= b@.len() && b@.subrange(
                pos as int,
                p as int,
            ) == pat.spec_bytes(),
            None => pos + pat.spec_bytes().len() > b@.len() || b@.subrange(
                pos as int,
                pos + pat.spec_bytes().len(),
            ) != pat.spec_bytes(),
        },
{
    let pb = pat.as_bytes();
    let n = pb.len();
    if pos >= b.len() || n > b.len() - pos {
        proof {
            if pos + n <= b@.len() {
                assert(pos < b@.len() || n == 0);
                if n == 0 && pos >= b.len() {
                    assert(pos == b@.len());
                    assert(b@.subrange(pos as int, pos as int) =~= pb@);
                }
            }
        }
        if n == 0 && pos == b.len() {
            proof {
                assert(b@.subrange(pos as int, pos as int) =~= pb@);
            }
            return Some(pos);
        }
        return None;
    }
    let mut i: usize = 0;
    while i < n
        invariant
            pb@ == pat.spec_bytes(),
            n == pb@.len(),
            pos + n <= b@.len(),
            b@.len() <= usize::MAX,
            0 <= i <= n,
            forall|j: int| 0 <= j < i ==> b@[pos + j] == pb@[j],
        decreases n - i,
    {
        if b[pos + i] != pb[i] {
            proof {
                assert(b@.subrange(pos as int, pos + n as int)[i as int] == b@[pos + i]);
                assert(b@.subrange(pos as int, pos + n as int) != pb@);
            }
            return None;
        }
        i = i + 1;
    }
    proof {
        assert(b@.subrange(pos as int, pos + n as int) =~= pb@);
    }
    Some(pos + n)
}

/// Parse a canonical decimal `u64` run starting at `pos`: digits without a
/// leading zero, ending at a non-digit or the end of input. Succeeds on
/// every such run, returning the value and the position after the digits.
#[verifier::rlimit(100)]
fn parse_u64_at(b: &[u8], pos: usize) -> (r: Option<(u64, usize)>)
    ensures
        r matches Some(p) ==> pos + dec_bytes(p.0 as int).len() == p.1 && p.1 <= b@.len()
            && b@.subrange(pos as int, p.1 as int) == dec_bytes(p.0 as int) && (p.1 == b@.len()
            || !is_digit(b@[p.1 as int])),
        (exists|nv: u64| canonical_dec_at(b@, pos as int, nv)) ==> r is Some,
{
    let ghost has_run = exists|nv: u64| canonical_dec_at(b@, pos as int, nv);
    let ghost n0: u64 = if has_run {
        choose|nv: u64| canonical_dec_at(b@, pos as int, nv)
    } else {
        0
    };
    proof {
        if has_run {
            lemma_dec_bytes_chars(n0 as int);
        }
    }
    if pos >= b.len() {
        proof {
            if has_run {
                assert(dec_bytes(n0 as int).len() >= 1);
                assert(false);
            }
        }
        return None;
    }
    let first = b[pos];
    if !(48 <= first && first <= 57) {
        proof {
            if has_run {
                assert(b@.subrange(pos as int, pos + dec_bytes(n0 as int).len())[0] == b@[
                    pos as int]);
                assert(is_digit(dec_bytes(n0 as int)[0]));
                assert(false);
            }
        }
        return None;
    }
    if first == 48 {
        // a leading zero is canonical only as the single digit of zero
        if pos + 1 < b.len() && 48 <= b[pos + 1] && b[pos + 1] <= 57 {
            proof {
                if has_run {
                    if n0 == 0 {
                        assert(dec_bytes(0).len() == 1);
                        assert(!is_digit(b@[pos + 1]));
                    } else {
                        lemma_dec_no_leading_zero(n0 as int);
                        assert(b@.subrange(pos as int, pos + dec_bytes(n0 as int).len())[0] == b@[
                            pos as int]);
                    }
                    assert(false);
                }
            }
            return None;
        }
        proof {
            assert(dec_bytes(0) == seq![48u8]);
            assert(b@.subrange(pos as int, pos + 1) =~= dec_bytes(0));
        }
        return Some((0, pos + 1));
    }
    proof {
        if has_run {
            assert(b@.subrange(pos as int, pos + dec_bytes(n0 as int).len())[0] == b@[pos as int]);
            if n0 == 0 {
                assert(dec_bytes(0) == seq![48u8]);
                assert(false);
            }
        }
    }
    let mut i = pos + 1;
    let mut v: u64 = (first - 48) as u64;
    proof {
        assert(b@.subrange(pos as int, pos + 1) =~= seq![first]);
        assert(seq![first].drop_last() =~= Seq::<u8>::empty());
        assert(digits_val(seq![first].drop_last()) == 0);
        assert(seq![first].last() == first);
        assert(digits_val(seq![first]) == first - 48);
        if has_run {
            assert(b@.subrange(pos as int, pos + dec_bytes(n0 as int).len()).take(1) =~= b@.subrange(
                pos as int,
                pos + 1,
            ));
        }
    }
    loop
        invariant
            pos < i <= b@.len(),
            b@.len() <= usize::MAX,
            forall|j: int| pos <= j < i ==> is_digit(#[trigger] b@[j]),
            b@[pos as int] != 48,
            v as int == digits_val(b@.subrange(pos as int, i as int)),
            has_run == exists|nv: u64| canonical_dec_at(b@, pos as int, nv),
            has_run ==> canonical_dec_at(b@, pos as int, n0),
            has_run ==> i - pos <= dec_bytes(n0 as int).len(),
        decreases b@.len() - i,
    {
        proof {
            assert forall|j: int| 0 <= j < i - pos implies is_digit(
                #[trigger] b@.subrange(pos as int, i as int)[j],
            ) by {
                assert(b@.subrange(pos as int, i as int)[j] == b@[pos + j]);
            }
        }
        if i >= b.len() || !(48 <= b[i] && b[i] <= 57) {
            proof {
                lemma_digits_canonical(b@.subrange(pos as int, i as int));
            }
            return Some((v, i));
        }
        let d = (b[i] - 48) as u64;
        proof {
            if has_run {
                // still inside the canonical run: the next canonical byte is
                // a digit too, so the run extends past `i`
                lemma_dec_bytes_chars(n0 as int);
                if i - pos == dec_bytes(n0 as int).len() {
                    assert(!is_digit(b@[i as int]) || i == b@.len());
                    assert(false);
                }
                assert(i - pos < dec_bytes(n0 as int).len());
                assert forall|j: int|
                    0 <= j < dec_bytes(n0 as int).len() implies is_digit(
                    #[trigger] dec_bytes(n0 as int)[j],
                ) by {
                    assert(48 <= dec_bytes(n0 as int)[j] <= 57);
                }
                assert(b@.subrange(pos as int, i + 1) =~= b@.subrange(
                    pos as int,
                    pos + dec_bytes(n0 as int).len(),
                ).take(i + 1 - pos));
                lemma_digits_val_take_le(dec_bytes(n0 as int), i + 1 - pos);
                lemma_digits_val_dec(n0 as int);
                assert(b@.subrange(pos as int, i + 1).drop_last() =~= b@.subrange(
                    pos as int,
                    i as int,
                ));
                assert(digits_val(b@.subrange(pos as int, i + 1)) == 10 * (v as int) + (d as int));
                assert(10 * (v as int) + (d as int) <= n0 as int);
            }
        }
        let next = match v.checked_mul(10) {
            Some(m) => m.checked_add(d),
            None => None,
        };
        match next {
            Some(nv) => {
                v = nv;
            },
            None => {
                proof {
                    if has_run {
                        assert(false);
                    }
                }
                return None;
            },
        }
        proof {
            assert(b@.subrange(pos as int, i + 1).drop_last() =~= b@.subrange(pos as int, i as int));
            assert(b@.subrange(pos as int, i + 1).last() == b@[i as int]);
        }
        i = i + 1;
    }
}

/// Read `k` decimal digits at `pos` as a number below `10^k` (for the
/// fixed-width time fields; `k` is at most 4). Succeeds exactly when `k`
/// digit bytes are there.
fn parse_digits(b: &[u8], pos: usize, k: usize) -> (r: Option<u32>)
    requires
        k <= 4,
    ensures
        match r {
            Some(v) => {
                &&& pos + k <= b@.len()
                &&& forall|j: int| pos <= j < pos + k ==> is_digit(#[trigger] b@[j])
                &&& v as int == digits_val(b@.subrange(pos as int, pos + k as int))
                &&& v < 10000
            },
            None => pos + k > b@.len() || exists|j: int|
                pos <= j < pos + k && !is_digit(#[trigger] b@[j]),
        },
{
    if pos > b.len() || k > b.len() - pos {
        return None;
    }
    let mut i: usize = 0;
    let mut v: u32 = 0;
    proof {
        assert(b@.subrange(pos as int, pos as int) =~= Seq::<u8>::empty());
    }
    while i < k
        invariant
            0 <= i <= k,
            k <= 4,
            pos + k <= b@.len(),
            b@.len() <= usize::MAX,
            forall|j: int| pos <= j < pos + i ==> is_digit(#[trigger] b@[j]),
            v as int == digits_val(b@.subrange(pos as int, pos + i as int)),
            v < 10000,
        decreases k - i,
    {
        let c = b[pos + i];
        if !(48 <= c && c <= 57) {
            return None;
        }
        proof {
            let ds = b@.subrange(pos as int, pos + i + 1);
            assert(ds.drop_last() =~= b@.subrange(pos as int, pos + i as int));
            assert(ds.last() == b@[pos + i]);
            assert forall|j: int| 0 <= j < ds.len() implies is_digit(#[trigger] ds[j]) by {
                assert(ds[j] == b@[pos + j]);
            }
            lemma_digits_val_upper(b@.subrange(pos as int, pos + i as int));
            assert(pow10(0) == 1 && pow10(1) == 10 && pow10(2) == 100 && pow10(3) == 1000) by {
                reveal_with_fuel(pow10, 5);
            }
            assert(pow10(i as int) <= 1000);
            assert(digits_val(ds) == 10 * (v as int) + (c - 48));
        }
        v = v * 10 + (c - 48) as u32;
        i = i + 1;
    }
    Some(v)
}

/// A four-digit number determines and is determined by its digits.
proof fn lemma_digits4(v: int, d0: int, d1: int, d2: int, d3: int)
    requires
        0 <= d0 <= 9,
        0 <= d1 <= 9,
        0 <= d2 <= 9,
        0 <= d3 <= 9,
        v == 1000 * d0 + 100 * d1 + 10 * d2 + d3,
    ensures
        0 <= v <= 9999,
        v / 1000 == d0,
        (v / 100) % 10 == d1,
        (v / 10) % 10 == d2,
        v % 10 == d3,
{
    vstd::arithmetic::div_mod::lemma_fundamental_div_mod(v, 1000);
    vstd::arithmetic::div_mod::lemma_mod_bound(v, 1000);
    assert(v == 1000 * d0 + (100 * d1 + 10 * d2 + d3));
    assert(v / 1000 == d0) by {
        let q = v / 1000;
        assert(1000 * q + v % 1000 == 1000 * d0 + (100 * d1 + 10 * d2 + d3));
        if q > d0 {
            assert(1000 * q >= 1000 * (d0 + 1));
        }
        if q < d0 {
            assert(1000 * q <= 1000 * (d0 - 1));
        }
    }
    vstd::arithmetic::div_mod::lemma_fundamental_div_mod(v, 100);
    vstd::arithmetic::div_mod::lemma_mod_bound(v, 100);
    assert(v / 100 == 10 * d0 + d1) by {
        let q = v / 100;
        assert(100 * q + v % 100 == 100 * (10 * d0 + d1) + (10 * d2 + d3));
        if q > 10 * d0 + d1 {
            assert(100 * q >= 100 * (10 * d0 + d1 + 1));
        }
        if q < 10 * d0 + d1 {
            assert(100 * q <= 100 * (10 * d0 + d1 - 1));
        }
    }
    vstd::arithmetic::div_mod::lemma_fundamental_div_mod(v / 100, 10);
    vstd::arithmetic::div_mod::lemma_mod_bound(v / 100, 10);
    assert((v / 100) % 10 == d1) by {
        assert(v / 100 == 10 * ((v / 100) / 10) + (v / 100) % 10);
    }
    vstd::arithmetic::div_mod::lemma_fundamental_div_mod(v, 10);
    vstd::arithmetic::div_mod::lemma_mod_bound(v, 10);
    assert(v / 10 == 100 * d0 + 10 * d1 + d2) by {
        let q = v / 10;
        assert(10 * q + v % 10 == 10 * (100 * d0 + 10 * d1 + d2) + d3);
        if q > 100 * d0 + 10 * d1 + d2 {
            assert(10 * q >= 10 * (100 * d0 + 10 * d1 + d2 + 1));
        }
        if q < 100 * d0 + 10 * d1 + d2 {
            assert(10 * q <= 10 * (100 * d0 + 10 * d1 + d2 - 1));
        }
    }
    vstd::arithmetic::div_mod::lemma_fundamental_div_mod(v / 10, 10);
    vstd::arithmetic::div_mod::lemma_mod_bound(v / 10, 10);
    assert((v / 10) % 10 == d2) by {
        assert(v / 10 == 10 * ((v / 10) / 10) + (v / 10) % 10);
    }
    assert(v % 10 == d3) by {
        assert(v == 10 * (v / 10) + v % 10);
    }
}

/// A two-digit number determines and is determined by its digits.
proof fn lemma_digits2(v: int, d0: int, d1: int)
    requires
        0 <= d0 <= 9,
        0 <= d1 <= 9,
        v == 10 * d0 + d1,
    ensures
        0 <= v <= 99,
        v / 10 == d0,
        v % 10 == d1,
{
    vstd::arithmetic::div_mod::lemma_fundamental_div_mod(v, 10);
    vstd::arithmetic::div_mod::lemma_mod_bound(v, 10);
    let q = v / 10;
    assert(10 * q + v % 10 == 10 * d0 + d1);
    if q > d0 {
        assert(10 * q >= 10 * (d0 + 1));
    }
    if q < d0 {
        assert(10 * q <= 10 * (d0 - 1));
    }
}

/// The value of a four-digit window, in nested form.
proof fn lemma_window4_val(b: Seq<u8>, pos: int)
    requires
        0 <= pos,
        pos + 4 <= b.len(),
        forall|j: int| 0 <= j < 4 ==> is_digit(#[trigger] b[pos + j]),
    ensures
        digits_val(b.subrange(pos, pos + 4)) == 1000 * (b[pos] - 48) + 100 * (b[pos + 1] - 48) + 10
            * (b[pos + 2] - 48) + (b[pos + 3] - 48),
{
    let w = b.subrange(pos, pos + 4);
    assert(w.drop_last() =~= b.subrange(pos, pos + 3));
    assert(b.subrange(pos, pos + 3).drop_last() =~= b.subrange(pos, pos + 2));
    assert(b.subrange(pos, pos + 2).drop_last() =~= b.subrange(pos, pos + 1));
    assert(b.subrange(pos, pos + 1).drop_last() =~= Seq::<u8>::empty());
    assert(digits_val(Seq::<u8>::empty()) == 0);
    assert(b.subrange(pos, pos + 1).last() == b[pos]);
    assert(b.subrange(pos, pos + 2).last() == b[pos + 1]);
    assert(b.subrange(pos, pos + 3).last() == b[pos + 2]);
    assert(w.last() == b[pos + 3]);
    assert(digits_val(b.subrange(pos, pos + 1)) == b[pos] - 48);
    assert(digits_val(b.subrange(pos, pos + 2)) == 10 * digits_val(b.subrange(pos, pos + 1)) + (b[
        pos + 1] - 48));
    assert(digits_val(b.subrange(pos, pos + 3)) == 10 * digits_val(b.subrange(pos, pos + 2)) + (b[
        pos + 2] - 48));
    assert(digits_val(w) == 10 * digits_val(b.subrange(pos, pos + 3)) + (b[pos + 3] - 48));
}

/// The value of a two-digit window, in nested form.
proof fn lemma_window2_val(b: Seq<u8>, pos: int)
    requires
        0 <= pos,
        pos + 2 <= b.len(),
        forall|j: int| 0 <= j < 2 ==> is_digit(#[trigger] b[pos + j]),
    ensures
        digits_val(b.subrange(pos, pos + 2)) == 10 * (b[pos] - 48) + (b[pos + 1] - 48),
{
    let w = b.subrange(pos, pos + 2);
    assert(w.drop_last() =~= b.subrange(pos, pos + 1));
    assert(b.subrange(pos, pos + 1).drop_last() =~= Seq::<u8>::empty());
    assert(digits_val(Seq::<u8>::empty()) == 0);
    assert(b.subrange(pos, pos + 1).last() == b[pos]);
    assert(w.last() == b[pos + 1]);
    assert(digits_val(b.subrange(pos, pos + 1)) == b[pos] - 48);
    assert(digits_val(w) == 10 * digits_val(b.subrange(pos, pos + 1)) + (b[pos + 1] - 48));
}

/// Parse the 20-byte RFC 3339 time at `pos`: succeeds exactly on the
/// spelling of a printable timestamp, which it reproduces.
#[verifier::rlimit(100)]
fn parse_time_at(b: &[u8], pos: usize) -> (r: Option<(Timestamp, usize)>)
    ensures
        r matches Some(p) ==> p.0.wf() && p.1 == pos + 20 && pos + 20 <= b@.len() && b@.subrange(
            pos as int,
            pos + 20,
        ) == crate::timefmt::rfc3339_bytes(p.0),
        (exists|t: Timestamp|
            t.wf() && pos + 20 <= b@.len() && b@.subrange(pos as int, pos + 20)
                == crate::timefmt::rfc3339_bytes(t)) ==> r is Some,
{
    let ghost ht = exists|t: Timestamp|
        t.wf() && pos + 20 <= b@.len() && b@.subrange(pos as int, pos + 20)
            == crate::timefmt::rfc3339_bytes(t);
    let ghost t0: Timestamp = if ht {
        choose|t: Timestamp|
            t.wf() && pos + 20 <= b@.len() && b@.subrange(pos as int, pos + 20)
                == crate::timefmt::rfc3339_bytes(t)
    } else {
        Timestamp { year: 0, month: 1, day: 1, hour: 0, minute: 0, second: 0 }
    };
    proof {
        if ht {
            crate::timefmt::lemma_rfc3339_ascii(t0);
            assert forall|j: int| 0 <= j < 20 implies b@[pos + j] == crate::timefmt::rfc3339_bytes(
                t0,
            )[j] by {
                assert(b@.subrange(pos as int, pos + 20)[j] == b@[pos + j]);
            }
            let rb = crate::timefmt::rfc3339_bytes(t0);
            let y = t0.year as int;
            assert(rb[0] == (48 + y / 1000) as u8 && rb[1] == (48 + (y / 100) % 10) as u8 && rb[2]
                == (48 + (y / 10) % 10) as u8 && rb[3] == (48 + y % 10) as u8);
            assert(rb[4] == 45u8 && rb[7] == 45u8 && rb[10] == 84u8 && rb[13] == 58u8 && rb[16]
                == 58u8 && rb[19] == 90u8);
            assert(rb[5] == (48 + (t0.month as int) / 10) as u8 && rb[6] == (48 + (t0.month as int)
                % 10) as u8);
            assert(rb[8] == (48 + (t0.day as int) / 10) as u8 && rb[9] == (48 + (t0.day as int)
                % 10) as u8);
            assert(rb[11] == (48 + (t0.hour as int) / 10) as u8 && rb[12] == (48 + (t0.hour as int)
                % 10) as u8);
            assert(rb[14] == (48 + (t0.minute as int) / 10) as u8 && rb[15] == (48 + (
            t0.minute as int) % 10) as u8);
            assert(rb[17] == (48 + (t0.second as int) / 10) as u8 && rb[18] == (48 + (
            t0.second as int) % 10) as u8);
            assert forall|j: int| 0 <= j < 20 && j != 4 && j != 7 && j != 10 && j != 13 && j != 16
                && j != 19 implies is_digit(#[trigger] b@[pos + j]) by {
                vstd::arithmetic::div_mod::lemma_mod_bound(y, 10);
                vstd::arithmetic::div_mod::lemma_mod_bound(y / 10, 10);
                vstd::arithmetic::div_mod::lemma_mod_bound(y / 100, 10);
                vstd::arithmetic::div_mod::lemma_mod_bound(t0.month as int, 10);
                vstd::arithmetic::div_mod::lemma_mod_bound(t0.day as int, 10);
                vstd::arithmetic::div_mod::lemma_mod_bound(t0.hour as int, 10);
                vstd::arithmetic::div_mod::lemma_mod_bound(t0.minute as int, 10);
                vstd::arithmetic::div_mod::lemma_mod_bound(t0.second as int, 10);
            }
        }
    }
    if pos > b.len() || b.len() - pos < 20 {
        proof {
            if ht {
                assert(false);
            }
        }
        return None;
    }
    let year = match parse_digits(b, pos, 4) {
        Some(v) => v,
        None => {
            proof {
                if ht {
                    assert(false);
                }
            }
            return None;
        },
    };
    if byte_at(b, pos + 4) != Some(45) {
        proof {
            if ht {
                assert(false);
            }
        }
        return None;
    }
    let month = match parse_digits(b, pos + 5, 2) {
        Some(v) => v,
        None => {
            proof {
                if ht {
                    assert(false);
                }
            }
            return None;
        },
    };
    if byte_at(b, pos + 7) != Some(45) {
        proof {
            if ht {
                assert(false);
            }
        }
        return None;
    }
    let day = match parse_digits(b, pos + 8, 2) {
        Some(v) => v,
        None => {
            proof {
                if ht {
                    assert(false);
                }
            }
            return None;
        },
    };
    if byte_at(b, pos + 10) != Some(84) {
        proof {
            if ht {
                assert(false);
            }
        }
        return None;
    }
    let hour = match parse_digits(b, pos + 11, 2) {
        Some(v) => v,
        None => {
            proof {
                if ht {
                    assert(false);
                }
            }
            return None;
        },
    };
    if byte_at(b, pos + 13) != Some(58) {
        proof {
            if ht {
                assert(false);
            }
        }
        return None;
    }
    let minute = match parse_digits(b, pos + 14, 2) {
        Some(v) => v,
        None => {
            proof {
                if ht {
                    assert(false);
                }
            }
            return None;
        },
    };
    if byte_at(b, pos + 16) != Some(58) {
        proof {
            if ht {
                assert(false);
            }
        }
        return None;
    }
    let second = match parse_digits(b, pos + 17, 2) {
        Some(v) => v,
        None => {
            proof {
                if ht {
                    assert(false);
                }
            }
            return None;
        },
    };
    if byte_at(b, pos + 19) != Some(90) {
        proof {
            if ht {
                assert(false);
            }
        }
        return None;
    }
    proof {
        // relate each parsed field to the digits in its window
        lemma_window4_val(b@, pos as int);
        lemma_window2_val(b@, pos + 5);
        lemma_window2_val(b@, pos + 8);
        lemma_window2_val(b@, pos + 11);
        lemma_window2_val(b@, pos + 14);
        lemma_window2_val(b@, pos + 17);
        lemma_digits4(
            year as int,
            b@[pos as int] - 48,
            b@[pos + 1] - 48,
            b@[pos + 2] - 48,
            b@[pos + 3] - 48,
        );
        lemma_digits2(month as int, b@[pos + 5] - 48, b@[pos + 6] - 48);
        lemma_digits2(day as int, b@[pos + 8] - 48, b@[pos + 9] - 48);
        lemma_digits2(hour as int, b@[pos + 11] - 48, b@[pos + 12] - 48);
        lemma_digits2(minute as int, b@[pos + 14] - 48, b@[pos + 15] - 48);
        lemma_digits2(second as int, b@[pos + 17] - 48, b@[pos + 18] - 48);
        if ht {
            // under the hypothesis the range checks below cannot fire
            assert(b@[pos + 5] == 48 + (t0.month as int) / 10 && b@[pos + 6] == 48 + (
            t0.month as int) % 10);
            vstd::arithmetic::div_mod::lemma_fundamental_div_mod(t0.month as int, 10);
            assert(month as int == t0.month as int);
            vstd::arithmetic::div_mod::lemma_fundamental_div_mod(t0.day as int, 10);
            assert(day as int == t0.day as int);
            vstd::arithmetic::div_mod::lemma_fundamental_div_mod(t0.hour as int, 10);
            assert(hour as int == t0.hour as int);
            vstd::arithmetic::div_mod::lemma_fundamental_div_mod(t0.minute as int, 10);
            assert(minute as int == t0.minute as int);
            vstd::arithmetic::div_mod::lemma_fundamental_div_mod(t0.second as int, 10);
            assert(second as int == t0.second as int);
        }
    }
    if month < 1 || month > 12 || day < 1 || day > 31 || hour > 23 || minute > 59 || second > 59 {
        proof {
            if ht {
                assert(false);
            }
        }
        return None;
    }
    let t = Timestamp {
        year,
        month: month as u8,
        day: day as u8,
        hour: hour as u8,
        minute: minute as u8,
        second: second as u8,
    };
    proof {
        assert(b@.subrange(pos as int, pos + 20) =~= crate::timefmt::rfc3339_bytes(t));
    }
    Some((t, pos + 20))
}

/// Parse one canonical build log line.
///
/// Succeeds exactly on the lines [`serialize_entry`] writes: on success
/// the returned entry reproduces the input line byte for byte, and every
/// canonical line is accepted. Anything else — a foreign or corrupted
/// line — is an error, after which the caller discards the log.
pub fn parse_entry(line: &str) -> (r: Result<BuildLogEntry, Error>)
    ensures
        r matches Ok(e) ==> e.wf() && vstd::utf8::encode_utf8(line@) == entry_json_bytes(e),
        (exists|e: BuildLogEntry|
            e.wf() && vstd::utf8::encode_utf8(line@) == entry_json_bytes(e)) ==> r is Ok,
{
    let b = line.as_bytes();
    let candidate = parse_entry_loose(b);
    match candidate {
        Some(e) => {
            let ser = serialize_entry(&e);
            let sb = ser.as_str().as_bytes();
            if crate::string_pool::bytes_eq(sb, b) {
                proof {
                    lemma_entry_json_ascii(e);
                    crate::text::lemma_ascii_decode(entry_json_bytes(e));
                    vstd::utf8::decode_utf8_encode_utf8(entry_json_bytes(e));
                    assert(vstd::utf8::encode_utf8(ser@) == entry_json_bytes(e));
                }
                Ok(e)
            } else {
                proof {
                    if exists|e2: BuildLogEntry|
                        e2.wf() && vstd::utf8::encode_utf8(line@) == entry_json_bytes(e2) {
                        assert(entry_json_bytes(e) == b@);
                        lemma_entry_json_ascii(e);
                        crate::text::lemma_ascii_decode(entry_json_bytes(e));
                        vstd::utf8::decode_utf8_encode_utf8(entry_json_bytes(e));
                        assert(vstd::utf8::encode_utf8(ser@) == entry_json_bytes(e));
                        assert(sb@ == b@);
                        assert(false);
                    }
                }
                Err(Error::new(String::from_str("unexpected build log line")))
            }
        },
        None => {
            proof {
                if exists|e2: BuildLogEntry|
                    e2.wf() && vstd::utf8::encode_utf8(line@) == entry_json_bytes(e2) {
                    assert(false);
                }
            }
            Err(Error::new(String::from_str("unexpected build log line")))
        },
    }
}

/// The first pass of the parser. On any input, a returned entry is
/// well-formed (the caller re-validates it by serializing); on a canonical
/// line the pass always succeeds and the entry reproduces the line.
#[verifier::rlimit(100)]
fn parse_entry_loose(b: &[u8]) -> (r: Option<BuildLogEntry>)
    ensures
        r matches Some(e) ==> e.wf(),
        (exists|e: BuildLogEntry| e.wf() && b@ == entry_json_bytes(e)) ==> (r matches Some(e2)
            && e2.wf() && entry_json_bytes(e2) == b@),
{
    let ghost he = exists|e: BuildLogEntry| e.wf() && b@ == entry_json_bytes(e);
    let ghost e0: BuildLogEntry = if he {
        choose|e: BuildLogEntry| e.wf() && b@ == entry_json_bytes(e)
    } else {
        BuildLogEntry {
            id: 0,
            time: Timestamp { year: 0, month: 1, day: 1, hour: 0, minute: 0, second: 0 },
            contents: BuildLogContents::Use,
        }
    };
    let ghost dlen: int = dec_bytes(e0.id as int).len() as int;
    proof {
        if he {
            lemma_dec_bytes_chars(e0.id as int);
            crate::timefmt::lemma_rfc3339_ascii(e0.time);
        }
        reveal_strlit("{\"id\":");
        assert("{\"id\":"@ =~= seq!['{', '"', 'i', 'd', '"', ':']);
        assert(vstd::utf8::is_ascii_chars("{\"id\":"@));
        vstd::utf8::is_ascii_chars_encode_utf8("{\"id\":"@);
        assert(("{\"id\":").spec_bytes() =~= seq![123u8, 34u8, 105u8, 100u8, 34u8, 58u8]);
    }
    let pos = match match_at(b, 0, "{\"id\":") {
        Some(p) => p,
        None => {
            proof {
                if he {
                    assert(b@.subrange(0, 6) =~= seq![123u8, 34u8, 105u8, 100u8, 34u8, 58u8]);
                    assert(false);
                }
            }
            return None;
        },
    };
    proof {
        if he {
            assert(b@.subrange(6, 6 + dlen) =~= dec_bytes(e0.id as int));
            assert(b@[6 + dlen] == 44);
            assert(canonical_dec_at(b@, 6, e0.id));
        }
    }
    let (id, pos) = match parse_u64_at(b, pos) {
        Some(p) => p,
        None => {
            proof {
                if he {
                    assert(false);
                }
            }
            return None;
        },
    };
    proof {
        if he {
            // the two digit runs at position 6 coincide
            lemma_dec_bytes_chars(id as int);
            if (pos as int) < 6 + dlen {
                assert(b@.subrange(6, 6 + dlen)[pos - 6] == b@[pos as int]);
                assert(is_digit(b@[pos as int]));
                assert(false);
            }
            if (pos as int) > 6 + dlen {
                assert(b@.subrange(6, pos as int)[dlen] == b@[6 + dlen]);
                assert(is_digit(b@[6 + dlen]));
                assert(false);
            }
            assert(pos as int == 6 + dlen);
            assert(dec_bytes(id as int) == dec_bytes(e0.id as int));
            lemma_dec_bytes_injective(id as int, e0.id as int);
            assert(id == e0.id);
        }
        reveal_strlit(",\"time\":\"");
        assert(",\"time\":\""@ =~= seq![',', '"', 't', 'i', 'm', 'e', '"', ':', '"']);
        assert(vstd::utf8::is_ascii_chars(",\"time\":\""@));
        vstd::utf8::is_ascii_chars_encode_utf8(",\"time\":\""@);
        assert((",\"time\":\"").spec_bytes() =~= seq![
            44u8, 34u8, 116u8, 105u8, 109u8, 101u8, 34u8, 58u8, 34u8,
        ]);
    }
    let ghost idend = pos as int;
    let pos = match match_at(b, pos, ",\"time\":\"") {
        Some(p) => p,
        None => {
            proof {
                if he {
                    assert(b@.subrange(idend, idend + 9) =~= seq![
                        44u8, 34u8, 116u8, 105u8, 109u8, 101u8, 34u8, 58u8, 34u8,
                    ]);
                    assert(false);
                }
            }
            return None;
        },
    };
    proof {
        if he {
            assert(b@.subrange(pos as int, pos + 20) =~= crate::timefmt::rfc3339_bytes(e0.time));
        }
    }
    let (time, pos) = match parse_time_at(b, pos) {
        Some(p) => p,
        None => {
            proof {
                if he {
                    assert(false);
                }
            }
            return None;
        },
    };
    proof {
        if he {
            assert(crate::timefmt::rfc3339_bytes(time) == crate::timefmt::rfc3339_bytes(e0.time));
            lemma_rfc3339_injective(time, e0.time);
        }
        reveal_strlit("\",\"type\":\"");
        assert("\",\"type\":\""@ =~= seq!['"', ',', '"', 't', 'y', 'p', 'e', '"', ':', '"']);
        assert(vstd::utf8::is_ascii_chars("\",\"type\":\""@));
        vstd::utf8::is_ascii_chars_encode_utf8("\",\"type\":\""@);
        assert(("\",\"type\":\"").spec_bytes() =~= seq![
            34u8, 44u8, 34u8, 116u8, 121u8, 112u8, 101u8, 34u8, 58u8, 34u8,
        ]);
    }
    let ghost tend = pos as int;
    let pos = match match_at(b, pos, "\",\"type\":\"") {
        Some(p) => p,
        None => {
            proof {
                if he {
                    assert(b@.subrange(tend, tend + 10) =~= seq![
                        34u8, 44u8, 34u8, 116u8, 121u8, 112u8, 101u8, 34u8, 58u8, 34u8,
                    ]);
                    assert(false);
                }
            }
            return None;
        },
    };
    proof {
        if he {
            // the contents bytes start here; the line is them plus the
            // closing brace
            assert(pos as int == 6 + dlen + 39);
            assert(b@.subrange(pos as int, b@.len() as int) =~= contents_json_bytes(e0.contents)
                + seq![125u8]);
            assert(b@.len() - pos == contents_json_bytes(e0.contents).len() + 1);
        }
    }
    parse_contents_loose(b, pos, id, time, Ghost(he), Ghost(e0))
}

/// The tag-and-payload half of the first pass, with the canonical-line
/// hypothesis carried along as ghost context.
#[verifier::rlimit(100)]
fn parse_contents_loose(
    b: &[u8],
    pos: usize,
    id: u64,
    time: Timestamp,
    Ghost(he): Ghost<bool>,
    Ghost(e0): Ghost<BuildLogEntry>,
) -> (r: Option<BuildLogEntry>)
    requires
        time.wf(),
        pos <= b@.len(),
        he ==> {
            &&& e0.wf()
            &&& b@ == entry_json_bytes(e0)
            &&& id == e0.id
            &&& time == e0.time
            &&& b@.subrange(pos as int, b@.len() as int) == contents_json_bytes(e0.contents)
                + seq![125u8]
            &&& b@.len() - pos == contents_json_bytes(e0.contents).len() + 1
        },
    ensures
        r matches Some(e) ==> e.wf(),
        he ==> (r matches Some(e2) && e2.wf() && entry_json_bytes(e2) == b@),
{
    proof {
        if he {
            assert forall|j: int|
                0 <= j < contents_json_bytes(e0.contents).len() + 1 implies b@[pos + j] == (
            contents_json_bytes(e0.contents) + seq![125u8])[j] by {
                assert(b@.subrange(pos as int, b@.len() as int)[j] == b@[pos + j]);
            }
        }
        reveal_strlit("Create\",\"rev\":{\"top\":\"git-");
        assert("Create\",\"rev\":{\"top\":\"git-"@ =~= seq![
            'C', 'r', 'e', 'a', 't', 'e', '"', ',', '"', 'r', 'e', 'v', '"', ':', '{', '"', 't',
            'o', 'p', '"', ':', '"', 'g', 'i', 't', '-',
        ]);
        assert(vstd::utf8::is_ascii_chars("Create\",\"rev\":{\"top\":\"git-"@));
        vstd::utf8::is_ascii_chars_encode_utf8("Create\",\"rev\":{\"top\":\"git-"@);
        assert(("Create\",\"rev\":{\"top\":\"git-").spec_bytes() =~= seq![
            67u8, 114u8, 101u8, 97u8, 116u8, 101u8, 34u8, 44u8, 34u8, 114u8, 101u8, 118u8, 34u8,
            58u8, 123u8, 34u8, 116u8, 111u8, 112u8, 34u8, 58u8, 34u8, 103u8, 105u8, 116u8, 45u8,
        ]);
    }
    // the tag decides the variant
    if let Some(p2) = match_at(b, pos, "Create\",\"rev\":{\"top\":\"git-") {
        proof {
            if he {
                match e0.contents {
                    BuildLogContents::Create { rev } => {
                        assert(b@.subrange(p2 as int, p2 + 40) =~= hash_hex_bytes(
                            rev.top.spec_hash(),
                        ));
                        assert(b@.len() - p2 == 43);
                        assert forall|j: int| 0 <= j < 40 implies hex_val(
                            #[trigger] b@.subrange(p2 as int, p2 + 40)[j],
                        ) >= 0 by {
                            let h = rev.top.spec_hash();
                            let hi = h[j / 2] as int;
                            vstd::arithmetic::div_mod::lemma_fundamental_div_mod(hi, 16);
                            vstd::arithmetic::div_mod::lemma_mod_bound(hi, 16);
                            if j % 2 == 0 {
                                lemma_hex_digit_val(hi / 16);
                            } else {
                                lemma_hex_digit_val(hi % 16);
                            }
                        }
                    },
                    _ => {
                        // the other tags differ in their first two bytes
                        assert(b@.subrange(pos as int, pos + 26)[0] == b@[pos as int]);
                        assert(b@.subrange(pos as int, pos + 26)[1] == b@[pos + 1]);
                        assert(false);
                    },
                }
            }
        }
        if b.len() - p2 != 43 {
            proof {
                if he {
                    assert(false);
                }
            }
            return None;
        }
        let hex = vstd::slice::slice_subrange(b, p2, p2 + 40);
        let top = match ModuleRevision::from_git_ascii(hex) {
            Ok(m) => m,
            Err(_) => {
                proof {
                    if he {
                        assert(false);
                    }
                }
                return None;
            },
        };
        proof {
            reveal_strlit("\"}}");
            assert("\"}}"@ =~= seq!['"', '}', '}']);
            assert(vstd::utf8::is_ascii_chars("\"}}"@));
            vstd::utf8::is_ascii_chars_encode_utf8("\"}}"@);
            assert(("\"}}").spec_bytes() =~= seq![34u8, 125u8, 125u8]);
            if he {
                assert(b@.subrange(p2 + 40, p2 + 43) =~= seq![34u8, 125u8, 125u8]);
            }
        }
        if match_at(b, p2 + 40, "\"}}").is_none() {
            proof {
                if he {
                    assert(false);
                }
            }
            return None;
        }
        let rev = Revision { top, submodule_overrides: Vec::new() };
        proof {
            if he {
                match e0.contents {
                    BuildLogContents::Create { rev: rev0 } => {
                        assert(rev.top.spec_hash() =~= rev0.top.spec_hash()) by {
                            let h0 = rev0.top.spec_hash();
                            assert forall|j: int| 0 <= j < 20 implies rev.top.spec_hash()[j]
                                == h0[j] by {
                                let hi = h0[j] as int;
                                vstd::arithmetic::div_mod::lemma_fundamental_div_mod(hi, 16);
                                vstd::arithmetic::div_mod::lemma_mod_bound(hi, 16);
                                lemma_hex_digit_val(hi / 16);
                                lemma_hex_digit_val(hi % 16);
                                assert(hex@[2 * j] == hex_digit((hi / 16) as int));
                                assert(hex@[2 * j + 1] == hex_digit((hi % 16) as int));
                            }
                        }
                        let cand = BuildLogEntry {
                            id,
                            time,
                            contents: BuildLogContents::Create { rev },
                        };
                        assert(entry_json_bytes(cand) =~= b@);
                    },
                    _ => {},
                }
            }
        }
        return Some(BuildLogEntry { id, time, contents: BuildLogContents::Create { rev } });
    }
    proof {
        reveal_strlit("Complete\",\"success\":true}");
        assert("Complete\",\"success\":true}"@ =~= seq![
            'C', 'o', 'm', 'p', 'l', 'e', 't', 'e', '"', ',', '"', 's', 'u', 'c', 'c', 'e', 's',
            's', '"', ':', 't', 'r', 'u', 'e', '}',
        ]);
        assert(vstd::utf8::is_ascii_chars("Complete\",\"success\":true}"@));
        vstd::utf8::is_ascii_chars_encode_utf8("Complete\",\"success\":true}"@);
        assert(("Complete\",\"success\":true}").spec_bytes() =~= seq![
            67u8, 111u8, 109u8, 112u8, 108u8, 101u8, 116u8, 101u8, 34u8, 44u8, 34u8, 115u8, 117u8,
            99u8, 99u8, 101u8, 115u8, 115u8, 34u8, 58u8, 116u8, 114u8, 117u8, 101u8, 125u8,
        ]);
    }
    if let Some(p2) = match_at(b, pos, "Complete\",\"success\":true}") {
        proof {
            if he {
                match e0.contents {
                    BuildLogContents::Complete { success } => {
                        if !success {
                            assert(b@.subrange(pos as int, pos + 25)[20] == b@[pos + 20]);
                            assert(b@[pos + 20] == 102);
                            assert(false);
                        }
                        assert(b@.len() == p2);
                    },
                    _ => {
                        assert(b@.subrange(pos as int, pos + 25)[0] == b@[pos as int]);
                        assert(b@.subrange(pos as int, pos + 25)[1] == b@[pos + 1]);
                        assert(false);
                    },
                }
            }
        }
        if p2 != b.len() {
            proof {
                if he {
                    assert(false);
                }
            }
            return None;
        }
        proof {
            if he {
                let cand = BuildLogEntry {
                    id,
                    time,
                    contents: BuildLogContents::Complete { success: true },
                };
                assert(entry_json_bytes(cand) =~= b@);
            }
        }
        return Some(
            BuildLogEntry { id, time, contents: BuildLogContents::Complete { success: true } },
        );
    }
    proof {
        reveal_strlit("Complete\",\"success\":false}");
        assert("Complete\",\"success\":false}"@ =~= seq![
            'C', 'o', 'm', 'p', 'l', 'e', 't', 'e', '"', ',', '"', 's', 'u', 'c', 'c', 'e', 's',
            's', '"', ':', 'f', 'a', 'l', 's', 'e', '}',
        ]);
        assert(vstd::utf8::is_ascii_chars("Complete\",\"success\":false}"@));
        vstd::utf8::is_ascii_chars_encode_utf8("Complete\",\"success\":false}"@);
        assert(("Complete\",\"success\":false}").spec_bytes() =~= seq![
            67u8, 111u8, 109u8, 112u8, 108u8, 101u8, 116u8, 101u8, 34u8, 44u8, 34u8, 115u8, 117u8,
            99u8, 99u8, 101u8, 115u8, 115u8, 34u8, 58u8, 102u8, 97u8, 108u8, 115u8, 101u8, 125u8,
        ]);
    }
    if let Some(p2) = match_at(b, pos, "Complete\",\"success\":false}") {
        proof {
            if he {
                match e0.contents {
                    BuildLogContents::Complete { success } => {
                        if success {
                            assert(b@.subrange(pos as int, pos + 26)[20] == b@[pos + 20]);
                            assert(b@[pos + 20] == 116);
                            assert(false);
                        }
                        assert(b@.len() == p2);
                    },
                    _ => {
                        assert(b@.subrange(pos as int, pos + 26)[0] == b@[pos as int]);
                        assert(b@.subrange(pos as int, pos + 26)[1] == b@[pos + 1]);
                        assert(false);
                    },
                }
            }
        }
        if p2 != b.len() {
            proof {
                if he {
                    assert(false);
                }
            }
            return None;
        }
        proof {
            if he {
                let cand = BuildLogEntry {
                    id,
                    time,
                    contents: BuildLogContents::Complete { success: false },
                };
                assert(entry_json_bytes(cand) =~= b@);
            }
        }
        return Some(
            BuildLogEntry { id, time, contents: BuildLogContents::Complete { success: false } },
        );
    }
    proof {
        reveal_strlit("Use\"}");
        assert("Use\"}"@ =~= seq!['U', 's', 'e', '"', '}']);
        assert(vstd::utf8::is_ascii_chars("Use\"}"@));
        vstd::utf8::is_ascii_chars_encode_utf8("Use\"}"@);
        assert(("Use\"}").spec_bytes() =~= seq![85u8, 115u8, 101u8, 34u8, 125u8]);
    }
    if let Some(p2) = match_at(b, pos, "Use\"}") {
        proof {
            if he {
                match e0.contents {
                    BuildLogContents::Use => {
                        assert(b@.len() == p2);
                    },
                    _ => {
                        assert(b@.subrange(pos as int, pos + 5)[0] == b@[pos as int]);
                        assert(b@.subrange(pos as int, pos + 5)[1] == b@[pos + 1]);
                        assert(false);
                    },
                }
            }
        }
        if p2 != b.len() {
            proof {
                if he {
                    assert(false);
                }
            }
            return None;
        }
        proof {
            if he {
                let cand = BuildLogEntry { id, time, contents: BuildLogContents::Use };
                assert(entry_json_bytes(cand) =~= b@);
            }
        }
        return Some(BuildLogEntry { id, time, contents: BuildLogContents::Use });
    }
    proof {
        reveal_strlit("ClearFail\"}");
        assert("ClearFail\"}"@ =~= seq!['C', 'l', 'e', 'a', 'r', 'F', 'a', 'i', 'l', '"', '}']);
        assert(vstd::utf8::is_ascii_chars("ClearFail\"}"@));
        vstd::utf8::is_ascii_chars_encode_utf8("ClearFail\"}"@);
        assert(("ClearFail\"}").spec_bytes() =~= seq![
            67u8, 108u8, 101u8, 97u8, 114u8, 70u8, 97u8, 105u8, 108u8, 34u8, 125u8,
        ]);
    }
    if let Some(p2) = match_at(b, pos, "ClearFail\"}") {
        proof {
            if he {
                match e0.contents {
                    BuildLogContents::ClearFail => {
                        assert(b@.len() == p2);
                    },
                    _ => {
                        assert(b@.subrange(pos as int, pos + 11)[0] == b@[pos as int]);
                        assert(b@.subrange(pos as int, pos + 11)[1] == b@[pos + 1]);
                        assert(false);
                    },
                }
            }
        }
        if p2 != b.len() {
            proof {
                if he {
                    assert(false);
                }
            }
            return None;
        }
        proof {
            if he {
                let cand = BuildLogEntry { id, time, contents: BuildLogContents::ClearFail };
                assert(entry_json_bytes(cand) =~= b@);
            }
        }
        return Some(BuildLogEntry { id, time, contents: BuildLogContents::ClearFail });
    }
    proof {
        if he {
            // one of the four tag patterns must match a canonical line
            match e0.contents {
                BuildLogContents::Create { rev } => {
                    assert(b@.subrange(pos as int, pos + 26) =~= seq![
                        67u8, 114u8, 101u8, 97u8, 116u8, 101u8, 34u8, 44u8, 34u8, 114u8, 101u8,
                        118u8, 34u8, 58u8, 123u8, 34u8, 116u8, 111u8, 112u8, 34u8, 58u8, 34u8,
                        103u8, 105u8, 116u8, 45u8,
                    ]);
                    assert(false);
                },
                BuildLogContents::Complete { success } => {
                    if success {
                        assert(b@.subrange(pos as int, pos + 25) =~= seq![
                            67u8, 111u8, 109u8, 112u8, 108u8, 101u8, 116u8, 101u8, 34u8, 44u8,
                            34u8, 115u8, 117u8, 99u8, 99u8, 101u8, 115u8, 115u8, 34u8, 58u8, 116u8,
                            114u8, 117u8, 101u8, 125u8,
                        ]);
                    } else {
                        assert(b@.subrange(pos as int, pos + 26) =~= seq![
                            67u8, 111u8, 109u8, 112u8, 108u8, 101u8, 116u8, 101u8, 34u8, 44u8,
                            34u8, 115u8, 117u8, 99u8, 99u8, 101u8, 115u8, 115u8, 34u8, 58u8, 102u8,
                            97u8, 108u8, 115u8, 101u8, 125u8,
                        ]);
                    }
                    assert(false);
                },
                BuildLogContents::Use => {
                    assert(b@.subrange(pos as int, pos + 5) =~= seq![
                        85u8, 115u8, 101u8, 34u8, 125u8,
                    ]);
                    assert(false);
                },
                BuildLogContents::ClearFail => {
                    assert(b@.subrange(pos as int, pos + 11) =~= seq![
                        67u8, 108u8, 101u8, 97u8, 114u8, 70u8, 97u8, 105u8, 108u8, 34u8, 125u8,
                    ]);
                    assert(false);
                },
            }
        }
    }
    None
}

/// Hex digits carry their value: `hex_val(hex_digit(d)) == d` for nibbles.
proof fn lemma_hex_digit_val(d: int)
    requires
        0 <= d <= 15,
    ensures
        hex_val(hex_digit(d)) == d,
{
}

/// The JSON spelling of a plain (no-overrides) revision.
pub fn rev_to_json(rev: &Revision) -> (r: String)
    requires
        rev.wf(),
        rev.submodule_overrides@.len() == 0,
    ensures
        r@ == ascii_chars(rev_json_bytes(*rev)),
{
    let mut out: Vec<u8> = Vec::new();
    push_rev_json(&mut out, rev);
    proof {
        assert(out@ =~= rev_json_bytes(*rev));
        assert(all_ascii(out@)) by {
            assert(forall|j: int|
                0 <= j < hash_hex_bytes(rev.top.spec_hash()).len() ==> 48 <= #[trigger] hash_hex_bytes(
                    rev.top.spec_hash(),
                )[j] <= 102);
        }
    }
    ascii_to_string(&out)
}

/// Parse the JSON spelling of a plain revision: succeeds exactly on the
/// canonical form `{"top":"git-<40 hex>"}`, which it reproduces.
#[verifier::rlimit(100)]
pub fn rev_from_json(s: &str) -> (r: Result<Revision, Error>)
    ensures
        r matches Ok(rev) ==> {
            &&& rev.wf()
            &&& rev.submodule_overrides@.len() == 0
            &&& vstd::utf8::encode_utf8(s@) == rev_json_bytes(rev)
        },
        (exists|rev: Revision|
            rev.wf() && rev.submodule_overrides@.len() == 0 && vstd::utf8::encode_utf8(s@)
                == rev_json_bytes(rev)) ==> r is Ok,
{
    let b = s.as_bytes();
    let ghost hr = exists|rev: Revision|
        rev.wf() && rev.submodule_overrides@.len() == 0 && b@ == rev_json_bytes(rev);
    let ghost r0: Revision = if hr {
        choose|rev: Revision|
            rev.wf() && rev.submodule_overrides@.len() == 0 && b@ == rev_json_bytes(rev)
    } else {
        vstd::pervasive::arbitrary()
    };
    proof {
        reveal_strlit("{\"top\":\"git-");
        assert("{\"top\":\"git-"@ =~= seq![
            '{', '"', 't', 'o', 'p', '"', ':', '"', 'g', 'i', 't', '-',
        ]);
        assert(vstd::utf8::is_ascii_chars("{\"top\":\"git-"@));
        vstd::utf8::is_ascii_chars_encode_utf8("{\"top\":\"git-"@);
        assert(("{\"top\":\"git-").spec_bytes() =~= seq![
            123u8, 34u8, 116u8, 111u8, 112u8, 34u8, 58u8, 34u8, 103u8, 105u8, 116u8, 45u8,
        ]);
        if hr {
            assert(b@.subrange(0, 12) =~= seq![
                123u8, 34u8, 116u8, 111u8, 112u8, 34u8, 58u8, 34u8, 103u8, 105u8, 116u8, 45u8,
            ]);
            assert(b@.subrange(12, 52) =~= hash_hex_bytes(r0.top.spec_hash()));
            assert(b@.len() == 54);
            assert(b@[52] == 34 && b@[53] == 125);
        }
    }
    let p = match match_at(b, 0, "{\"top\":\"git-") {
        Some(p) => p,
        None => {
            proof {
                if hr {
                    assert(false);
                }
            }
            return Err(Error::new(String::from_str("bad revision text")));
        },
    };
    if b.len() - p != 42 {
        proof {
            if hr {
                assert(false);
            }
        }
        return Err(Error::new(String::from_str("bad revision text")));
    }
    let hex = vstd::slice::slice_subrange(b, p, p + 40);
    proof {
        if hr {
            assert(hex@ == hash_hex_bytes(r0.top.spec_hash()));
            assert forall|j: int| 0 <= j < 40 implies hex_val(#[trigger] hex@[j]) >= 0 by {
                let h = r0.top.spec_hash();
                let hi = h[j / 2] as int;
                vstd::arithmetic::div_mod::lemma_fundamental_div_mod(hi, 16);
                vstd::arithmetic::div_mod::lemma_mod_bound(hi, 16);
                if j % 2 == 0 {
                    lemma_hex_digit_val(hi / 16);
                } else {
                    lemma_hex_digit_val(hi % 16);
                }
            }
        }
    }
    let top = match ModuleRevision::from_git_ascii(hex) {
        Ok(m) => m,
        Err(e) => {
            proof {
                if hr {
                    assert(false);
                }
            }
            return Err(e);
        },
    };
    let rev = Revision { top, submodule_overrides: Vec::new() };
    proof {
        if hr {
            assert(rev.top.spec_hash() =~= r0.top.spec_hash()) by {
                let h0 = r0.top.spec_hash();
                assert forall|j: int| 0 <= j < 20 implies rev.top.spec_hash()[j] == h0[j] by {
                    let hi = h0[j] as int;
                    vstd::arithmetic::div_mod::lemma_fundamental_div_mod(hi, 16);
                    vstd::arithmetic::div_mod::lemma_mod_bound(hi, 16);
                    lemma_hex_digit_val(hi / 16);
                    lemma_hex_digit_val(hi % 16);
                    assert(hex@[2 * j] == hex_digit((hi / 16) as int));
                    assert(hex@[2 * j + 1] == hex_digit((hi % 16) as int));
                }
            }
        }
    }
    let ser = rev_to_json(&rev);
    let sb = ser.as_str().as_bytes();
    if crate::string_pool::bytes_eq(sb, b) {
        proof {
            assert(all_ascii(rev_json_bytes(rev))) by {
                assert(forall|j: int|
                    0 <= j < hash_hex_bytes(rev.top.spec_hash()).len() ==> 48
                        <= #[trigger] hash_hex_bytes(rev.top.spec_hash())[j] <= 102);
            }
            crate::text::lemma_ascii_decode(rev_json_bytes(rev));
            vstd::utf8::decode_utf8_encode_utf8(rev_json_bytes(rev));
            assert(vstd::utf8::encode_utf8(ser@) == rev_json_bytes(rev));
        }
        Ok(rev)
    } else {
        proof {
            if hr {
                assert(rev_json_bytes(rev) =~= rev_json_bytes(r0));
                assert(all_ascii(rev_json_bytes(rev))) by {
                    assert(forall|j: int|
                        0 <= j < hash_hex_bytes(rev.top.spec_hash()).len() ==> 48
                            <= #[trigger] hash_hex_bytes(rev.top.spec_hash())[j] <= 102);
                }
                crate::text::lemma_ascii_decode(rev_json_bytes(rev));
                vstd::utf8::decode_utf8_encode_utf8(rev_json_bytes(rev));
                assert(vstd::utf8::encode_utf8(ser@) == rev_json_bytes(rev));
                assert(sb@ == b@);
                assert(false);
            }
        }
        Err(Error::new(String::from_str("bad revision text")))
    }
}

proof fn lemma_dec_bytes_injective(a: int, b: int)
    requires
        a >= 0,
        b >= 0,
        dec_bytes(a) == dec_bytes(b),
    ensures
        a == b,
    decreases a,
{
    if a <= 9 && b <= 9 {
        assert(dec_bytes(a) == seq![(48 + a) as u8]);
        assert(dec_bytes(b) == seq![(48 + b) as u8]);
        assert(dec_bytes(a)[0] == dec_bytes(b)[0]);
        assert(dec_bytes(a)[0] == (48 + a) as u8);
        assert(dec_bytes(b)[0] == (48 + b) as u8);
        assert((48 + a) as u8 == (48 + b) as u8);
        assert(((48 + a) as u8) as int == 48 + a);
        assert(((48 + b) as u8) as int == 48 + b);
        assert(a == b);
    } else if a <= 9 {
        assert(dec_bytes(a) == seq![(48 + a) as u8]);
        assert(dec_bytes(a).len() == 1);
        assert(dec_bytes(b) == dec_bytes(b / 10).push((48 + b % 10) as u8));
        lemma_dec_bytes_chars(b / 10);
        assert(dec_bytes(b).len() >= 2);
        assert(a == b);
    } else if b <= 9 {
        assert(dec_bytes(b) == seq![(48 + b) as u8]);
        assert(dec_bytes(b).len() == 1);
        assert(dec_bytes(a) == dec_bytes(a / 10).push((48 + a % 10) as u8));
        lemma_dec_bytes_chars(a / 10);
        assert(dec_bytes(a).len() >= 2);
        assert(a == b);
    } else {
        assert(dec_bytes(a) == dec_bytes(a / 10).push((48 + a % 10) as u8));
        assert(dec_bytes(b) == dec_bytes(b / 10).push((48 + b % 10) as u8));
        assert(dec_bytes(a).last() == (48 + a % 10) as u8);
        assert(dec_bytes(b).last() == (48 + b % 10) as u8);
        assert(dec_bytes(a).last() == dec_bytes(b).last());
        assert(0 <= a % 10 <= 9 && 0 <= b % 10 <= 9);
        assert(((48 + a % 10) as u8) as int == 48 + a % 10);
        assert(((48 + b % 10) as u8) as int == 48 + b % 10);
        assert(a % 10 == b % 10);
        assert(dec_bytes(a).drop_last() =~= dec_bytes(a / 10));
        assert(dec_bytes(b).drop_last() =~= dec_bytes(b / 10));
        lemma_dec_bytes_injective(a / 10, b / 10);
        vstd::arithmetic::div_mod::lemma_fundamental_div_mod(a, 10);
        vstd::arithmetic::div_mod::lemma_fundamental_div_mod(b, 10);
        assert(a == b);
    }
}

/// Cutting two digit runs before a non-digit: if the concatenations agree,
/// the runs agree.
proof fn lemma_digit_run_split(da: Seq<u8>, ra: Seq<u8>, db: Seq<u8>, rb: Seq<u8>)
    requires
        da + ra == db + rb,
        forall|i: int| 0 <= i < da.len() ==> 48 <= #[trigger] da[i] <= 57,
        forall|i: int| 0 <= i < db.len() ==> 48 <= #[trigger] db[i] <= 57,
        ra.len() >= 1,
        rb.len() >= 1,
        ra[0] == 44,
        rb[0] == 44,
    ensures
        da == db,
        ra == rb,
{
    let w = da + ra;
    if da.len() < db.len() {
        assert(w[da.len() as int] == ra[0]);
        assert((db + rb)[da.len() as int] == db[da.len() as int]);
        assert(false);
    }
    if db.len() < da.len() {
        assert(w[db.len() as int] == da[db.len() as int]);
        assert((db + rb)[db.len() as int] == rb[0]);
        assert(false);
    }
    assert(da.len() == db.len());
    assert((da + ra).len() == da.len() + ra.len());
    assert((db + rb).len() == db.len() + rb.len());
    assert((da + ra).len() == (db + rb).len());
    assert(ra.len() == rb.len());
    assert(da =~= db) by {
        assert forall|i: int| 0 <= i < da.len() implies da[i] == db[i] by {
            assert(w[i] == da[i]);
            assert((db + rb)[i] == db[i]);
        }
    }
    assert(ra =~= rb) by {
        assert forall|i: int| 0 <= i < ra.len() implies ra[i] == rb[i] by {
            assert(w[da.len() + i] == ra[i]);
            assert((db + rb)[db.len() + i] == rb[i]);
        }
    }
}


/// Fixed-width decimal fields are injective.
proof fn lemma_two_digits_injective(a: int, b: int)
    requires
        0 <= a <= 99,
        0 <= b <= 99,
        (48 + a / 10) as u8 == (48 + b / 10) as u8,
        (48 + a % 10) as u8 == (48 + b % 10) as u8,
    ensures
        a == b,
{
    assert(0 <= a / 10 <= 9 && 0 <= b / 10 <= 9);
    assert(((48 + a / 10) as u8) as int == 48 + a / 10);
    assert(((48 + b / 10) as u8) as int == 48 + b / 10);
    assert(((48 + a % 10) as u8) as int == 48 + a % 10);
    assert(((48 + b % 10) as u8) as int == 48 + b % 10);
    vstd::arithmetic::div_mod::lemma_fundamental_div_mod(a, 10);
    vstd::arithmetic::div_mod::lemma_fundamental_div_mod(b, 10);
}

/// The RFC 3339 spelling is injective on printable timestamps.
proof fn lemma_rfc3339_injective(t1: Timestamp, t2: Timestamp)
    requires
        t1.wf(),
        t2.wf(),
        crate::timefmt::rfc3339_bytes(t1) == crate::timefmt::rfc3339_bytes(t2),
    ensures
        t1 == t2,
{
    let r1 = crate::timefmt::rfc3339_bytes(t1);
    let r2 = crate::timefmt::rfc3339_bytes(t2);
    // the year, from its four digit bytes
    assert(r1[0] == r2[0] && r1[1] == r2[1] && r1[2] == r2[2] && r1[3] == r2[3]);
    let y1 = t1.year as int;
    let y2 = t2.year as int;
    assert(r1[0] == (48 + y1 / 1000) as u8 && r1[1] == (48 + (y1 / 100) % 10) as u8 && r1[2] == (48
        + (y1 / 10) % 10) as u8 && r1[3] == (48 + y1 % 10) as u8);
    assert(r2[0] == (48 + y2 / 1000) as u8 && r2[1] == (48 + (y2 / 100) % 10) as u8 && r2[2] == (48
        + (y2 / 10) % 10) as u8 && r2[3] == (48 + y2 % 10) as u8);
    assert(t1.year == t2.year) by {
        lemma_year_digits(y1);
        lemma_year_digits(y2);
        assert(((48 + y1 / 1000) as u8) as int == 48 + y1 / 1000);
        assert(((48 + y2 / 1000) as u8) as int == 48 + y2 / 1000);
        assert(((48 + (y1 / 100) % 10) as u8) as int == 48 + (y1 / 100) % 10);
        assert(((48 + (y2 / 100) % 10) as u8) as int == 48 + (y2 / 100) % 10);
        assert(((48 + (y1 / 10) % 10) as u8) as int == 48 + (y1 / 10) % 10);
        assert(((48 + (y2 / 10) % 10) as u8) as int == 48 + (y2 / 10) % 10);
        assert(((48 + y1 % 10) as u8) as int == 48 + y1 % 10);
        assert(((48 + y2 % 10) as u8) as int == 48 + y2 % 10);
    }
    assert(r1[5] == r2[5] && r1[6] == r2[6]);
    assert(r1[5] == (48 + (t1.month as int) / 10) as u8 && r1[6] == (48 + (t1.month as int)
        % 10) as u8);
    assert(r2[5] == (48 + (t2.month as int) / 10) as u8 && r2[6] == (48 + (t2.month as int)
        % 10) as u8);
    lemma_two_digits_injective(t1.month as int, t2.month as int);
    assert(r1[8] == r2[8] && r1[9] == r2[9]);
    assert(r1[8] == (48 + (t1.day as int) / 10) as u8 && r1[9] == (48 + (t1.day as int) % 10) as u8);
    assert(r2[8] == (48 + (t2.day as int) / 10) as u8 && r2[9] == (48 + (t2.day as int) % 10) as u8);
    lemma_two_digits_injective(t1.day as int, t2.day as int);
    assert(r1[11] == r2[11] && r1[12] == r2[12]);
    assert(r1[11] == (48 + (t1.hour as int) / 10) as u8 && r1[12] == (48 + (t1.hour as int)
        % 10) as u8);
    assert(r2[11] == (48 + (t2.hour as int) / 10) as u8 && r2[12] == (48 + (t2.hour as int)
        % 10) as u8);
    lemma_two_digits_injective(t1.hour as int, t2.hour as int);
    assert(r1[14] == r2[14] && r1[15] == r2[15]);
    assert(r1[14] == (48 + (t1.minute as int) / 10) as u8 && r1[15] == (48 + (t1.minute as int)
        % 10) as u8);
    assert(r2[14] == (48 + (t2.minute as int) / 10) as u8 && r2[15] == (48 + (t2.minute as int)
        % 10) as u8);
    lemma_two_digits_injective(t1.minute as int, t2.minute as int);
    assert(r1[17] == r2[17] && r1[18] == r2[18]);
    assert(r1[17] == (48 + (t1.second as int) / 10) as u8 && r1[18] == (48 + (t1.second as int)
        % 10) as u8);
    assert(r2[17] == (48 + (t2.second as int) / 10) as u8 && r2[18] == (48 + (t2.second as int)
        % 10) as u8);
    lemma_two_digits_injective(t1.second as int, t2.second as int);
}

/// A four-digit number is the weighted sum of its digits.
proof fn lemma_year_digits(y: int)
    requires
        0 <= y <= 9999,
    ensures
        y == 1000 * (y / 1000) + 100 * ((y / 100) % 10) + 10 * ((y / 10) % 10) + y % 10,
        0 <= y / 1000 <= 9,
        0 <= (y / 100) % 10 <= 9,
        0 <= (y / 10) % 10 <= 9,
        0 <= y % 10 <= 9,
{
    vstd::arithmetic::div_mod::lemma_fundamental_div_mod(y, 10);
    vstd::arithmetic::div_mod::lemma_fundamental_div_mod(y / 10, 10);
    vstd::arithmetic::div_mod::lemma_fundamental_div_mod(y / 100, 10);
    vstd::arithmetic::div_mod::lemma_div_denominator(y, 10, 10);
    vstd::arithmetic::div_mod::lemma_div_denominator(y, 100, 10);
    assert(10 * 10 == 100);
    assert(100 * 10 == 1000);
}

/// The hex spelling of a hash is injective.
proof fn lemma_hash_hex_injective(h1: Seq<u8>, h2: Seq<u8>)
    requires
        h1.len() == h2.len(),
        hash_hex_bytes(h1) == hash_hex_bytes(h2),
    ensures
        h1 == h2,
{
    assert forall|i: int| 0 <= i < h1.len() implies h1[i] == h2[i] by {
        assert(hash_hex_bytes(h1)[2 * i] == hash_hex_bytes(h2)[2 * i]);
        assert(hash_hex_bytes(h1)[2 * i + 1] == hash_hex_bytes(h2)[2 * i + 1]);
        assert(hash_hex_bytes(h1)[2 * i] == crate::sut::hex_digit((h1[i] / 16) as int));
        assert(hash_hex_bytes(h2)[2 * i] == crate::sut::hex_digit((h2[i] / 16) as int));
        assert(hash_hex_bytes(h1)[2 * i + 1] == crate::sut::hex_digit((h1[i] % 16) as int));
        assert(hash_hex_bytes(h2)[2 * i + 1] == crate::sut::hex_digit((h2[i] % 16) as int));
        lemma_hex_digit_injective((h1[i] / 16) as int, (h2[i] / 16) as int);
        lemma_hex_digit_injective((h1[i] % 16) as int, (h2[i] % 16) as int);
        assert(h1[i] == 16 * (h1[i] / 16) + h1[i] % 16);
        assert(h2[i] == 16 * (h2[i] / 16) + h2[i] % 16);
    }
    assert(h1 =~= h2);
}

proof fn lemma_hex_digit_injective(a: int, b: int)
    requires
        0 <= a <= 15,
        0 <= b <= 15,
        crate::sut::hex_digit(a) == crate::sut::hex_digit(b),
    ensures
        a == b,
{
}

/// Law: a canonical log line determines its entry. Two well-formed entries
/// with the same spelling have the same id, the same time, and the same
/// contents (with matching revisions), so replaying a written log recovers
/// exactly the entries that produced it.
#[verifier::rlimit(100)]
pub proof fn lemma_entry_json_injective(e1: BuildLogEntry, e2: BuildLogEntry)
    requires
        e1.wf(),
        e2.wf(),
        entry_json_bytes(e1) == entry_json_bytes(e2),
    ensures
        e1.id == e2.id,
        e1.time == e2.time,
        match (e1.contents, e2.contents) {
            (BuildLogContents::Create { rev: r1 }, BuildLogContents::Create { rev: r2 }) => crate::sut::rev_matches(
                r1,
                r2,
            ),
            (
                BuildLogContents::Complete { success: s1 },
                BuildLogContents::Complete { success: s2 },
            ) => s1 == s2,
            (BuildLogContents::Use, BuildLogContents::Use) => true,
            (BuildLogContents::ClearFail, BuildLogContents::ClearFail) => true,
            _ => false,
        },
{
    let w1 = entry_json_bytes(e1);
    let w2 = entry_json_bytes(e2);
    let d1 = dec_bytes(e1.id as int);
    let d2 = dec_bytes(e2.id as int);
    let t1 = crate::timefmt::rfc3339_bytes(e1.time);
    let t2 = crate::timefmt::rfc3339_bytes(e2.time);
    let c1 = contents_json_bytes(e1.contents);
    let c2 = contents_json_bytes(e2.contents);
    lemma_dec_bytes_chars(e1.id as int);
    lemma_dec_bytes_chars(e2.id as int);
    crate::timefmt::lemma_rfc3339_ascii(e1.time);
    crate::timefmt::lemma_rfc3339_ascii(e2.time);
    // strip the common head and split at the id digits
    let tail1 = seq![44u8, 34u8, 116u8, 105u8, 109u8, 101u8, 34u8, 58u8, 34u8] + t1 + seq![
        34u8, 44u8, 34u8, 116u8, 121u8, 112u8, 101u8, 34u8, 58u8, 34u8,
    ] + c1 + seq![125u8];
    let tail2 = seq![44u8, 34u8, 116u8, 105u8, 109u8, 101u8, 34u8, 58u8, 34u8] + t2 + seq![
        34u8, 44u8, 34u8, 116u8, 121u8, 112u8, 101u8, 34u8, 58u8, 34u8,
    ] + c2 + seq![125u8];
    assert(w1.skip(6) =~= d1 + tail1);
    assert(w2.skip(6) =~= d2 + tail2);
    assert(tail1[0] == 44 && tail2[0] == 44);
    lemma_digit_run_split(d1, tail1, d2, tail2);
    lemma_dec_bytes_injective(e1.id as int, e2.id as int);
    // the time occupies a fixed window of the equal tails
    assert(t1 =~= tail1.subrange(9, 29));
    assert(t2 =~= tail2.subrange(9, 29));
    lemma_rfc3339_injective(e1.time, e2.time);
    // the contents follow at a fixed offset, up to the closing brace
    assert(c1 =~= tail1.subrange(39, tail1.len() - 1));
    assert(c2 =~= tail2.subrange(39, tail2.len() - 1));
    assert(c1 == c2);
    lemma_contents_json_injective(e1.contents, e2.contents);
}

/// The tag and payload spelling determines the contents.
#[verifier::rlimit(100)]
proof fn lemma_contents_json_injective(c1: BuildLogContents, c2: BuildLogContents)
    requires
        (c1 matches BuildLogContents::Create { rev } ==> rev.wf()
            && rev.submodule_overrides@.len() == 0),
        (c2 matches BuildLogContents::Create { rev } ==> rev.wf()
            && rev.submodule_overrides@.len() == 0),
        contents_json_bytes(c1) == contents_json_bytes(c2),
    ensures
        match (c1, c2) {
            (BuildLogContents::Create { rev: r1 }, BuildLogContents::Create { rev: r2 }) => crate::sut::rev_matches(
                r1,
                r2,
            ),
            (
                BuildLogContents::Complete { success: s1 },
                BuildLogContents::Complete { success: s2 },
            ) => s1 == s2,
            (BuildLogContents::Use, BuildLogContents::Use) => true,
            (BuildLogContents::ClearFail, BuildLogContents::ClearFail) => true,
            _ => false,
        },
{
    let b1 = contents_json_bytes(c1);
    let b2 = contents_json_bytes(c2);
    // the first two bytes identify the tag
    assert(b1.len() >= 4 && b2.len() >= 4);
    assert(b1[0] == b2[0] && b1[1] == b2[1]);
    match (c1, c2) {
        (BuildLogContents::Create { rev: r1 }, BuildLogContents::Create { rev: r2 }) => {
            let hx1 = hash_hex_bytes(r1.top.spec_hash());
            let hx2 = hash_hex_bytes(r2.top.spec_hash());
            assert(hx1.len() == 40 && hx2.len() == 40);
            assert(hx1 =~= b1.subrange(26, 66));
            assert(hx2 =~= b2.subrange(26, 66));
            lemma_hash_hex_injective(r1.top.spec_hash(), r2.top.spec_hash());
        },
        (BuildLogContents::Complete { success: s1 }, BuildLogContents::Complete { success: s2 }) => {
            if s1 != s2 {
                assert(b1.len() != b2.len());
            }
        },
        (BuildLogContents::Use, BuildLogContents::Use) => {},
        (BuildLogContents::ClearFail, BuildLogContents::ClearFail) => {},
        _ => {
            assert(false);
        },
    }
}


/// The value of a big-endian run of decimal digit bytes.
pub open spec fn digits_val(ds: Seq<u8>) -> int
    decreases ds.len(),
{
    if ds.len() == 0 {
        0
    } else {
        10 * digits_val(ds.drop_last()) + (ds.last() - 48)
    }
}

pub open spec fn is_digit(b: u8) -> bool {
    48 <= b <= 57
}

proof fn lemma_digits_val_nonneg(ds: Seq<u8>)
    requires
        forall|i: int| 0 <= i < ds.len() ==> is_digit(#[trigger] ds[i]),
    ensures
        digits_val(ds) >= 0,
    decreases ds.len(),
{
    if ds.len() > 0 {
        assert forall|i: int| 0 <= i < ds.drop_last().len() implies is_digit(
            #[trigger] ds.drop_last()[i],
        ) by {
            assert(ds.drop_last()[i] == ds[i]);
        }
        lemma_digits_val_nonneg(ds.drop_last());
    }
}

/// `pow10(k)` = 10^k, for small `k`.
pub open spec fn pow10(k: int) -> int
    decreases k,
{
    if k <= 0 {
        1
    } else {
        10 * pow10(k - 1)
    }
}

proof fn lemma_digits_val_upper(ds: Seq<u8>)
    requires
        forall|i: int| 0 <= i < ds.len() ==> is_digit(#[trigger] ds[i]),
    ensures
        0 <= digits_val(ds) < pow10(ds.len() as int),
    decreases ds.len(),
{
    lemma_digits_val_nonneg(ds);
    if ds.len() > 0 {
        assert forall|i: int| 0 <= i < ds.drop_last().len() implies is_digit(
            #[trigger] ds.drop_last()[i],
        ) by {
            assert(ds.drop_last()[i] == ds[i]);
        }
        lemma_digits_val_upper(ds.drop_last());
    }
}

/// The decimal spelling of `n` evaluates back to `n`.
proof fn lemma_digits_val_dec(n: int)
    requires
        n >= 0,
    ensures
        digits_val(dec_bytes(n)) == n,
    decreases n,
{
    if n <= 9 {
        assert(dec_bytes(n) == seq![(48 + n) as u8]);
        assert(dec_bytes(n).drop_last() =~= Seq::<u8>::empty());
        assert(digits_val(dec_bytes(n).drop_last()) == 0);
        assert(((48 + n) as u8) as int == 48 + n);
    } else {
        assert(dec_bytes(n) == dec_bytes(n / 10).push((48 + n % 10) as u8));
        assert(dec_bytes(n).drop_last() =~= dec_bytes(n / 10));
        lemma_digits_val_dec(n / 10);
        assert(((48 + n % 10) as u8) as int == 48 + n % 10);
        vstd::arithmetic::div_mod::lemma_fundamental_div_mod(n, 10);
    }
}

/// The spelling of `n` has no leading zero unless `n` is zero.
proof fn lemma_dec_no_leading_zero(n: int)
    requires
        n >= 1,
    ensures
        dec_bytes(n)[0] != 48,
    decreases n,
{
    if n <= 9 {
        assert(dec_bytes(n) == seq![(48 + n) as u8]);
    } else {
        assert(dec_bytes(n) == dec_bytes(n / 10).push((48 + n % 10) as u8));
        lemma_dec_bytes_chars(n / 10);
        assert(dec_bytes(n)[0] == dec_bytes(n / 10)[0]);
        lemma_dec_no_leading_zero(n / 10);
    }
}

/// A digit run without a leading zero is the spelling of its value.
proof fn lemma_digits_canonical(ds: Seq<u8>)
    requires
        ds.len() >= 1,
        forall|i: int| 0 <= i < ds.len() ==> is_digit(#[trigger] ds[i]),
        ds.len() == 1 || ds[0] != 48,
    ensures
        dec_bytes(digits_val(ds)) == ds,
    decreases ds.len(),
{
    lemma_digits_val_nonneg(ds);
    let v = digits_val(ds);
    if ds.len() == 1 {
        assert(ds.drop_last() =~= Seq::<u8>::empty());
        assert(digits_val(ds.drop_last()) == 0);
        assert(ds.last() == ds[0]);
        assert(v == ds[0] - 48);
        assert(dec_bytes(v) == seq![(48 + v) as u8]);
        assert(dec_bytes(v) =~= ds);
    } else {
        let head = ds.drop_last();
        assert forall|i: int| 0 <= i < head.len() implies is_digit(#[trigger] head[i]) by {
            assert(head[i] == ds[i]);
        }
        lemma_digits_canonical(head);
        lemma_digits_val_nonneg(head);
        assert(head[0] == ds[0]);
        assert(head[0] != 48);
        // a digit run starting above zero has positive value
        assert(digits_val(head) >= 1) by {
            lemma_digits_head_positive(head);
        }
        assert(v == 10 * digits_val(head) + (ds.last() - 48));
        assert(v > 9);
        vstd::arithmetic::div_mod::lemma_fundamental_div_mod(v, 10);
        assert(0 <= ds.last() - 48 <= 9);
        assert(v / 10 == digits_val(head) && v % 10 == ds.last() - 48) by {
            assert(10 * (v / 10) + v % 10 == 10 * digits_val(head) + (ds.last() - 48));
            assert(0 <= v % 10 < 10);
        }
        assert(dec_bytes(v) == dec_bytes(v / 10).push((48 + v % 10) as u8));
        assert(dec_bytes(v) =~= ds);
    }
}

/// A digit run not starting with zero has value at least one.
proof fn lemma_digits_head_positive(ds: Seq<u8>)
    requires
        ds.len() >= 1,
        forall|i: int| 0 <= i < ds.len() ==> is_digit(#[trigger] ds[i]),
        ds[0] != 48,
    ensures
        digits_val(ds) >= 1,
    decreases ds.len(),
{
    lemma_digits_val_nonneg(ds);
    if ds.len() == 1 {
        assert(ds.drop_last() =~= Seq::<u8>::empty());
    } else {
        let head = ds.drop_last();
        assert forall|i: int| 0 <= i < head.len() implies is_digit(#[trigger] head[i]) by {
            assert(head[i] == ds[i]);
        }
        assert(head[0] == ds[0]);
        lemma_digits_head_positive(head);
    }
}

/// A prefix of a digit run evaluates to at most the whole run.
proof fn lemma_digits_val_take_le(ds: Seq<u8>, i: int)
    requires
        forall|j: int| 0 <= j < ds.len() ==> is_digit(#[trigger] ds[j]),
        0 <= i <= ds.len(),
    ensures
        0 <= digits_val(ds.take(i)) <= digits_val(ds),
    decreases ds.len() - i,
{
    assert forall|j: int| 0 <= j < ds.take(i).len() implies is_digit(#[trigger] ds.take(i)[j]) by {
        assert(ds.take(i)[j] == ds[j]);
    }
    lemma_digits_val_nonneg(ds.take(i));
    if i == ds.len() {
        assert(ds.take(i) =~= ds);
    } else {
        lemma_digits_val_take_le(ds, i + 1);
        assert(ds.take(i + 1).drop_last() =~= ds.take(i));
        assert(ds.take(i + 1).last() == ds[i]);
        assert(digits_val(ds.take(i + 1)) == 10 * digits_val(ds.take(i)) + (ds[i] - 48));
    }
}

/// A canonical decimal run for `n` sits at `pos`: the spelling of `n`
/// followed by the end of input or a non-digit.
pub open spec fn canonical_dec_at(b: Seq<u8>, pos: int, n: u64) -> bool {
    &&& 0 <= pos
    &&& pos + dec_bytes(n as int).len() <= b.len()
    &&& b.subrange(pos, pos + dec_bytes(n as int).len()) == dec_bytes(n as int)
    &&& (pos + dec_bytes(n as int).len() == b.len() || !is_digit(
        b[pos + dec_bytes(n as int).len()],
    ))
}

} // verus!
