use vstd::prelude::*;
use vstd::utf8::{valid_utf8, decode_utf8, pop_first_scalar, codepoint_width_1};

verus! {

/// The characters of an all-ASCII byte sequence, byte for byte.
pub open spec fn ascii_chars(s: Seq<u8>) -> Seq<char> {
    Seq::new(s.len(), |i: int| s[i] as char)
}

pub open spec fn all_ascii(s: Seq<u8>) -> bool {
    forall|i: int| 0 <= i < s.len() ==> (#[trigger] s[i]) < 0x80
}

/// ASCII bytes are valid UTF-8 and decode to themselves, character by
/// character.
pub proof fn lemma_ascii_decode(s: Seq<u8>)
    requires
        all_ascii(s),
    ensures
        valid_utf8(s),
        decode_utf8(s) == ascii_chars(s),
    decreases s.len(),
{
    if s.len() == 0 {
        assert(decode_utf8(s) =~= ascii_chars(s));
    } else {
        assert(s[0] < 0x80);
        assert(vstd::utf8::is_leading_byte_width_1(s[0]));
        let b = s[0];
        assert(b & 0x7F == b) by (bit_vector)
            requires
                b < 0x80,
        ;
        assert(codepoint_width_1(s[0]) == s[0] as u32);
        assert(vstd::utf8::valid_first_scalar(s));
        assert(pop_first_scalar(s) =~= s.drop_first());
        assert(all_ascii(s.drop_first())) by {
            assert forall|i: int| 0 <= i < s.drop_first().len() implies (
            #[trigger] s.drop_first()[i]) < 0x80 by {
                assert(s.drop_first()[i] == s[i + 1]);
            }
        }
        lemma_ascii_decode(s.drop_first());
        assert(vstd::utf8::decode_first_scalar(s) == s[0] as u32);
        assert((s[0] as u32) as char == s[0] as char);
        assert(decode_utf8(s) =~= ascii_chars(s));
    }
}

/// Turn a vector of ASCII bytes into the string spelling those characters.
pub fn ascii_to_string(bytes: &Vec<u8>) -> (r: String)
    requires
        all_ascii(bytes@),
    ensures
        r@ == ascii_chars(bytes@),
{
    proof {
        lemma_ascii_decode(bytes@);
    }
    match crate::string_pool::try_str_from_utf8(bytes.as_slice()) {
        Some(s) => {
            proof {
                vstd::utf8::encode_utf8_decode_utf8(s@);
            }
            String::from_str(s)
        },
        None => {
            proof {
                assert(false);
            }
            String::new()
        },
    }
}

/// The decimal digit characters of `n`, most significant first.
pub open spec fn dec_chars(n: int) -> Seq<char>
    decreases n,
{
    if n <= 9 {
        seq![(48 + (if n >= 0 {
            n
        } else {
            0
        })) as u8 as char]
    } else {
        dec_chars(n / 10).push((48 + n % 10) as u8 as char)
    }
}

/// The decimal digit bytes of `n`, most significant first.
pub open spec fn dec_bytes(n: int) -> Seq<u8>
    decreases n,
{
    if n <= 9 {
        seq![(48 + (if n >= 0 {
            n
        } else {
            0
        })) as u8]
    } else {
        dec_bytes(n / 10).push((48 + n % 10) as u8)
    }
}

pub proof fn lemma_dec_bytes_chars(n: int)
    requires
        n >= 0,
    ensures
        all_ascii(dec_bytes(n)),
        ascii_chars(dec_bytes(n)) == dec_chars(n),
        dec_bytes(n).len() >= 1,
        forall|i: int| 0 <= i < dec_bytes(n).len() ==> 48 <= #[trigger] dec_bytes(n)[i] <= 57,
    decreases n,
{
    if n <= 9 {
        assert(ascii_chars(dec_bytes(n)) =~= dec_chars(n));
    } else {
        lemma_dec_bytes_chars(n / 10);
        assert(0 <= n % 10 <= 9);
        assert(ascii_chars(dec_bytes(n)) =~= dec_chars(n));
    }
}

/// Append the decimal digits of `n` to `out`.
pub fn push_dec_u64(out: &mut Vec<u8>, n: u64)
    ensures
        final(out)@ == old(out)@ + dec_bytes(n as int),
{
    let ghost pre = old(out)@;
    // collect the digits in reverse, then append them reversed
    let mut rev: Vec<u8> = Vec::new();
    let mut m = n;
    proof {
        assert(rev@.reverse() =~= Seq::<u8>::empty());
        assert(dec_bytes(n as int) =~= dec_bytes(n as int) + rev@.reverse());
    }
    loop
        invariant_except_break
            0 <= m <= n,
            dec_bytes(n as int) == dec_bytes(m as int) + rev@.reverse(),
        ensures
            dec_bytes(n as int) == rev@.reverse(),
        decreases m,
    {
        let ghost rev0 = rev@;
        if m <= 9 {
            rev.push(48 + m as u8);
            proof {
                assert(rev@.reverse() =~= seq![(48 + m as int) as u8] + rev0.reverse());
                assert(dec_bytes(m as int) =~= seq![(48 + m as int) as u8]);
                assert(dec_bytes(n as int) =~= rev@.reverse());
            }
            break;
        }
        let d = (m % 10) as u8;
        rev.push(48 + d);
        proof {
            assert(rev@.reverse() =~= seq![(48 + (m as int) % 10) as u8] + rev0.reverse());
            assert(dec_bytes(m as int) == dec_bytes((m as int) / 10).push(
                (48 + (m as int) % 10) as u8,
            ));
            assert(dec_bytes((m as int) / 10) + rev@.reverse() =~= dec_bytes(m as int)
                + rev0.reverse());
        }
        m = m / 10;
    }
    let k = rev.len();
    let mut j: usize = k;
    proof {
        assert(rev@.subrange(k as int, k as int).reverse() =~= Seq::<u8>::empty());
        assert(out@ =~= pre + rev@.subrange(k as int, k as int).reverse());
    }
    while j > 0
        invariant
            k == rev@.len(),
            0 <= j <= k,
            pre == old(out)@,
            dec_bytes(n as int) == rev@.reverse(),
            out@ == pre + rev@.subrange(j as int, k as int).reverse(),
        decreases j,
    {
        j = j - 1;
        out.push(rev[j]);
        proof {
            assert(rev@.subrange(j as int, k as int).reverse() =~= rev@.subrange(
                j + 1,
                k as int,
            ).reverse().push(rev@[j as int]));
            assert(out@ =~= pre + rev@.subrange(j as int, k as int).reverse());
        }
    }
    proof {
        assert(rev@.subrange(0, k as int) =~= rev@);
        assert(out@ =~= pre + dec_bytes(n as int));
    }
}

} // verus!
