//! Persisted-configuration layout and small pure helpers shared by the
//! provisioning and connection components.

use crate::coap::split_bytes;
use crate::light::{digits_value, is_digit, lemma_digits_monotone};
use vstd::prelude::*;
use vstd::string::StringSliceAdditionalSpecFns;

verus! {

/// Flash address of the 4-byte configuration flag.
pub const CONFIG_ADDR: u32 = 0x9000;

/// Flash address of the 128-byte, NUL-padded SSID field.
pub const SSID_ADDR: u32 = 0x9080;

/// Flash address of the 128-byte, NUL-padded password field.
pub const PASS_ADDR: u32 = 0x9100;

/// Flash address of the 36-byte device id (UUID text).
pub const ID_ADDR: u32 = 0x9180;

/// Flash address of the 344-byte device secret.
pub const SECRET_ADDR: u32 = 0x91a4;

/// Length of each credential field buffer.
pub const CREDENTIAL_LEN: usize = 128;

/// The configuration flag value that marks the device as paired.
pub open spec fn spec_configured_flag() -> Seq<u8> {
    seq![0u8, 0u8, 0u8, 0u8]
}

/// A device is configured exactly when its configuration flag is all zero.
pub open spec fn spec_is_configured(flag: Seq<u8>) -> bool {
    flag == spec_configured_flag()
}

/// The configuration flag value of an unconfigured device, also written
/// back by a factory reset.
pub open spec fn spec_unconfigured_flag() -> Seq<u8> {
    seq![255u8, 255u8, 255u8, 255u8]
}

/// The flag bytes that mark the device as paired; written once the
/// provisioning handshake completes.
pub fn configured_flag_bytes() -> (r: [u8; 4])
    ensures
        r@ == spec_configured_flag(),
        spec_is_configured(r@),
{
    let r = [0u8, 0u8, 0u8, 0u8];
    proof {
        assert(r@ =~= spec_configured_flag());
    }
    r
}

/// The flag bytes that a factory reset writes back: afterwards the device
/// is no longer configured and startup provisions again.
pub fn unconfigured_flag_bytes() -> (r: [u8; 4])
    ensures
        r@ == spec_unconfigured_flag(),
        !spec_is_configured(r@),
{
    let r = [255u8, 255u8, 255u8, 255u8];
    proof {
        assert(r@ =~= spec_unconfigured_flag());
        assert(r@[0] != spec_configured_flag()[0]);
    }
    r
}

/// Decides from the 4 configuration-flag bytes (as read from flash at
/// [`CONFIG_ADDR`]) whether the device has already been paired.
pub fn is_device_configured(config_bytes: &[u8; 4]) -> (configured: bool)
    ensures
        configured == spec_is_configured(config_bytes@),
{
    let r = config_bytes[0] == 0 && config_bytes[1] == 0 && config_bytes[2] == 0
        && config_bytes[3] == 0;
    proof {
        if r {
            assert(config_bytes@ =~= spec_configured_flag());
        }
    }
    r
}

/// Every byte is an ASCII digit.
pub open spec fn all_digits(s: Seq<u8>) -> bool {
    forall|k: int| 0 <= k < s.len() ==> is_digit(#[trigger] s[k])
}

/// One dotted-quad segment as `u8::from_str` reads it: an optional plus
/// sign, then at least one digit, valued at most 255.
pub open spec fn spec_parse_u8(seg: Seq<u8>) -> Option<u8> {
    let body = if seg.len() > 0 && seg[0] == 43 {
        seg.drop_first()
    } else {
        seg
    };
    if body.len() == 0 || !all_digits(body) {
        None
    } else if digits_value(body, body.len() as int) <= 255 {
        Some(digits_value(body, body.len() as int) as u8)
    } else {
        None
    }
}

/// A dotted-quad address: exactly four segments split on `.`, each a valid
/// byte value.
pub open spec fn spec_actual_ip(s: Seq<u8>) -> Option<Seq<u8>> {
    let segs = split_bytes(s, 46);
    if segs.len() == 4 {
        match (
            spec_parse_u8(segs[0]),
            spec_parse_u8(segs[1]),
            spec_parse_u8(segs[2]),
            spec_parse_u8(segs[3]),
        ) {
            (Some(a), Some(b), Some(c), Some(d)) => Some(seq![a, b, c, d]),
            _ => None,
        }
    } else {
        None
    }
}

fn parse_u8_seg(seg: &[u8]) -> (r: Option<u8>)
    ensures
        r == spec_parse_u8(seg@),
{
    let slen = seg.len();
    assert(slen == seg@.len());
    let mut p: usize = 0;
    if seg.len() > 0 && seg[0] == 43 {
        p = 1;
    }
    let ghost body = seg@.skip(p as int);
    proof {
        if p == 0 {
            assert(body =~= seg@);
        } else {
            assert(body =~= seg@.drop_first());
        }
    }
    if p >= seg.len() {
        return None;
    }
    let mut v: u32 = 0;
    let mut i = p;
    proof {
        assert(digits_value(body, 0) == 0);
    }
    while i < seg.len()
        invariant
            p <= i <= seg@.len(),
            p <= 1,
            seg@.len() <= usize::MAX,
            body == seg@.skip(p as int),
            body.len() > 0,
            body == (if seg@.len() > 0 && seg@[0] == 43 {
                seg@.drop_first()
            } else {
                seg@
            }),
            forall|k: int| 0 <= k < i - p ==> is_digit(#[trigger] body[k]),
            v == digits_value(body, i - p),
            0 <= v <= 255,
        decreases seg@.len() - i,
    {
        let b = seg[i];
        proof {
            assert(body[i - p] == seg@[i as int]);
        }
        if b < 48 || b > 57 {
            proof {
                assert(!is_digit(body[i - p]));
                assert(!all_digits(body));
            }
            return None;
        }
        v = v * 10 + (b - 48) as u32;
        if v > 255 {
            proof {
                if all_digits(body) {
                    lemma_digits_monotone(body, i + 1 - p, body.len() as int);
                }
            }
            return None;
        }
        i = i + 1;
    }
    proof {
        assert(all_digits(body));
        assert(v == digits_value(body, body.len() as int));
    }
    Some(v as u8)
}

/// Reads a dotted-quad IPv4 literal (as found in the build environment)
/// into its four bytes; `None` is a malformed address, on which the caller
/// gives up as loudly as it sees fit.
pub fn actual_ip(ip: &str) -> (r: Option<[u8; 4]>)
    ensures
        (match spec_actual_ip(ip.spec_bytes()) {
            Some(q) => r matches Some(a) && a@ == q,
            None => r is None,
        }),
{
    let bytes = ip.as_bytes();
    let mut segs: Vec<Vec<u8>> = Vec::new();
    let mut cur: Vec<u8> = Vec::new();
    let mut i: usize = 0;
    proof {
        assert(bytes@.take(0) =~= Seq::<u8>::empty());
        assert(seqs_of(segs@) =~= Seq::<Seq<u8>>::empty());
    }
    while i < bytes.len()
        invariant
            0 <= i <= bytes@.len(),
            split_bytes(bytes@.take(i as int), 46).len() >= 1,
            cur@ == split_bytes(bytes@.take(i as int), 46).last(),
            seqs_of(segs@) == split_bytes(bytes@.take(i as int), 46).drop_last(),
        decreases bytes@.len() - i,
    {
        let ghost segs0 = split_bytes(bytes@.take(i as int), 46);
        let ghost sm0 = seqs_of(segs@);
        let ghost cur0 = cur@;
        let b = bytes[i];
        if b == 46 {
            segs.push(cur);
            cur = Vec::new();
        } else {
            cur.push(b);
        }
        proof {
            crate::coap::lemma_split_bytes_bounds(bytes@.take(i as int), 46);
            assert(bytes@.take(i + 1).drop_last() =~= bytes@.take(i as int));
            assert(bytes@.take(i + 1).last() == b);
            let segs1 = split_bytes(bytes@.take(i + 1), 46);
            if b == 46 {
                assert(segs1 == segs0.push(seq![]));
                assert(seqs_of(segs@) =~= sm0.push(cur0));
                assert(seqs_of(segs@) =~= segs1.drop_last());
            } else {
                assert(segs1 == segs0.update(segs0.len() - 1, segs0.last().push(b)));
                assert(segs1.drop_last() =~= segs0.drop_last());
                assert(seqs_of(segs@) =~= segs1.drop_last());
            }
        }
        i = i + 1;
    }
    proof {
        assert(bytes@.take(bytes@.len() as int) =~= bytes@);
    }
    let ghost sm_final = seqs_of(segs@);
    let ghost cur_final = cur@;
    segs.push(cur);
    proof {
        crate::coap::lemma_split_bytes_bounds(bytes@, 46);
        assert(seqs_of(segs@) =~= sm_final.push(cur_final));
        assert(seqs_of(segs@) =~= split_bytes(bytes@, 46));
    }
    if segs.len() != 4 {
        return None;
    }
    let a0 = match parse_u8_seg(segs[0].as_slice()) {
        Some(v) => v,
        None => {
            return None;
        },
    };
    let a1 = match parse_u8_seg(segs[1].as_slice()) {
        Some(v) => v,
        None => {
            return None;
        },
    };
    let a2 = match parse_u8_seg(segs[2].as_slice()) {
        Some(v) => v,
        None => {
            return None;
        },
    };
    let a3 = match parse_u8_seg(segs[3].as_slice()) {
        Some(v) => v,
        None => {
            return None;
        },
    };
    let a = [a0, a1, a2, a3];
    proof {
        assert(seqs_of(segs@)[0] == segs@[0]@);
        assert(seqs_of(segs@)[1] == segs@[1]@);
        assert(seqs_of(segs@)[2] == segs@[2]@);
        assert(seqs_of(segs@)[3] == segs@[3]@);
        assert(a@ =~= spec_actual_ip(ip.spec_bytes()).unwrap());
    }
    Some(a)
}

/// The byte sequences held by a list of byte vectors.
pub open spec fn seqs_of(vs: Seq<Vec<u8>>) -> Seq<Seq<u8>> {
    Seq::new(vs.len(), |i: int| vs[i]@)
}

} // verus!
