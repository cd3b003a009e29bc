//! Binary frame codec of the datagram protocol: message type, code, message
//! id, token, delta-encoded options and payload, with a proved encode/decode
//! round trip for every valid packet.

use crate::errors::{DecodeError, EncodeError};
use vstd::prelude::*;

verus! {

/// Message types of the protocol header.
#[derive(Clone, Copy, PartialEq, Eq, Structural, Debug)]
pub enum MessageType {
    Confirmable,
    NonConfirmable,
    Acknowledgement,
    Reset,
}

/// The code of an empty message (used for acknowledgements).
pub const EMPTY_CODE: u8 = 0;

/// The code of a GET request (class 0, detail 1).
pub const GET_CODE: u8 = 1;

/// Option number of the Observe option.
pub const OBSERVE_OPTION: u16 = 6;

/// Option number of a URI-Path segment option.
pub const URI_PATH_OPTION: u16 = 11;

/// Option number of the Content-Format option.
pub const CONTENT_FORMAT_OPTION: u16 = 12;

/// The byte that separates the options from a non-empty payload.
pub const PAYLOAD_MARKER: u8 = 255;

/// Longest value expressible by the option length encoding (nibble 14 plus a
/// two-byte extension).
pub const MAX_OPTION_LEN: usize = 65804;

/// The two type bits of the header byte.
pub open spec fn type_bits(t: MessageType) -> u8 {
    match t {
        MessageType::Confirmable => 0,
        MessageType::NonConfirmable => 1,
        MessageType::Acknowledgement => 2,
        MessageType::Reset => 3,
    }
}

/// The message type named by two header bits.
pub open spec fn bits_type(b: u8) -> MessageType {
    if b == 0 {
        MessageType::Confirmable
    } else if b == 1 {
        MessageType::NonConfirmable
    } else if b == 2 {
        MessageType::Acknowledgement
    } else {
        MessageType::Reset
    }
}

/// Mathematical content of a packet.
#[verifier::ext_equal]
pub struct PacketModel {
    pub message_type: MessageType,
    pub code: u8,
    pub message_id: u16,
    pub token: Seq<u8>,
    pub options: Seq<(u16, Seq<u8>)>,
    pub payload: Seq<u8>,
}

/// A protocol packet. Options are an ordered list of (option number, value)
/// pairs; equal numbers keep their relative order on the wire.
pub struct Packet {
    pub message_type: MessageType,
    pub code: u8,
    pub message_id: u16,
    pub token: Vec<u8>,
    pub options: Vec<(u16, Vec<u8>)>,
    pub payload: Vec<u8>,
}

/// The mathematical content of an executable option list.
pub open spec fn options_model(opts: Seq<(u16, Vec<u8>)>) -> Seq<(u16, Seq<u8>)> {
    Seq::new(opts.len(), |i: int| (opts[i].0, opts[i].1@))
}

impl View for Packet {
    type V = PacketModel;

    open spec fn view(&self) -> PacketModel {
        PacketModel {
            message_type: self.message_type,
            code: self.code,
            message_id: self.message_id,
            token: self.token@,
            options: options_model(self.options@),
            payload: self.payload@,
        }
    }
}

/// Option numbers never decrease along the list.
pub open spec fn options_sorted(opts: Seq<(u16, Seq<u8>)>) -> bool {
    forall|i: int, j: int| 0 <= i < j < opts.len() ==> opts[i].0 <= opts[j].0
}

/// Every option value fits the length encoding.
pub open spec fn options_fit(opts: Seq<(u16, Seq<u8>)>) -> bool {
    forall|i: int| 0 <= i < opts.len() ==> (#[trigger] opts[i]).1.len() <= MAX_OPTION_LEN
}

/// What the wire format can carry: a token of at most eight bytes, options
/// in non-decreasing number order, and option values within the size limit.
pub open spec fn valid_packet(p: PacketModel) -> bool {
    &&& p.token.len() <= 8
    &&& options_sorted(p.options)
    &&& options_fit(p.options)
}

/// The nibble of the delta/length encoding of `n`.
pub open spec fn ext_nibble(n: int) -> u8 {
    if n < 13 {
        n as u8
    } else if n < 269 {
        13
    } else {
        14
    }
}

/// The extension bytes of the delta/length encoding of `n`.
pub open spec fn ext_bytes(n: int) -> Seq<u8> {
    if n < 13 {
        seq![]
    } else if n < 269 {
        seq![(n - 13) as u8]
    } else {
        seq![(((n - 269) / 256) as u8), (((n - 269) % 256) as u8)]
    }
}

/// How many extension bytes a nibble announces.
pub open spec fn ext_len(nibble: u8) -> int {
    if nibble < 13 {
        0
    } else if nibble == 13 {
        1
    } else {
        2
    }
}

/// The value encoded by a nibble and the extension bytes at the head of `s`.
pub open spec fn ext_decode(nibble: u8, s: Seq<u8>) -> int {
    if nibble < 13 {
        nibble as int
    } else if nibble == 13 {
        13 + s[0]
    } else {
        269 + 256 * s[0] + s[1]
    }
}

/// One encoded option: nibble byte, delta extension, length extension, value.
pub open spec fn encode_one_option(delta: int, val: Seq<u8>) -> Seq<u8> {
    seq![(ext_nibble(delta) * 16 + ext_nibble(val.len() as int)) as u8] + ext_bytes(delta)
        + ext_bytes(val.len() as int) + val
}

/// The encoded option list, deltas taken against `prev`.
pub open spec fn encode_options(opts: Seq<(u16, Seq<u8>)>, prev: int) -> Seq<u8>
    decreases opts.len(),
{
    if opts.len() == 0 {
        seq![]
    } else {
        encode_one_option(opts[0].0 - prev, opts[0].1) + encode_options(
            opts.drop_first(),
            opts[0].0 as int,
        )
    }
}

/// The payload section: a marker byte before a non-empty payload, nothing
/// for an empty one.
pub open spec fn encode_payload_section(payload: Seq<u8>) -> Seq<u8> {
    if payload.len() == 0 {
        seq![]
    } else {
        seq![PAYLOAD_MARKER] + payload
    }
}

/// The deterministic byte layout of a valid packet: version 1, type bits and
/// token length in the first byte, then code, message id (big endian),
/// token, options and payload section.
pub open spec fn spec_encode(p: PacketModel) -> Seq<u8> {
    seq![
        (64 + type_bits(p.message_type) * 16 + p.token.len()) as u8,
        p.code,
        (p.message_id / 256) as u8,
        (p.message_id % 256) as u8,
    ] + p.token + encode_options(p.options, 0) + encode_payload_section(p.payload)
}

/// Parses the options section and payload, with `prev` the running option
/// number. `None` is a malformed section: a reserved nibble, a truncated
/// extension or value, a marker with no payload behind it, or an option
/// number beyond the representable range.
pub open spec fn decode_options(s: Seq<u8>, prev: int) -> Option<(Seq<(u16, Seq<u8>)>, Seq<u8>)>
    decreases s.len(),
{
    if s.len() == 0 {
        Some((seq![], seq![]))
    } else if s[0] == PAYLOAD_MARKER {
        if s.len() == 1 {
            None
        } else {
            Some((seq![], s.drop_first()))
        }
    } else {
        let dn = s[0] / 16;
        let ln = s[0] % 16;
        if dn == 15 || ln == 15 {
            None
        } else {
            let rest = s.drop_first();
            if rest.len() < ext_len(dn) {
                None
            } else {
                let delta = ext_decode(dn, rest);
                let rest2 = rest.skip(ext_len(dn));
                if rest2.len() < ext_len(ln) {
                    None
                } else {
                    let vlen = ext_decode(ln, rest2);
                    let rest3 = rest2.skip(ext_len(ln));
                    let num = prev + delta;
                    if num > 65535 || rest3.len() < vlen {
                        None
                    } else {
                        match decode_options(rest3.skip(vlen), num) {
                            Some((opts, payload)) => Some(
                                (seq![(num as u16, rest3.take(vlen))] + opts, payload),
                            ),
                            None => None,
                        }
                    }
                }
            }
        }
    }
}

/// Parses a whole message: `None` on a short or malformed header, a bad
/// version, an oversized token length, or a malformed options section.
pub open spec fn spec_decode(s: Seq<u8>) -> Option<PacketModel> {
    if s.len() < 4 {
        None
    } else {
        let b0 = s[0];
        let tkl = b0 % 16;
        if b0 / 64 != 1 {
            None
        } else if tkl > 8 {
            None
        } else if s.len() < 4 + tkl {
            None
        } else {
            match decode_options(s.skip(4 + tkl as int), 0) {
                Some((opts, payload)) => Some(
                    PacketModel {
                        message_type: bits_type((b0 / 16) % 4),
                        code: s[1],
                        message_id: (s[2] * 256 + s[3]) as u16,
                        token: s.subrange(4, 4 + tkl as int),
                        options: opts,
                        payload,
                    },
                ),
                None => None,
            }
        }
    }
}

proof fn lemma_ext_round_trip(n: int, tail: Seq<u8>)
    requires
        0 <= n <= MAX_OPTION_LEN,
    ensures
        ext_len(ext_nibble(n)) == ext_bytes(n).len(),
        ext_decode(ext_nibble(n), ext_bytes(n) + tail) == n,
        (ext_bytes(n) + tail).skip(ext_bytes(n).len() as int) == tail,
{
    let eb = ext_bytes(n);
    assert((eb + tail).skip(eb.len() as int) =~= tail);
    if n < 13 {
    } else if n < 269 {
        assert((eb + tail)[0] == (n - 13) as u8);
    } else {
        let m = n - 269;
        let q = m / 256;
        let r = m % 256;
        vstd::arithmetic::div_mod::lemma_fundamental_div_mod(m, 256);
        assert(0 <= r < 256) by {
            vstd::arithmetic::div_mod::lemma_mod_division_less_than_divisor(m, 256);
        }
        assert(m == 256 * q + r);
        assert(0 <= q <= 255);
        assert((eb + tail)[0] == q as u8);
        assert((eb + tail)[1] == r as u8);
        assert(ext_decode(ext_nibble(n), eb + tail) == 269 + 256 * q + r);
    }
}

proof fn lemma_nibble_byte(dn: u8, ln: u8)
    requires
        dn <= 14,
        ln <= 14,
    ensures
        dn * 16 + ln <= 254,
        ((dn * 16 + ln) as u8) / 16 == dn,
        ((dn * 16 + ln) as u8) % 16 == ln,
{
    let b = (dn * 16 + ln) as u8;
    vstd::arithmetic::div_mod::lemma_fundamental_div_mod_converse(
        b as int,
        16,
        dn as int,
        ln as int,
    );
}

/// Parsing inverts printing for the options-and-payload section: decoding
/// the encoding of a sorted, size-respecting option list followed by the
/// payload section recovers exactly that list and payload.
#[verifier::rlimit(100)]
#[verifier::spinoff_prover]
pub proof fn lemma_decode_encode_options(opts: Seq<(u16, Seq<u8>)>, prev: int, payload: Seq<u8>)
    requires
        0 <= prev <= 65535,
        opts.len() > 0 ==> prev <= opts[0].0,
        options_sorted(opts),
        options_fit(opts),
    ensures
        decode_options(encode_options(opts, prev) + encode_payload_section(payload), prev)
            == Some((opts, payload)),
    decreases opts.len(),
{
    let s = encode_options(opts, prev) + encode_payload_section(payload);
    if opts.len() == 0 {
        if payload.len() == 0 {
            assert(s =~= Seq::<u8>::empty());
            assert(opts =~= Seq::<(u16, Seq<u8>)>::empty());
            assert(payload =~= Seq::<u8>::empty());
        } else {
            assert(s =~= seq![PAYLOAD_MARKER] + payload);
            assert(s[0] == PAYLOAD_MARKER);
            assert(s.len() == 1 + payload.len());
            assert(s.drop_first() =~= payload);
            assert(opts =~= Seq::<(u16, Seq<u8>)>::empty());
        }
    } else {
        let num = opts[0].0;
        let val = opts[0].1;
        let delta = num - prev;
        let vlen = val.len() as int;
        assert(opts[0] == (#[trigger] opts[0]));
        assert(vlen <= MAX_OPTION_LEN);
        assert(0 <= delta <= 65535);
        let dn = ext_nibble(delta);
        let ln = ext_nibble(vlen);
        assert(dn <= 14 && ln <= 14);
        let tail = encode_options(opts.drop_first(), num as int) + encode_payload_section(payload);
        let b0 = (dn * 16 + ln) as u8;
        assert(s =~= seq![b0] + (ext_bytes(delta) + (ext_bytes(vlen) + (val + tail))));
        lemma_nibble_byte(dn, ln);
        assert(s[0] == b0);
        assert(b0 != PAYLOAD_MARKER);
        assert(s[0] / 16 == dn && s[0] % 16 == ln);
        assert(dn != 15 && ln != 15);
        let rest = s.drop_first();
        assert(rest =~= ext_bytes(delta) + (ext_bytes(vlen) + (val + tail)));
        lemma_ext_round_trip(delta, ext_bytes(vlen) + (val + tail));
        assert(rest.len() >= ext_len(dn));
        assert(ext_decode(dn, rest) == delta);
        let rest2 = rest.skip(ext_len(dn));
        assert(rest2 =~= ext_bytes(vlen) + (val + tail));
        lemma_ext_round_trip(vlen, val + tail);
        assert(rest2.len() >= ext_len(ln));
        assert(ext_decode(ln, rest2) == vlen);
        let rest3 = rest2.skip(ext_len(ln));
        assert(rest3 =~= val + tail);
        assert(prev + delta == num);
        assert(rest3.len() >= vlen);
        assert(rest3.take(vlen) =~= val);
        assert(rest3.skip(vlen) =~= tail);
        assert(opts.drop_first().len() > 0 ==> num <= opts.drop_first()[0].0) by {
            if opts.drop_first().len() > 0 {
                assert(opts.drop_first()[0] == opts[1]);
            }
        }
        assert(options_sorted(opts.drop_first())) by {
            assert forall|i: int, j: int| 0 <= i < j < opts.drop_first().len() implies opts
                .drop_first()[i].0 <= opts.drop_first()[j].0 by {
                assert(opts.drop_first()[i] == opts[i + 1]);
                assert(opts.drop_first()[j] == opts[j + 1]);
            }
        }
        assert(options_fit(opts.drop_first())) by {
            assert forall|i: int| 0 <= i < opts.drop_first().len() implies (#[trigger] opts
                .drop_first()[i]).1.len() <= MAX_OPTION_LEN by {
                assert(opts.drop_first()[i] == opts[i + 1]);
                assert(opts[i + 1] == (#[trigger] opts[i + 1]));
            }
        }
        lemma_decode_encode_options(opts.drop_first(), num as int, payload);
        assert(decode_options(rest3.skip(vlen), num as int) == Some(
            (opts.drop_first(), payload),
        ));
        assert(seq![(((num as int) as u16), rest3.take(vlen))] + opts.drop_first() =~= opts) by {
            assert(rest3.take(vlen) == val);
            assert((num as int) as u16 == num);
            assert((((num as int) as u16), rest3.take(vlen)) == opts[0]);
        }
    }
}

/// Round trip of the codec: decoding the encoding of any valid packet
/// yields that packet back.
pub proof fn lemma_decode_encode(p: PacketModel)
    requires
        valid_packet(p),
    ensures
        spec_decode(spec_encode(p)) == Some(p),
{
    let s = spec_encode(p);
    let tb = type_bits(p.message_type);
    let tkl = p.token.len() as int;
    let b0 = (64 + tb * 16 + tkl) as u8;
    let header = seq![
        b0,
        p.code,
        (p.message_id / 256) as u8,
        (p.message_id % 256) as u8,
    ];
    let body = encode_options(p.options, 0) + encode_payload_section(p.payload);
    assert(s =~= header + (p.token + body));
    assert(s.len() >= 4 + tkl);
    assert(s[0] == b0);
    assert(tb <= 3 && tkl <= 8);
    assert(b0 == 64 + tb * 16 + tkl);
    vstd::arithmetic::div_mod::lemma_fundamental_div_mod_converse(
        b0 as int,
        64,
        1,
        (tb * 16 + tkl) as int,
    );
    assert(b0 / 64 == 1);
    vstd::arithmetic::div_mod::lemma_fundamental_div_mod_converse(
        b0 as int,
        16,
        (4 + tb) as int,
        tkl,
    );
    assert(b0 % 16 == tkl);
    assert(b0 / 16 == 4 + tb);
    vstd::arithmetic::div_mod::lemma_fundamental_div_mod_converse(
        (4 + tb) as int,
        4,
        1,
        tb as int,
    );
    assert((b0 / 16) % 4 == tb);
    assert(bits_type(tb) == p.message_type);
    assert(s[1] == p.code);
    let hi = (p.message_id / 256) as u8;
    let lo = (p.message_id % 256) as u8;
    vstd::arithmetic::div_mod::lemma_fundamental_div_mod(p.message_id as int, 256);
    assert(0 <= p.message_id % 256 < 256) by {
        vstd::arithmetic::div_mod::lemma_mod_division_less_than_divisor(p.message_id as int, 256);
    }
    assert(0 <= p.message_id / 256 <= 255);
    assert(s[2] == hi && s[3] == lo);
    assert(s[2] * 256 + s[3] == p.message_id);
    assert(s.subrange(4, 4 + tkl) =~= p.token);
    assert(s.skip(4 + tkl) =~= body);
    lemma_decode_encode_options(p.options, 0, p.payload);
    assert(decode_options(s.skip(4 + tkl), 0) == Some((p.options, p.payload)));
    assert(spec_decode(s) == Some(p)) by {
        let q = spec_decode(s).unwrap();
        assert(q =~= p);
    }
}

fn type_bits_exec(t: MessageType) -> (b: u8)
    ensures
        b == type_bits(t),
{
    match t {
        MessageType::Confirmable => 0,
        MessageType::NonConfirmable => 1,
        MessageType::Acknowledgement => 2,
        MessageType::Reset => 3,
    }
}

fn ext_nibble_exec(n: usize) -> (b: u8)
    ensures
        b == ext_nibble(n as int),
{
    if n < 13 {
        n as u8
    } else if n < 269 {
        13
    } else {
        14
    }
}

fn push_ext(out: &mut Vec<u8>, n: usize)
    ensures
        final(out)@ == old(out)@ + ext_bytes(n as int),
{
    if n < 13 {
        assert(out@ =~= out@ + ext_bytes(n as int));
    } else if n < 269 {
        out.push((n - 13) as u8);
        assert(out@ =~= old(out)@ + ext_bytes(n as int));
    } else {
        out.push(((n - 269) / 256) as u8);
        out.push(((n - 269) % 256) as u8);
        assert(out@ =~= old(out)@ + ext_bytes(n as int));
    }
}

/// Parses one option at `pos`, returning its number, its value, and the
/// position just past it. An error is exactly a malformed option there:
/// parsing at `pos` with running number `prev` fails.
#[verifier::rlimit(100)]
fn decode_one_option(bytes: &[u8], pos: usize, prev: u16) -> (r: Result<
    (u16, Vec<u8>, usize),
    DecodeError,
>)
    requires
        pos < bytes@.len(),
        bytes@[pos as int] != PAYLOAD_MARKER,
    ensures
        r matches Ok(t) ==> pos < t.2 <= bytes@.len() && decode_options(
            bytes@.skip(pos as int),
            prev as int,
        ) == (match decode_options(bytes@.skip(t.2 as int), t.0 as int) {
            Some(n) => Some((seq![(t.0, t.1@)] + n.0, n.1)),
            None => None,
        }),
        r is Err ==> decode_options(bytes@.skip(pos as int), prev as int) is None,
{
    let ghost s0 = bytes@.skip(pos as int);
    let ob = bytes[pos];
    assert(s0.len() > 0 && s0[0] == ob);
    let dn = ob / 16;
    let ln2 = ob % 16;
    if dn == 15 || ln2 == 15 {
        proof {
            assert(decode_options(s0, prev as int) is None);
        }
        return Err(DecodeError);
    }
    let ghost rest = s0.drop_first();
    proof {
        assert(rest =~= bytes@.skip(pos + 1));
    }
    let dext: usize = if dn < 13 {
        0
    } else if dn == 13 {
        1
    } else {
        2
    };
    assert(dext as int == ext_len(dn));
    if bytes.len() - (pos + 1) < dext {
        proof {
            assert(rest.len() < ext_len(dn));
            assert(decode_options(s0, prev as int) is None);
        }
        return Err(DecodeError);
    }
    let delta: usize = if dn < 13 {
        dn as usize
    } else if dn == 13 {
        13 + bytes[pos + 1] as usize
    } else {
        269 + 256 * (bytes[pos + 1] as usize) + (bytes[pos + 2] as usize)
    };
    proof {
        if dn >= 13 {
            assert(rest[0] == bytes@[pos + 1]);
            if dn > 13 {
                assert(rest[1] == bytes@[pos + 2]);
            }
        }
        assert(delta as int == ext_decode(dn, rest));
    }
    let p2: usize = pos + 1 + dext;
    let ghost rest2 = rest.skip(dext as int);
    proof {
        assert(rest2 =~= bytes@.skip(p2 as int));
    }
    let lext: usize = if ln2 < 13 {
        0
    } else if ln2 == 13 {
        1
    } else {
        2
    };
    assert(lext as int == ext_len(ln2));
    if bytes.len() - p2 < lext {
        proof {
            assert(rest2.len() < ext_len(ln2));
            assert(decode_options(s0, prev as int) is None);
        }
        return Err(DecodeError);
    }
    let vlen: usize = if ln2 < 13 {
        ln2 as usize
    } else if ln2 == 13 {
        13 + bytes[p2] as usize
    } else {
        269 + 256 * (bytes[p2] as usize) + (bytes[p2 + 1] as usize)
    };
    proof {
        if ln2 >= 13 {
            assert(rest2[0] == bytes@[p2 as int]);
            if ln2 > 13 {
                assert(rest2[1] == bytes@[p2 + 1]);
            }
        }
        assert(vlen as int == ext_decode(ln2, rest2));
    }
    let p3: usize = p2 + lext;
    let ghost rest3 = rest2.skip(lext as int);
    proof {
        assert(rest3 =~= bytes@.skip(p3 as int));
    }
    let num_i: usize = prev as usize + delta;
    if num_i > 65535 {
        proof {
            assert(decode_options(s0, prev as int) is None);
        }
        return Err(DecodeError);
    }
    if bytes.len() - p3 < vlen {
        proof {
            assert(rest3.len() < vlen);
            assert(decode_options(s0, prev as int) is None);
        }
        return Err(DecodeError);
    }
    let val = vstd::slice::slice_to_vec(vstd::slice::slice_subrange(bytes, p3, p3 + vlen));
    proof {
        assert(val@ =~= rest3.take(vlen as int));
        assert(rest3.skip(vlen as int) =~= bytes@.skip((p3 + vlen) as int));
    }
    Ok((num_i as u16, val, p3 + vlen))
}

impl Packet {
    /// Serializes the packet into its deterministic byte layout. Fails
    /// exactly when the packet does not fit the wire format: a token longer
    /// than eight bytes, options out of number order, or an option value
    /// beyond the length encoding.
    pub fn encode(&self) -> (r: Result<Vec<u8>, EncodeError>)
        ensures
            valid_packet(self@) ==> (r matches Ok(bytes) && bytes@ == spec_encode(self@)),
            !valid_packet(self@) ==> r is Err,
    {
        let ghost pm = self@;
        if self.token.len() > 8 {
            return Err(EncodeError);
        }
        // Validate option order and value sizes.
        let mut i: usize = 0;
        let mut prev: u16 = 0;
        while i < self.options.len()
            invariant
                0 <= i <= self.options@.len(),
                pm == self@,
                pm.options.len() == self.options@.len(),
                prev as int == if i == 0 {
                    0
                } else {
                    pm.options[i - 1].0 as int
                },
                forall|a: int, b: int| 0 <= a < b < i ==> pm.options[a].0 <= pm.options[b].0,
                forall|a: int| 0 <= a < i ==> (#[trigger] pm.options[a]).1.len() <= MAX_OPTION_LEN,
                forall|a: int| 0 <= a < i ==> (#[trigger] pm.options[a]).0 <= prev,
            decreases self.options@.len() - i,
        {
            let num = self.options[i].0;
            proof {
                assert(pm.options[i as int] == (self.options@[i as int].0, self.options@[i as int].1@));
            }
            if num < prev {
                proof {
                    assert(pm.options[i - 1].0 > pm.options[i as int].0);
                    assert(!options_sorted(pm.options));
                }
                return Err(EncodeError);
            }
            if self.options[i].1.len() > MAX_OPTION_LEN {
                proof {
                    assert((#[trigger] pm.options[i as int]).1.len() > MAX_OPTION_LEN);
                    assert(!options_fit(pm.options));
                }
                return Err(EncodeError);
            }
            prev = num;
            i = i + 1;
        }
        proof {
            assert(options_sorted(pm.options));
            assert(options_fit(pm.options));
            assert(valid_packet(pm));
        }

        let tbits = type_bits_exec(self.message_type);
        assert(tbits <= 3);
        let mut out: Vec<u8> = Vec::new();
        out.push(64 + tbits * 16 + self.token.len() as u8);
        out.push(self.code);
        out.push((self.message_id / 256) as u8);
        out.push((self.message_id % 256) as u8);
        out.extend_from_slice(self.token.as_slice());
        let ghost eps = encode_payload_section(pm.payload);
        proof {
            assert(pm.options.skip(0) =~= pm.options);
            assert(out@ + encode_options(pm.options.skip(0), 0) + eps =~= spec_encode(pm));
        }
        let mut j: usize = 0;
        let mut prev2: u16 = 0;
        while j < self.options.len()
            invariant
                0 <= j <= self.options@.len(),
                pm == self@,
                valid_packet(pm),
                pm.options.len() == self.options@.len(),
                prev2 as int == if j == 0 {
                    0
                } else {
                    pm.options[j - 1].0 as int
                },
                eps == encode_payload_section(pm.payload),
                out@ + encode_options(pm.options.skip(j as int), prev2 as int) + eps
                    == spec_encode(pm),
            decreases self.options@.len() - j,
        {
            let num = self.options[j].0;
            let vlen = self.options[j].1.len();
            let ghost old_out = out@;
            proof {
                assert(pm.options[j as int] == (self.options@[j as int].0, self.options@[j as int].1@));
                if j > 0 {
                    assert(pm.options[j - 1].0 <= pm.options[j as int].0);
                }
                assert((#[trigger] pm.options[j as int]).1.len() <= MAX_OPTION_LEN);
            }
            let delta: usize = (num - prev2) as usize;
            let dn = ext_nibble_exec(delta);
            let ln2 = ext_nibble_exec(vlen);
            assert(dn <= 14 && ln2 <= 14);
            out.push(dn * 16 + ln2);
            push_ext(&mut out, delta);
            push_ext(&mut out, vlen);
            out.extend_from_slice(self.options[j].1.as_slice());
            proof {
                let d = delta as int;
                let v = pm.options[j as int].1;
                assert(out@ =~= old_out + encode_one_option(d, v));
                assert(pm.options.skip(j as int).len() > 0);
                assert(pm.options.skip(j as int)[0] == pm.options[j as int]);
                assert(pm.options.skip(j as int).drop_first() =~= pm.options.skip(j + 1));
                assert(encode_options(pm.options.skip(j as int), prev2 as int)
                    == encode_one_option(d, v) + encode_options(
                    pm.options.skip(j + 1),
                    pm.options[j as int].0 as int,
                ));
                assert(out@ + encode_options(pm.options.skip(j + 1), pm.options[j as int].0 as int)
                    + eps =~= old_out + encode_options(pm.options.skip(j as int), prev2 as int)
                    + eps);
            }
            prev2 = num;
            j = j + 1;
        }
        proof {
            assert(pm.options.skip(pm.options.len() as int) =~= Seq::<(u16, Seq<u8>)>::empty());
            assert(out@ + eps =~= out@ + encode_options(
                pm.options.skip(pm.options.len() as int),
                prev2 as int,
            ) + eps);
        }
        if self.payload.len() > 0 {
            out.push(PAYLOAD_MARKER);
            out.extend_from_slice(self.payload.as_slice());
        }
        proof {
            assert(out@ =~= spec_encode(pm));
        }
        Ok(out)
    }

    /// Parses a frame. Succeeds exactly on the byte sequences that are a
    /// well-formed message, yielding the packet they encode; the input must
    /// already be cut to the message's declared length.
    #[verifier::rlimit(100)]
    pub fn decode(bytes: &[u8]) -> (r: Result<Packet, DecodeError>)
        ensures
            spec_decode(bytes@) matches Some(p) ==> (r matches Ok(q) && q@ == p),
            spec_decode(bytes@) is None ==> r is Err,
    {
        if bytes.len() < 4 {
            return Err(DecodeError);
        }
        let b0 = bytes[0];
        let tkl: usize = (b0 % 16) as usize;
        if b0 / 64 != 1 {
            return Err(DecodeError);
        }
        if tkl > 8 {
            return Err(DecodeError);
        }
        if bytes.len() < 4 + tkl {
            return Err(DecodeError);
        }
        let tb = (b0 / 16) % 4;
        let message_type = if tb == 0 {
            MessageType::Confirmable
        } else if tb == 1 {
            MessageType::NonConfirmable
        } else if tb == 2 {
            MessageType::Acknowledgement
        } else {
            MessageType::Reset
        };
        assert(message_type == bits_type(tb));
        let code = bytes[1];
        let message_id: u16 = (bytes[2] as u16) * 256 + (bytes[3] as u16);
        let token = vstd::slice::slice_to_vec(vstd::slice::slice_subrange(bytes, 4, 4 + tkl));
        let ghost full_tail = bytes@.skip(4 + tkl as int);
        let mut options: Vec<(u16, Vec<u8>)> = Vec::new();
        let mut pos: usize = 4 + tkl;
        let mut prev: u16 = 0;
        proof {
            assert(options_model(options@) =~= Seq::<(u16, Seq<u8>)>::empty());
        }
        while pos < bytes.len() && bytes[pos] != PAYLOAD_MARKER
            invariant
                4 + tkl <= pos <= bytes@.len(),
                bytes@.len() <= usize::MAX,
                full_tail == bytes@.skip(4 + tkl as int),
                decode_options(full_tail, 0) == (match decode_options(
                    bytes@.skip(pos as int),
                    prev as int,
                ) {
                    Some(t) => Some((options_model(options@) + t.0, t.1)),
                    None => None,
                }),
                decode_options(full_tail, 0) is None ==> spec_decode(bytes@) is None,
            decreases bytes@.len() - pos,
        {
            let step = decode_one_option(bytes, pos, prev);
            match step {
                Err(e) => {
                    return Err(e);
                },
                Ok((num, val, newpos)) => {
                    let ghost old_options = options@;
                    let ghost valseq = val@;
                    options.push((num, val));
                    proof {
                        assert(options_model(options@) =~= options_model(old_options) + seq![
                            (num, valseq),
                        ]);
                        let nxt = decode_options(bytes@.skip(newpos as int), num as int);
                        if nxt is Some {
                            let t0 = nxt.unwrap().0;
                            assert(options_model(options@) + t0 =~= options_model(old_options)
                                + (seq![(num, valseq)] + t0));
                        }
                    }
                    prev = num;
                    pos = newpos;
                },
            }
        }
        let payload: Vec<u8>;
        if pos < bytes.len() {
            assert(bytes@[pos as int] == PAYLOAD_MARKER);
            if pos + 1 == bytes.len() {
                proof {
                    assert(bytes@.skip(pos as int).len() == 1);
                    assert(bytes@.skip(pos as int)[0] == PAYLOAD_MARKER);
                    assert(decode_options(bytes@.skip(pos as int), prev as int) is None);
                }
                return Err(DecodeError);
            }
            payload = vstd::slice::slice_to_vec(
                vstd::slice::slice_subrange(bytes, pos + 1, bytes.len()),
            );
            proof {
                let s0 = bytes@.skip(pos as int);
                assert(s0[0] == PAYLOAD_MARKER && s0.len() > 1);
                assert(s0.drop_first() =~= payload@);
                assert(decode_options(s0, prev as int) == Some(
                    (Seq::<(u16, Seq<u8>)>::empty(), payload@),
                ));
            }
        } else {
            payload = Vec::new();
            proof {
                assert(bytes@.skip(pos as int) =~= Seq::<u8>::empty());
                assert(decode_options(bytes@.skip(pos as int), prev as int) == Some(
                    (Seq::<(u16, Seq<u8>)>::empty(), Seq::<u8>::empty()),
                ));
                assert(payload@ =~= Seq::<u8>::empty());
            }
        }
        proof {
            assert(options_model(options@) + Seq::<(u16, Seq<u8>)>::empty() =~= options_model(
                options@,
            ));
            assert(decode_options(full_tail, 0) == Some((options_model(options@), payload@)));
        }
        let packet = Packet { message_type, code, message_id, token, options, payload };
        proof {
            let p = spec_decode(bytes@).unwrap();
            assert(bytes@[2] == bytes[2] && bytes@[3] == bytes[3]);
            assert(p.message_id == (bytes@[2] * 256 + bytes@[3]) as u16);
            assert(message_id as int == bytes@[2] * 256 + bytes@[3]);
            assert(packet@ =~= p);
        }
        Ok(packet)
    }
}

} // verus!
