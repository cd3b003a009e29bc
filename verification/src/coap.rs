//! The datagram protocol client: GET and GET+Observe request construction,
//! acknowledgement packets, and the deadline-driven reassembly of responses
//! that arrive in fixed-size reads.
//!
//! The client owns no socket: it is a state machine over plain values. The
//! surrounding application sends the bytes it produces, pumps the transport,
//! and feeds every read result back in as a [`ReadEvent`].

use crate::codec::{
    options_model, valid_packet, spec_decode, MessageType, Packet, PacketModel,
    CONTENT_FORMAT_OPTION, EMPTY_CODE, GET_CODE, MAX_OPTION_LEN, OBSERVE_OPTION, URI_PATH_OPTION,
};
use crate::errors::ReceiveError;
use vstd::prelude::*;
use vstd::string::StringSliceAdditionalSpecFns;

verus! {

/// Size of one transport read into the reassembly buffer.
pub const READ_UNIT: usize = 512;

/// The byte on which a request path is split into URI-Path segments.
pub const PATH_SEPARATOR: u8 = 47;

/// A `u16` counter incremented by one, wrapping at the top.
pub open spec fn wrap_inc_u16(x: u16) -> u16 {
    if x == 0xffff {
        0
    } else {
        (x + 1) as u16
    }
}

/// A `u8` counter incremented by one, wrapping at the top.
pub open spec fn wrap_inc_u8(x: u8) -> u8 {
    if x == 0xff {
        0
    } else {
        (x + 1) as u8
    }
}

/// One step of splitting: a separator opens a new empty segment, any other
/// byte extends the last one.
pub open spec fn split_step(acc: Seq<Seq<u8>>, b: u8, sep: u8) -> Seq<Seq<u8>>
    recommends
        acc.len() >= 1,
{
    if b == sep {
        acc.push(seq![])
    } else {
        acc.update(acc.len() - 1, acc.last().push(b))
    }
}

/// The segments of `s` split on `sep`, as `str::split` produces them: an
/// empty input gives one empty segment, and separators at the edges give
/// empty segments.
pub open spec fn split_bytes(s: Seq<u8>, sep: u8) -> Seq<Seq<u8>>
    decreases s.len(),
{
    if s.len() == 0 {
        seq![seq![]]
    } else {
        split_step(split_bytes(s.drop_last(), sep), s.last(), sep)
    }
}

pub proof fn lemma_split_bytes_bounds(s: Seq<u8>, sep: u8)
    ensures
        split_bytes(s, sep).len() >= 1,
        forall|i: int|
            0 <= i < split_bytes(s, sep).len() ==> (#[trigger] split_bytes(s, sep)[i]).len()
                <= s.len(),
    decreases s.len(),
{
    if s.len() > 0 {
        lemma_split_bytes_bounds(s.drop_last(), sep);
    }
}

/// The option list of a GET request on `path`: an Observe registration if
/// requested, one URI-Path option per path segment in order, and a plain
/// text Content-Format.
pub open spec fn get_packet_options(path: Seq<u8>, observable: bool) -> Seq<(u16, Seq<u8>)> {
    let segs = split_bytes(path, PATH_SEPARATOR);
    let uri = Seq::new(segs.len(), |i: int| (URI_PATH_OPTION, segs[i]));
    (if observable {
        seq![(OBSERVE_OPTION, seq![0u8])]
    } else {
        seq![]
    }) + uri + seq![(CONTENT_FORMAT_OPTION, seq![0u8, 0u8])]
}

/// The GET request a client with counters `msg_id` and `token` builds.
pub open spec fn spec_get_packet(
    msg_id: u16,
    token: u8,
    path: Seq<u8>,
    confirmable: bool,
    observable: bool,
) -> PacketModel {
    PacketModel {
        message_type: if confirmable {
            MessageType::Confirmable
        } else {
            MessageType::NonConfirmable
        },
        code: GET_CODE,
        message_id: msg_id,
        token: seq![token],
        options: get_packet_options(path, observable),
        payload: seq![],
    }
}

/// The empty Acknowledgement that answers a confirmable message: it echoes
/// the message id and token, and carries no options and no payload.
pub open spec fn spec_ack_packet(resp: PacketModel) -> PacketModel {
    PacketModel {
        message_type: MessageType::Acknowledgement,
        code: EMPTY_CODE,
        message_id: resp.message_id,
        token: resp.token,
        options: seq![],
        payload: seq![],
    }
}

/// Protocol client state: wrapping request counters and the peer address.
/// The token only advances when a new logical exchange begins, so a renewed
/// observe registration keeps correlating with the old subscription.
pub struct CoapClient {
    pub msg_id: u16,
    pub token: u8,
    pub ip: [u8; 4],
    pub port: u16,
}

impl CoapClient {
    /// A client for the given peer, with both counters at zero.
    pub fn new(ip: [u8; 4], port: u16) -> (c: CoapClient)
        ensures
            c.msg_id == 0,
            c.token == 0,
            c.ip == ip,
            c.port == port,
    {
        CoapClient { msg_id: 0, token: 0, ip, port }
    }

    /// Builds a GET request on `uri_path` (split on `/` into URI-Path
    /// options), confirmable or not, optionally carrying an Observe
    /// registration. The message id always advances (wrapping); the token
    /// advances only when the caller marks a new logical exchange.
    pub fn create_get_packet(
        &mut self,
        uri_path: &str,
        is_confirmable: bool,
        add_to_token: bool,
        observable: bool,
    ) -> (p: Packet)
        requires
            uri_path.spec_bytes().len() <= MAX_OPTION_LEN,
        ensures
            p@ == spec_get_packet(
                old(self).msg_id,
                old(self).token,
                uri_path.spec_bytes(),
                is_confirmable,
                observable,
            ),
            valid_packet(p@),
            final(self).msg_id == wrap_inc_u16(old(self).msg_id),
            final(self).token == if add_to_token {
                wrap_inc_u8(old(self).token)
            } else {
                old(self).token
            },
            final(self).ip == old(self).ip,
            final(self).port == old(self).port,
    {
        let ghost path = uri_path.spec_bytes();
        let bytes = uri_path.as_bytes();
        let mut options: Vec<(u16, Vec<u8>)> = Vec::new();
        let ghost obs: Seq<(u16, Seq<u8>)> = if observable {
            seq![(OBSERVE_OPTION, seq![0u8])]
        } else {
            seq![]
        };
        if observable {
            let mut zero: Vec<u8> = Vec::new();
            zero.push(0u8);
            options.push((OBSERVE_OPTION, zero));
        }
        proof {
            assert(options_model(options@) =~= obs);
        }
        let mut seg: Vec<u8> = Vec::new();
        let mut i: usize = 0;
        proof {
            assert(bytes@.take(0) =~= Seq::<u8>::empty());
        }
        while i < bytes.len()
            invariant
                0 <= i <= bytes@.len(),
                path == bytes@,
                obs == if observable {
                    seq![(OBSERVE_OPTION, seq![0u8])]
                } else {
                    Seq::<(u16, Seq<u8>)>::empty()
                },
                split_bytes(bytes@.take(i as int), PATH_SEPARATOR).len() >= 1,
                seg@ == split_bytes(bytes@.take(i as int), PATH_SEPARATOR).last(),
                options_model(options@) =~= obs + Seq::new(
                    (split_bytes(bytes@.take(i as int), PATH_SEPARATOR).len() - 1) as nat,
                    |k: int| (URI_PATH_OPTION, split_bytes(bytes@.take(i as int), PATH_SEPARATOR)[k]),
                ),
            decreases bytes@.len() - i,
        {
            let ghost segs0 = split_bytes(bytes@.take(i as int), PATH_SEPARATOR);
            let ghost opts0 = options_model(options@);
            let ghost seg0 = seg@;
            let b = bytes[i];
            if b == PATH_SEPARATOR {
                options.push((URI_PATH_OPTION, seg));
                seg = Vec::new();
            } else {
                seg.push(b);
            }
            proof {
                lemma_split_bytes_bounds(bytes@.take(i as int), PATH_SEPARATOR);
                assert(bytes@.take(i + 1).drop_last() =~= bytes@.take(i as int));
                assert(bytes@.take(i + 1).last() == b);
                let segs1 = split_bytes(bytes@.take(i + 1), PATH_SEPARATOR);
                assert(segs1 == split_step(segs0, b, PATH_SEPARATOR));
                if b == PATH_SEPARATOR {
                    assert(segs1 == segs0.push(seq![]));
                    assert(seg@ =~= segs1.last());
                    assert(options_model(options@) =~= opts0 + seq![(URI_PATH_OPTION, seg0)]);
                    assert(options_model(options@) =~= obs + Seq::new(
                        (segs1.len() - 1) as nat,
                        |k: int| (URI_PATH_OPTION, segs1[k]),
                    ));
                } else {
                    assert(segs1 == segs0.update(segs0.len() - 1, segs0.last().push(b)));
                    assert(seg@ =~= segs1.last());
                    assert(options_model(options@) =~= obs + Seq::new(
                        (segs1.len() - 1) as nat,
                        |k: int| (URI_PATH_OPTION, segs1[k]),
                    ));
                }
            }
            i = i + 1;
        }
        proof {
            assert(bytes@.take(bytes@.len() as int) =~= bytes@);
        }
        let ghost m0 = options_model(options@);
        let ghost seg_last = seg@;
        options.push((URI_PATH_OPTION, seg));
        proof {
            assert(options_model(options@) =~= m0 + seq![(URI_PATH_OPTION, seg_last)]);
        }
        let ghost m1 = options_model(options@);
        let mut cf: Vec<u8> = Vec::new();
        cf.push(0u8);
        cf.push(0u8);
        proof {
            assert(cf@ =~= seq![0u8, 0u8]);
        }
        options.push((CONTENT_FORMAT_OPTION, cf));
        proof {
            assert(options_model(options@) =~= m1 + seq![(CONTENT_FORMAT_OPTION, seq![0u8, 0u8])]);
            let segs = split_bytes(path, PATH_SEPARATOR);
            lemma_split_bytes_bounds(path, PATH_SEPARATOR);
            let uri = Seq::new(segs.len(), |k: int| (URI_PATH_OPTION, segs[k]));
            assert(uri =~= Seq::new((segs.len() - 1) as nat, |k: int| (URI_PATH_OPTION, segs[k]))
                + seq![(URI_PATH_OPTION, seg_last)]);
            assert(m1 =~= obs + uri);
            assert(options_model(options@) =~= get_packet_options(path, observable));
        }
        let mut token_vec: Vec<u8> = Vec::new();
        token_vec.push(self.token);
        let packet = Packet {
            message_type: if is_confirmable {
                MessageType::Confirmable
            } else {
                MessageType::NonConfirmable
            },
            code: GET_CODE,
            message_id: self.msg_id,
            token: token_vec,
            options,
            payload: Vec::new(),
        };
        proof {
            let pm = spec_get_packet(
                old(self).msg_id,
                old(self).token,
                path,
                is_confirmable,
                observable,
            );
            assert(packet@.token =~= pm.token);
            assert(packet@.payload =~= pm.payload);
            assert(packet@ =~= pm);
            let segs = split_bytes(path, PATH_SEPARATOR);
            assert forall|a: int, bq: int| 0 <= a < bq < pm.options.len() implies pm.options[a].0
                <= pm.options[bq].0 by {}
            assert forall|a: int| 0 <= a < pm.options.len() implies (#[trigger] pm.options[a]).1.len()
                <= MAX_OPTION_LEN by {}
            assert(valid_packet(pm));
        }
        self.msg_id = self.msg_id.wrapping_add(1);
        if add_to_token {
            self.token = self.token.wrapping_add(1);
        }
        packet
    }

    /// Builds the empty Acknowledgement for a received confirmable message,
    /// echoing its message id and token.
    pub fn ack_packet(&self, resp: &Packet) -> (p: Packet)
        ensures
            p@ == spec_ack_packet(resp@),
            resp@.token.len() <= 8 ==> valid_packet(p@),
    {
        let mut token: Vec<u8> = Vec::new();
        token.extend_from_slice(resp.token.as_slice());
        let p = Packet {
            message_type: MessageType::Acknowledgement,
            code: EMPTY_CODE,
            message_id: resp.message_id,
            token,
            options: Vec::new(),
            payload: Vec::new(),
        };
        proof {
            assert(p@.token =~= resp@.token);
            assert(options_model(Seq::<(u16, Vec<u8>)>::empty()) =~= Seq::<(u16, Seq<u8>)>::empty());
            assert(p@ =~= spec_ack_packet(resp@));
        }
        p
    }
}

/// What one pump of the transport produced.
pub enum ReadEvent {
    /// A successful read: one buffer of [`READ_UNIT`] bytes and the
    /// transport's report of the total datagram size.
    Data(Vec<u8>, usize),
    /// The transport had nothing yet.
    Nothing,
    /// The transport reported a read failure.
    Failure,
}

/// Where a receive attempt stands after a pump.
pub enum ReceiveProgress {
    /// Not complete yet; keep pumping.
    Pending,
    /// A complete response, decoded from its declared length.
    Complete(Packet),
    /// The attempt is over without a packet.
    Failed(ReceiveError),
}

/// One receive attempt: accumulates fixed-size reads until more bytes have
/// been read than the transport's declared total, then decodes the declared
/// prefix; gives up when the deadline passes first.
pub struct ReceiveState {
    pub read_bytes: usize,
    pub message_bytes: Vec<u8>,
    pub deadline: u64,
}

impl ReceiveState {
    /// The byte counter matches what has been accumulated.
    pub open spec fn wf(self) -> bool {
        self.read_bytes == self.message_bytes@.len()
    }

    /// A fresh attempt with a deadline `timeout_secs` from `now`. Partial
    /// state never carries over from an earlier attempt.
    pub fn new(now: u64, timeout_secs: u64) -> (s: ReceiveState)
        requires
            now + timeout_secs * 1000 <= u64::MAX,
        ensures
            s.wf(),
            s.read_bytes == 0,
            s.message_bytes@ == Seq::<u8>::empty(),
            s.deadline == now + timeout_secs * 1000,
    {
        ReceiveState { read_bytes: 0, message_bytes: Vec::new(), deadline: now + timeout_secs * 1000 }
    }

    /// Consumes one pump result at time `now`.
    ///
    /// A read failure ends the attempt with a transport error. A read is
    /// appended whole; the response is complete once the bytes read exceed
    /// the declared total, and only then is anything decoded — from the
    /// declared prefix, never from the raw buffer. If the deadline has
    /// passed without completion the attempt ends with a timeout, never
    /// with a decode of partial data.
    pub fn poll(&mut self, event: ReadEvent, now: u64) -> (r: ReceiveProgress)
        requires
            old(self).wf(),
            event matches ReadEvent::Data(chunk, total) ==> chunk@.len() == READ_UNIT && old(
                self,
            ).read_bytes + READ_UNIT <= usize::MAX,
        ensures
            final(self).wf(),
            final(self).deadline == old(self).deadline,
            event matches ReadEvent::Data(chunk, total) ==> final(self).read_bytes == old(
                self,
            ).read_bytes + READ_UNIT && final(self).message_bytes@ == old(self).message_bytes@
                + chunk@,
            !(event is Data) ==> *final(self) == *old(self),
            event is Failure ==> r == ReceiveProgress::Failed(ReceiveError::Transport),
            event is Nothing && now > old(self).deadline ==> r == ReceiveProgress::Failed(
                ReceiveError::Timeout,
            ),
            event is Nothing && now <= old(self).deadline ==> r == ReceiveProgress::Pending,
            event matches ReadEvent::Data(chunk, total) ==> {
                let assembled = old(self).message_bytes@ + chunk@;
                let complete = old(self).read_bytes + READ_UNIT > total;
                &&& (complete ==> (match spec_decode(assembled.take(total as int)) {
                    Some(p) => r matches ReceiveProgress::Complete(q) && q@ == p,
                    None => r == ReceiveProgress::Failed(ReceiveError::Decode),
                }))
                &&& (!complete && now > old(self).deadline ==> r == ReceiveProgress::Failed(
                    ReceiveError::Timeout,
                ))
                &&& (!complete && now <= old(self).deadline ==> r == ReceiveProgress::Pending)
            },
    {
        match event {
            ReadEvent::Failure => ReceiveProgress::Failed(ReceiveError::Transport),
            ReadEvent::Nothing => {
                if now > self.deadline {
                    ReceiveProgress::Failed(ReceiveError::Timeout)
                } else {
                    ReceiveProgress::Pending
                }
            },
            ReadEvent::Data(chunk, total) => {
                self.read_bytes = self.read_bytes + READ_UNIT;
                self.message_bytes.extend_from_slice(chunk.as_slice());
                if self.read_bytes > total {
                    let data = vstd::slice::slice_subrange(
                        self.message_bytes.as_slice(),
                        0,
                        total,
                    );
                    proof {
                        assert(data@ =~= self.message_bytes@.take(total as int));
                    }
                    match Packet::decode(data) {
                        Ok(p) => ReceiveProgress::Complete(p),
                        Err(_) => ReceiveProgress::Failed(ReceiveError::Decode),
                    }
                } else if now > self.deadline {
                    ReceiveProgress::Failed(ReceiveError::Timeout)
                } else {
                    ReceiveProgress::Pending
                }
            },
        }
    }
}

/// What the observe loop does with the outcome of one receive attempt: a
/// complete notification is delivered to the callback (and then
/// acknowledged), a timeout ends the subscription, and any other receive
/// error is transient — the loop keeps waiting.
#[derive(Clone, Copy, PartialEq, Eq, Structural, Debug)]
pub enum ObserveStep {
    Deliver,
    Stop,
    KeepWaiting,
}

/// The observe loop's decision for one receive outcome.
pub fn observe_decision(outcome: &ReceiveProgress) -> (d: ObserveStep)
    ensures
        outcome is Complete ==> d == ObserveStep::Deliver,
        outcome == ReceiveProgress::Failed(ReceiveError::Timeout) ==> d == ObserveStep::Stop,
        (outcome matches ReceiveProgress::Failed(e) && e != ReceiveError::Timeout) ==> d
            == ObserveStep::KeepWaiting,
        outcome is Pending ==> d == ObserveStep::KeepWaiting,
{
    match outcome {
        ReceiveProgress::Complete(_) => ObserveStep::Deliver,
        ReceiveProgress::Failed(ReceiveError::Timeout) => ObserveStep::Stop,
        _ => ObserveStep::KeepWaiting,
    }
}

} // verus!
