//! Provisioning over the short-range wireless channel: the credential chunk
//! framer that reassembles a credential from small characteristic writes, and
//! the session state machine that drives two framers, the connection attempt
//! and the completion handshake.

use vstd::prelude::*;

verus! {

/// The sentinel byte (ASCII `.`): four in a row open and close a message.
pub const SENTINEL_BYTE: u8 = 46;

/// Capacity of a credential field buffer.
pub const FIELD_CAPACITY: usize = 128;

/// A chunk opens a message when its first four bytes are all sentinel bytes.
pub open spec fn has_start_sentinel(data: Seq<u8>) -> bool {
    data.len() >= 4 && data[0] == SENTINEL_BYTE && data[1] == SENTINEL_BYTE && data[2]
        == SENTINEL_BYTE && data[3] == SENTINEL_BYTE
}

/// One byte of the tail scan: a sentinel byte extends the run (saturating at
/// 4), any other byte resets it.
pub open spec fn run_step(run: int, byte: u8) -> int {
    if byte == SENTINEL_BYTE {
        if run + 1 > 4 {
            4
        } else {
            run + 1
        }
    } else {
        0
    }
}

/// Folds [`run_step`] over a scanned tail, left to right.
pub open spec fn run_scan(run: int, tail: Seq<u8>) -> int
    decreases tail.len(),
{
    if tail.len() == 0 {
        run
    } else {
        run_scan(run_step(run, tail[0]), tail.drop_first())
    }
}

/// The bytes of a chunk that the tail scan looks at: the last four, or the
/// whole chunk when it is shorter.
pub open spec fn scan_tail(d: Seq<u8>) -> Seq<u8> {
    if d.len() <= 4 {
        d
    } else {
        d.skip(d.len() - 4)
    }
}

/// `buf` with `d` written at offset `off`; everything else is unchanged.
pub open spec fn splice(buf: Seq<u8>, off: int, d: Seq<u8>) -> Seq<u8> {
    Seq::new(buf.len(), |i: int| if off <= i < off + d.len() { d[i - off] } else { buf[i] })
}

/// The buffer after a finishing chunk: `d` is written at `off`, then the four
/// end-sentinel bytes (which may reach back into earlier chunks) are zeroed.
pub open spec fn finish_buf(buf: Seq<u8>, off: int, d: Seq<u8>) -> Seq<u8> {
    splice(splice(buf, off, d), off + d.len() - 4, seq![0u8, 0u8, 0u8, 0u8])
}

/// Mathematical state of a [`CredentialFramer`].
#[verifier::ext_equal]
pub struct FramerModel {
    pub buf: Seq<u8>,
    pub write_offset: int,
    pub message_started: bool,
    pub trailing_sentinel_run: int,
    pub finished: bool,
}

impl FramerModel {
    /// Structural invariant: fixed buffer size, bounded offset, a run of at
    /// most four that never exceeds what has been accumulated.
    pub open spec fn wf(self) -> bool {
        &&& self.buf.len() == FIELD_CAPACITY
        &&& 0 <= self.write_offset <= FIELD_CAPACITY
        &&& 0 <= self.trailing_sentinel_run <= 4
        &&& self.message_started ==> self.trailing_sentinel_run <= self.write_offset
    }

    /// A freshly created field: empty buffer, no message in progress.
    pub open spec fn init() -> FramerModel {
        FramerModel {
            buf: Seq::new(FIELD_CAPACITY as nat, |i: int| 0u8),
            write_offset: 0,
            message_started: false,
            trailing_sentinel_run: 0,
            finished: false,
        }
    }
}

/// The framer transition for one incoming chunk.
///
/// A chunk received outside a message that does not open one is noise and
/// changes nothing. Otherwise the (possibly sentinel-stripped) chunk is
/// appended at the write offset; when the trailing-sentinel run reaches four,
/// the message is closed, the end sentinel is zeroed out of the buffer, and
/// the field is finished.
pub open spec fn framer_step(pre: FramerModel, data: Seq<u8>) -> FramerModel {
    if !pre.message_started && !has_start_sentinel(data) {
        pre
    } else {
        let d = if pre.message_started {
            data
        } else {
            data.skip(4)
        };
        let off = if pre.message_started {
            pre.write_offset
        } else {
            0
        };
        let run0 = if pre.message_started {
            pre.trailing_sentinel_run
        } else {
            0
        };
        let run1 = run_scan(run0, scan_tail(d));
        if run1 == 4 {
            FramerModel {
                buf: finish_buf(pre.buf, off, d),
                write_offset: off,
                message_started: false,
                trailing_sentinel_run: 4,
                finished: true,
            }
        } else {
            FramerModel {
                buf: splice(pre.buf, off, d),
                write_offset: off + d.len(),
                message_started: true,
                trailing_sentinel_run: run1,
                finished: pre.message_started && pre.finished,
            }
        }
    }
}

/// Whether one incoming chunk closes the message (the completion event that
/// triggers persistence, exactly once per framed message).
pub open spec fn framer_step_finishes(pre: FramerModel, data: Seq<u8>) -> bool {
    &&& (pre.message_started || has_start_sentinel(data))
    &&& run_scan(
        if pre.message_started {
            pre.trailing_sentinel_run
        } else {
            0
        },
        scan_tail(
            if pre.message_started {
                data
            } else {
                data.skip(4)
            },
        ),
    ) == 4
}

/// Reassembles one bounded-length credential from a stream of small writes,
/// delimited by a four-byte start sentinel and a four-byte end sentinel that
/// may straddle chunk boundaries.
pub struct CredentialFramer {
    buf: Vec<u8>,
    write_offset: usize,
    message_started: bool,
    trailing_sentinel_run: u8,
    finished: bool,
}

impl View for CredentialFramer {
    type V = FramerModel;

    closed spec fn view(&self) -> FramerModel {
        FramerModel {
            buf: self.buf@,
            write_offset: self.write_offset as int,
            message_started: self.message_started,
            trailing_sentinel_run: self.trailing_sentinel_run as int,
            finished: self.finished,
        }
    }
}

proof fn lemma_run_scan_push(run: int, s: Seq<u8>, b: u8)
    ensures
        run_scan(run, s.push(b)) == run_step(run_scan(run, s), b),
    decreases s.len(),
{
    assert(s.push(b)[0] == if s.len() == 0 {
        b
    } else {
        s[0]
    });
    if s.len() == 0 {
        assert(s.push(b).drop_first() =~= Seq::<u8>::empty());
        assert(run_scan(run, s.push(b)) == run_scan(run_step(run, b), Seq::<u8>::empty()));
    } else {
        assert(s.push(b).drop_first() =~= s.drop_first().push(b));
        lemma_run_scan_push(run_step(run, s[0]), s.drop_first(), b);
    }
}

proof fn lemma_run_scan_bounds(run: int, s: Seq<u8>)
    requires
        0 <= run <= 4,
    ensures
        0 <= run_scan(run, s) <= 4,
        run_scan(run, s) <= run + s.len(),
    decreases s.len(),
{
    if s.len() > 0 {
        lemma_run_scan_bounds(run_step(run, s[0]), s.drop_first());
    }
}

impl CredentialFramer {
    /// Creates an empty field: all-zero buffer, no message in progress.
    pub fn new() -> (f: CredentialFramer)
        ensures
            f@ == FramerModel::init(),
            f@.wf(),
    {
        let f = CredentialFramer {
            buf: vec![0u8; FIELD_CAPACITY],
            write_offset: 0,
            message_started: false,
            trailing_sentinel_run: 0,
            finished: false,
        };
        proof {
            assert(f@.buf =~= FramerModel::init().buf);
        }
        f
    }

    /// The accumulated field buffer (what gets persisted on completion).
    pub fn buffer(&self) -> (b: &Vec<u8>)
        ensures
            b@ == self@.buf,
    {
        &self.buf
    }

    /// Whether the field has been completed by an end sentinel.
    pub fn is_finished(&self) -> (r: bool)
        ensures
            r == self@.finished,
    {
        self.finished
    }

    /// Where the next chunk would land: a caller can check that a chunk
    /// still fits the field before feeding it in.
    pub fn write_offset(&self) -> (o: usize)
        ensures
            o == self@.write_offset,
    {
        self.write_offset
    }

    /// Consumes one write event of at most the transport's attribute size.
    ///
    /// Returns true exactly when this chunk completes the field: the caller
    /// must then persist [`Self::buffer`] and set its completion flag. Chunks
    /// outside a message that do not open one are ignored; a chunk that opens
    /// a message restarts accumulation from offset zero.
    pub fn handle_write(&mut self, data: &[u8]) -> (finished_now: bool)
        requires
            old(self)@.wf(),
            old(self)@.write_offset + data@.len() <= FIELD_CAPACITY,
        ensures
            final(self)@ == framer_step(old(self)@, data@),
            final(self)@.wf(),
            finished_now == framer_step_finishes(old(self)@, data@),
    {
        let ghost pre = self@;
        let is_start = !self.message_started && data.len() >= 4 && data[0] == SENTINEL_BYTE
            && data[1] == SENTINEL_BYTE && data[2] == SENTINEL_BYTE && data[3] == SENTINEL_BYTE;
        if !self.message_started && !is_start {
            // Protocol noise outside a message: ignored, nothing changes.
            return false;
        }
        let dstart: usize = if is_start {
            4
        } else {
            0
        };
        let off: usize = if is_start {
            0
        } else {
            self.write_offset
        };
        let mut run: u8 = if is_start {
            0
        } else {
            self.trailing_sentinel_run
        };
        let was_finished = if is_start {
            false
        } else {
            self.finished
        };
        let dlen: usize = data.len() - dstart;
        let ghost d = data@.skip(dstart as int);
        proof {
            if !is_start {
                assert(d =~= data@);
            }
        }
        assert(d.len() == dlen);
        let ghost run0 = run as int;

        // Scan the trailing bytes, carrying the run across chunk boundaries.
        let tail_from: usize = if dlen <= 4 {
            dstart
        } else {
            dstart + dlen - 4
        };
        assert(scan_tail(d) =~= data@.subrange(tail_from as int, data@.len() as int));
        let mut i = tail_from;
        proof {
            assert(data@.subrange(tail_from as int, i as int) =~= Seq::<u8>::empty());
        }
        while i < data.len()
            invariant
                tail_from <= i <= data@.len(),
                data@.len() <= usize::MAX,
                run as int == run_scan(run0, data@.subrange(tail_from as int, i as int)),
                0 <= run0 <= 4,
                0 <= run <= 4,
            decreases data@.len() - i,
        {
            let ghost scanned = data@.subrange(tail_from as int, i as int);
            let b = data[i];
            if b == SENTINEL_BYTE {
                if run < 4 {
                    run = run + 1;
                }
            } else {
                run = 0;
            }
            proof {
                lemma_run_scan_push(run0, scanned, b);
                lemma_run_scan_bounds(run0, scanned.push(b));
                assert(data@.subrange(tail_from as int, i + 1) =~= scanned.push(b));
            }
            i = i + 1;
        }
        proof {
            assert(run as int == run_scan(run0, scan_tail(d)));
            lemma_run_scan_bounds(run0, scan_tail(d));
        }

        // Copy the chunk into the field buffer at the write offset.
        let mut buf: Vec<u8> = Vec::new();
        core::mem::swap(&mut buf, &mut self.buf);
        let mut j: usize = 0;
        while j < dlen
            invariant
                0 <= j <= dlen,
                dstart + dlen == data@.len(),
                data@.len() <= usize::MAX,
                off + dlen <= FIELD_CAPACITY,
                buf@.len() == FIELD_CAPACITY,
                d == data@.skip(dstart as int),
                forall|k: int| 0 <= k < j ==> buf@[off + k] == d[k],
                forall|k: int|
                    0 <= k < buf@.len() && !(off <= k < off + j) ==> buf@[k] == pre.buf[k],
            decreases dlen - j,
        {
            let v = data[dstart + j];
            buf[off + j] = v;
            assert(d[j as int] == v);
            j = j + 1;
        }
        assert(buf@ =~= splice(pre.buf, off as int, d));

        if run == 4 {
            // The end sentinel is complete: zero its four bytes (they may
            // reach back into earlier chunks) and close the message.
            let end: usize = off + dlen;
            proof {
                assert(run0 <= off as int);
                assert(scan_tail(d).len() <= d.len());
                assert(end >= 4);
            }
            let ghost spliced = buf@;
            let mut z: usize = end - 4;
            while z < end
                invariant
                    4 <= end <= FIELD_CAPACITY,
                    end - 4 <= z <= end,
                    buf@.len() == FIELD_CAPACITY,
                    forall|k: int| end - 4 <= k < z ==> buf@[k] == 0u8,
                    forall|k: int|
                        0 <= k < buf@.len() && !(end - 4 <= k < z) ==> buf@[k] == spliced[k],
                decreases end - z,
            {
                let ghost before = buf@;
                buf[z] = 0u8;
                proof {
                    assert(buf@ == before.update(z as int, 0u8));
                    assert forall|k: int| end - 4 <= k < z + 1 implies buf@[k] == 0u8 by {
                        if k == z as int {
                            assert(buf@[k] == 0u8);
                        } else {
                            assert(buf@[k] == before[k]);
                        }
                    }
                }
                z = z + 1;
            }
            assert(buf@ =~= finish_buf(pre.buf, off as int, d));
            self.buf = buf;
            self.write_offset = off;
            self.message_started = false;
            self.trailing_sentinel_run = run;
            self.finished = true;
            proof {
                assert(self@.buf =~= framer_step(pre, data@).buf);
                assert(self@ =~= framer_step(pre, data@));
            }
            true
        } else {
            self.buf = buf;
            self.write_offset = off + dlen;
            self.message_started = true;
            self.trailing_sentinel_run = run;
            self.finished = was_finished;
            proof {
                assert(self@.buf =~= framer_step(pre, data@).buf);
                assert(self@ =~= framer_step(pre, data@));
            }
            false
        }
    }
}

/// The 8-byte ASCII value `"true\0\0\0\0"` of the handshake characteristic.
pub open spec fn spec_true_flag() -> Seq<u8> {
    seq![116u8, 114u8, 117u8, 101u8, 0u8, 0u8, 0u8, 0u8]
}

/// The 8-byte ASCII value `"false\0\0\0"` of the handshake characteristic.
pub open spec fn spec_false_flag() -> Seq<u8> {
    seq![102u8, 97u8, 108u8, 115u8, 101u8, 0u8, 0u8, 0u8]
}

/// The fixed 8-byte flag value the handshake characteristic reads or
/// notifies: `"true\0\0\0\0"` once configured, `"false\0\0\0"` before.
pub fn configured_flag_value(configured: bool) -> (v: [u8; 8])
    ensures
        configured ==> v@ == spec_true_flag(),
        !configured ==> v@ == spec_false_flag(),
{
    if configured {
        let v = [116u8, 114u8, 117u8, 101u8, 0u8, 0u8, 0u8, 0u8];
        proof {
            assert(v@ =~= spec_true_flag());
        }
        v
    } else {
        let v = [102u8, 97u8, 108u8, 115u8, 101u8, 0u8, 0u8, 0u8];
        proof {
            assert(v@ =~= spec_false_flag());
        }
        v
    }
}

/// The reply to a read of a characteristic backed by `source`, resuming at
/// `offset`: the transport may not carry the whole value in one exchange, so
/// a read hands out the bytes from the offset to the end.
pub fn characteristic_read(source: &[u8], offset: usize) -> (chunk: Vec<u8>)
    requires
        offset <= source@.len(),
    ensures
        chunk@ == source@.skip(offset as int),
{
    let mut chunk: Vec<u8> = Vec::new();
    let mut i = offset;
    while i < source.len()
        invariant
            offset <= i <= source@.len(),
            chunk@ == source@.subrange(offset as int, i as int),
        decreases source@.len() - i,
    {
        let ghost prefix = chunk@;
        chunk.push(source[i]);
        proof {
            assert(chunk@ =~= source@.subrange(offset as int, i + 1));
        }
        i = i + 1;
    }
    proof {
        assert(chunk@ =~= source@.skip(offset as int));
    }
    chunk
}

/// Where the provisioning handshake stands.
#[derive(Clone, Copy, PartialEq, Eq, Structural, Debug)]
pub enum SessionPhase {
    /// Waiting for both credential fields to be completed.
    AwaitingCredentials,
    /// Both fields are in; a connection attempt has been requested.
    Connecting,
    /// Connected; waiting for the companion app to acknowledge.
    AwaitingAppAck,
    /// The app acknowledged and the configuration flag has been persisted.
    Finished,
}

/// What the driver must do next on behalf of the session.
#[derive(Clone, Copy, PartialEq, Eq, Structural, Debug)]
pub enum SessionAction {
    /// Nothing to do; keep serving the transport.
    Idle,
    /// Run the connection supervisor with the newly persisted credentials
    /// and report the outcome through `on_connect_result`.
    AttemptConnect,
    /// Notify `"true\0\0\0\0"` on the handshake characteristic.
    NotifyConfigured,
    /// Write the all-zero configuration flag to flash; the session is done.
    PersistConfiguredFlag,
}

/// The session is ready to attempt a connection: both credential fields are
/// complete and no attempt is outstanding.
pub open spec fn ready_to_connect(s: PairingSession) -> bool {
    s.phase == SessionPhase::AwaitingCredentials && s.ssid_written && s.password_written
}

/// The handshake is complete: the device connected and the app acknowledged.
pub open spec fn ready_to_finish(s: PairingSession) -> bool {
    s.phase == SessionPhase::AwaitingAppAck && s.config_confirmed
}

/// The provisioning session: two credential framers, their completion flags,
/// and the read/write/notify handshake with the companion app.
pub struct PairingSession {
    pub ssid_framer: CredentialFramer,
    pub password_framer: CredentialFramer,
    pub ssid_written: bool,
    pub password_written: bool,
    pub config_confirmed: bool,
    pub phase: SessionPhase,
}

impl PairingSession {
    /// Both framers are structurally sound.
    pub open spec fn wf(self) -> bool {
        &&& self.ssid_framer@.wf()
        &&& self.password_framer@.wf()
    }

    /// A fresh session, awaiting credentials.
    pub fn new() -> (s: PairingSession)
        ensures
            s.wf(),
            s.ssid_framer@ == FramerModel::init(),
            s.password_framer@ == FramerModel::init(),
            !s.ssid_written,
            !s.password_written,
            !s.config_confirmed,
            s.phase == SessionPhase::AwaitingCredentials,
    {
        PairingSession {
            ssid_framer: CredentialFramer::new(),
            password_framer: CredentialFramer::new(),
            ssid_written: false,
            password_written: false,
            config_confirmed: false,
            phase: SessionPhase::AwaitingCredentials,
        }
    }

    /// A write event on the SSID characteristic. Returns true exactly when
    /// the chunk completes the field; the driver must then persist
    /// `ssid_framer.buffer()` at the SSID flash address.
    pub fn on_ssid_write(&mut self, data: &[u8]) -> (persist: bool)
        requires
            old(self).wf(),
            old(self).ssid_framer@.write_offset + data@.len() <= FIELD_CAPACITY,
        ensures
            final(self).wf(),
            final(self).ssid_framer@ == framer_step(old(self).ssid_framer@, data@),
            persist == framer_step_finishes(old(self).ssid_framer@, data@),
            final(self).ssid_written == (old(self).ssid_written || persist),
            final(self).password_framer == old(self).password_framer,
            final(self).password_written == old(self).password_written,
            final(self).config_confirmed == old(self).config_confirmed,
            final(self).phase == old(self).phase,
    {
        let finished_now = self.ssid_framer.handle_write(data);
        if finished_now {
            self.ssid_written = true;
        }
        finished_now
    }

    /// A write event on the password characteristic; as `on_ssid_write`.
    pub fn on_password_write(&mut self, data: &[u8]) -> (persist: bool)
        requires
            old(self).wf(),
            old(self).password_framer@.write_offset + data@.len() <= FIELD_CAPACITY,
        ensures
            final(self).wf(),
            final(self).password_framer@ == framer_step(old(self).password_framer@, data@),
            persist == framer_step_finishes(old(self).password_framer@, data@),
            final(self).password_written == (old(self).password_written || persist),
            final(self).ssid_framer == old(self).ssid_framer,
            final(self).ssid_written == old(self).ssid_written,
            final(self).config_confirmed == old(self).config_confirmed,
            final(self).phase == old(self).phase,
    {
        let finished_now = self.password_framer.handle_write(data);
        if finished_now {
            self.password_written = true;
        }
        finished_now
    }

    /// A write on the handshake characteristic: the companion app confirms
    /// it saw the `configured` notification.
    pub fn on_app_ack(&mut self)
        ensures
            *final(self) == (PairingSession { config_confirmed: true, ..*old(self) }),
    {
        self.config_confirmed = true;
    }

    /// The outcome of the connection attempt requested by `poll`. Success
    /// moves the handshake on and asks the driver to notify the app; failure
    /// resets both fields and their flags, so the user must resend
    /// credentials.
    pub fn on_connect_result(&mut self, success: bool) -> (a: SessionAction)
        requires
            old(self).wf(),
            old(self).phase == SessionPhase::Connecting,
        ensures
            final(self).wf(),
            success ==> a == SessionAction::NotifyConfigured && *final(self) == (PairingSession {
                phase: SessionPhase::AwaitingAppAck,
                ..*old(self)
            }),
            !success ==> a == SessionAction::Idle,
            !success ==> final(self).phase == SessionPhase::AwaitingCredentials,
            !success ==> !final(self).ssid_written && !final(self).password_written,
            !success ==> !final(self).config_confirmed,
            !success ==> final(self).ssid_framer@ == FramerModel::init(),
            !success ==> final(self).password_framer@ == FramerModel::init(),
    {
        if success {
            self.phase = SessionPhase::AwaitingAppAck;
            SessionAction::NotifyConfigured
        } else {
            self.ssid_framer = CredentialFramer::new();
            self.password_framer = CredentialFramer::new();
            self.ssid_written = false;
            self.password_written = false;
            self.config_confirmed = false;
            self.phase = SessionPhase::AwaitingCredentials;
            SessionAction::Idle
        }
    }

    /// One turn of the session loop: decides the next action from the
    /// current state. Credentials complete and no attempt outstanding means
    /// connect; a confirmed handshake means persist the configuration flag
    /// and finish.
    pub fn poll(&mut self) -> (a: SessionAction)
        requires
            old(self).wf(),
        ensures
            final(self).wf(),
            ready_to_connect(*old(self)) ==> a == SessionAction::AttemptConnect && *final(self)
                == (PairingSession { phase: SessionPhase::Connecting, ..*old(self) }),
            ready_to_finish(*old(self)) ==> a == SessionAction::PersistConfiguredFlag
                && *final(self) == (PairingSession { phase: SessionPhase::Finished, ..*old(self) }),
            !ready_to_connect(*old(self)) && !ready_to_finish(*old(self)) ==> a
                == SessionAction::Idle && *final(self) == *old(self),
    {
        match self.phase {
            SessionPhase::AwaitingCredentials => {
                if self.ssid_written && self.password_written {
                    self.phase = SessionPhase::Connecting;
                    SessionAction::AttemptConnect
                } else {
                    SessionAction::Idle
                }
            },
            SessionPhase::AwaitingAppAck => {
                if self.config_confirmed {
                    self.phase = SessionPhase::Finished;
                    SessionAction::PersistConfiguredFlag
                } else {
                    SessionAction::Idle
                }
            },
            _ => SessionAction::Idle,
        }
    }
}

} // verus!
