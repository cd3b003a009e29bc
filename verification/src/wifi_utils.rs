//! Credential-driven connection logic: reading the stored credentials back
//! into text, the connection supervisor that bounds association retries, and
//! the startup decision between direct connection and provisioning.

use crate::errors::{PasswordFlashError, SSIDFlashError};
use vstd::prelude::*;
use vstd::string::StringSliceAdditionalSpecFns;

verus! {

/// How many polling errors the connection supervisor tolerates before it
/// gives up.
pub const MAX_CONNECTION_TRIES: u8 = 5;

/// Number of leading zero bytes.
pub open spec fn leading_zeros(s: Seq<u8>) -> int
    decreases s.len(),
{
    if s.len() == 0 || s[0] != 0 {
        0
    } else {
        1 + leading_zeros(s.drop_first())
    }
}

/// Number of trailing zero bytes.
pub open spec fn trailing_zeros(s: Seq<u8>) -> int
    decreases s.len(),
{
    if s.len() == 0 || s.last() != 0 {
        0
    } else {
        1 + trailing_zeros(s.drop_last())
    }
}

/// `s` with NUL padding removed from both ends.
pub open spec fn trim_zeros(s: Seq<u8>) -> Seq<u8> {
    let t = s.subrange(0, s.len() - trailing_zeros(s));
    t.subrange(leading_zeros(t), t.len() as int)
}

proof fn lemma_leading_zeros_char(s: Seq<u8>, n: int)
    requires
        0 <= n <= s.len(),
        forall|k: int| 0 <= k < n ==> s[k] == 0,
        n < s.len() ==> s[n] != 0,
    ensures
        leading_zeros(s) == n,
    decreases s.len(),
{
    if s.len() > 0 && s[0] == 0 {
        assert(n > 0);
        lemma_leading_zeros_char(s.drop_first(), n - 1);
    }
}

proof fn lemma_trailing_zeros_char(s: Seq<u8>, n: int)
    requires
        0 <= n <= s.len(),
        forall|k: int| s.len() - n <= k < s.len() ==> s[k] == 0,
        n < s.len() ==> s[s.len() - n - 1] != 0,
    ensures
        trailing_zeros(s) == n,
    decreases s.len(),
{
    if s.len() > 0 && s.last() == 0 {
        assert(n > 0);
        lemma_trailing_zeros_char(s.drop_last(), n - 1);
    }
}

/// Cuts the NUL padding off both ends of a stored credential field.
pub fn trim_zero_bytes(buf: &[u8]) -> (r: Vec<u8>)
    ensures
        r@ == trim_zeros(buf@),
{
    let mut hi: usize = buf.len();
    while hi > 0 && buf[hi - 1] == 0
        invariant
            0 <= hi <= buf@.len(),
            forall|k: int| hi <= k < buf@.len() ==> buf@[k] == 0,
        decreases hi,
    {
        hi = hi - 1;
    }
    proof {
        lemma_trailing_zeros_char(buf@, buf@.len() - hi);
    }
    let mut lo: usize = 0;
    while lo < hi && buf[lo] == 0
        invariant
            0 <= lo <= hi <= buf@.len(),
            forall|k: int| 0 <= k < lo ==> buf@[k] == 0,
        decreases hi - lo,
    {
        lo = lo + 1;
    }
    proof {
        let t = buf@.subrange(0, hi as int);
        assert(forall|k: int| 0 <= k < lo ==> t[k] == 0);
        assert(lo < t.len() ==> t[lo as int] != 0);
        lemma_leading_zeros_char(t, lo as int);
    }
    let r = vstd::slice::slice_to_vec(vstd::slice::slice_subrange(buf, lo, hi));
    proof {
        assert(r@ =~= trim_zeros(buf@));
    }
    r
}

/// Relies on `core::str::from_utf8`: it succeeds exactly on UTF-8 input,
/// and the returned `str` is a view of the same bytes, whose characters are
/// their decoding.
#[verifier::external_body]
fn bytes_as_str<'a>(bytes: &'a [u8]) -> (r: Option<&'a str>)
    ensures
        r is Some <==> vstd::utf8::valid_utf8(bytes@),
        r matches Some(s) ==> s.spec_bytes() == bytes@ && s@ == vstd::utf8::decode_utf8(bytes@),
{
    core::str::from_utf8(bytes).ok()
}

/// Client network credentials, as read back from the persisted fields.
pub struct WifiConfig {
    pub ssid: String,
    pub password: String,
}

/// Which credential field could not be read back as text.
#[derive(Clone, Copy, PartialEq, Eq, Structural, Debug)]
pub enum WifiConfigError {
    Ssid(SSIDFlashError),
    Password(PasswordFlashError),
}

/// Rebuilds the client configuration from the two stored credential fields
/// (each NUL-padded). A field whose padded-off content is not UTF-8 fails,
/// the SSID being checked first.
pub fn get_wifi_config(ssid_buf: &[u8], pass_buf: &[u8]) -> (r: Result<WifiConfig, WifiConfigError>)
    ensures
        !vstd::utf8::valid_utf8(trim_zeros(ssid_buf@)) ==> r == Result::<
            WifiConfig,
            WifiConfigError,
        >::Err(WifiConfigError::Ssid(SSIDFlashError)),
        vstd::utf8::valid_utf8(trim_zeros(ssid_buf@)) && !vstd::utf8::valid_utf8(
            trim_zeros(pass_buf@),
        ) ==> r == Result::<WifiConfig, WifiConfigError>::Err(
            WifiConfigError::Password(PasswordFlashError),
        ),
        vstd::utf8::valid_utf8(trim_zeros(ssid_buf@)) && vstd::utf8::valid_utf8(
            trim_zeros(pass_buf@),
        ) ==> (r matches Ok(c) && c.ssid@ == vstd::utf8::decode_utf8(trim_zeros(ssid_buf@))
            && c.password@ == vstd::utf8::decode_utf8(trim_zeros(pass_buf@))),
{
    let ssid_trimmed = trim_zero_bytes(ssid_buf);
    let ssid = match bytes_as_str(ssid_trimmed.as_slice()) {
        Some(s) => s.to_owned(),
        None => {
            return Err(WifiConfigError::Ssid(SSIDFlashError));
        },
    };
    let pass_trimmed = trim_zero_bytes(pass_buf);
    let password = match bytes_as_str(pass_trimmed.as_slice()) {
        Some(s) => s.to_owned(),
        None => {
            return Err(WifiConfigError::Password(PasswordFlashError));
        },
    };
    Ok(WifiConfig { ssid, password })
}

/// What one poll of the radio controller reported.
#[derive(Clone, Copy, PartialEq, Eq, Structural, Debug)]
pub enum ConnPoll {
    /// The controller reports an established association.
    Connected,
    /// Not associated yet; keep polling.
    NotConnected,
    /// The poll itself failed.
    PollError,
}

/// Where a connection attempt stands.
#[derive(Clone, Copy, PartialEq, Eq, Structural, Debug)]
pub enum SupervisorPhase {
    /// Polling the controller for an association.
    AwaitingConnection,
    /// Associated; polling the network stack for an address.
    AwaitingAddress,
    /// Connected with an address assigned.
    Succeeded,
    /// The retry budget is spent.
    Failed,
}

/// Drives configure → start → connect → wait-for-address, counting polling
/// errors against a retry budget. The driver applies the radio calls and
/// feeds each poll result back in.
#[derive(Clone, Copy, PartialEq, Eq, Structural, Debug)]
pub struct ConnectionSupervisor {
    pub tries: u8,
    pub max_tries: u8,
    pub phase: SupervisorPhase,
}

/// A fresh supervisor with the given retry budget.
pub open spec fn spec_supervisor_init(max_tries: u8) -> ConnectionSupervisor {
    ConnectionSupervisor { tries: 0, max_tries, phase: SupervisorPhase::AwaitingConnection }
}

/// The supervisor transition for one association poll: an error consumes
/// one try and fails the attempt once the budget is exceeded; an
/// association moves on to the address wait; anything else keeps polling.
pub open spec fn spec_connection_step(s: ConnectionSupervisor, poll: ConnPoll) -> ConnectionSupervisor {
    if s.phase != SupervisorPhase::AwaitingConnection {
        s
    } else {
        match poll {
            ConnPoll::Connected => ConnectionSupervisor {
                phase: SupervisorPhase::AwaitingAddress,
                ..s
            },
            ConnPoll::NotConnected => s,
            ConnPoll::PollError => {
                if s.tries + 1 > s.max_tries {
                    ConnectionSupervisor {
                        tries: (s.tries + 1) as u8,
                        phase: SupervisorPhase::Failed,
                        ..s
                    }
                } else {
                    ConnectionSupervisor { tries: (s.tries + 1) as u8, ..s }
                }
            },
        }
    }
}

impl ConnectionSupervisor {
    /// The try counter stays within its budget, and the budget leaves room
    /// for the final failing increment.
    pub open spec fn wf(self) -> bool {
        &&& self.max_tries < 255
        &&& self.tries <= self.max_tries + 1
        &&& self.phase == SupervisorPhase::AwaitingConnection ==> self.tries <= self.max_tries
    }

    /// A fresh supervisor with the given retry budget.
    pub fn new(max_tries: u8) -> (s: ConnectionSupervisor)
        requires
            max_tries < 255,
        ensures
            s == spec_supervisor_init(max_tries),
            s.wf(),
    {
        ConnectionSupervisor { tries: 0, max_tries, phase: SupervisorPhase::AwaitingConnection }
    }

    /// Feeds one association poll result in.
    pub fn on_connection_poll(&mut self, poll: ConnPoll)
        requires
            old(self).wf(),
        ensures
            final(self).wf(),
            *final(self) == spec_connection_step(*old(self), poll),
    {
        if matches!(self.phase, SupervisorPhase::AwaitingConnection) {
            match poll {
                ConnPoll::Connected => {
                    self.phase = SupervisorPhase::AwaitingAddress;
                },
                ConnPoll::NotConnected => {},
                ConnPoll::PollError => {
                    self.tries = self.tries + 1;
                    if self.tries > self.max_tries {
                        self.phase = SupervisorPhase::Failed;
                    }
                },
            }
        }
    }

    /// Feeds one address poll in: once the interface is up, the attempt has
    /// succeeded.
    pub fn on_address_poll(&mut self, iface_up: bool)
        requires
            old(self).wf(),
        ensures
            final(self).wf(),
            old(self).phase == SupervisorPhase::AwaitingAddress && iface_up ==> *final(self) == (
            ConnectionSupervisor { phase: SupervisorPhase::Succeeded, ..*old(self) }),
            !(old(self).phase == SupervisorPhase::AwaitingAddress && iface_up) ==> *final(self)
                == *old(self),
    {
        if matches!(self.phase, SupervisorPhase::AwaitingAddress) && iface_up {
            self.phase = SupervisorPhase::Succeeded;
        }
    }
}

/// The supervisor state after `n` consecutive failing polls.
pub open spec fn spec_steps_all_errors(s: ConnectionSupervisor, n: nat) -> ConnectionSupervisor
    decreases n,
{
    if n == 0 {
        s
    } else {
        spec_connection_step(spec_steps_all_errors(s, (n - 1) as nat), ConnPoll::PollError)
    }
}

/// Against a controller that fails every poll, a fresh supervisor with
/// budget `max_tries` is still waiting after any `n <= max_tries` polls —
/// having consumed exactly `n` tries — and has failed for good after
/// exactly `max_tries + 1` of them. It never needs more polls than that.
pub proof fn lemma_connect_fails_after_budget(max_tries: u8, n: nat)
    requires
        max_tries < 255,
    ensures
        n <= max_tries ==> spec_steps_all_errors(spec_supervisor_init(max_tries), n)
            == (ConnectionSupervisor {
            tries: n as u8,
            max_tries,
            phase: SupervisorPhase::AwaitingConnection,
        }),
        n > max_tries ==> spec_steps_all_errors(spec_supervisor_init(max_tries), n)
            == (ConnectionSupervisor {
            tries: (max_tries + 1) as u8,
            max_tries,
            phase: SupervisorPhase::Failed,
        }),
    decreases n,
{
    if n > 0 {
        lemma_connect_fails_after_budget(max_tries, (n - 1) as nat);
    }
}

/// The keep-alive decision of the main loop: reconnect exactly when the
/// controller answered the poll and reported no association (a failing poll
/// is only logged).
pub fn should_attempt_reconnect(poll: ConnPoll) -> (r: bool)
    ensures
        r == (poll == ConnPoll::NotConnected),
{
    matches!(poll, ConnPoll::NotConnected)
}

/// What startup does next.
#[derive(Clone, Copy, PartialEq, Eq, Structural, Debug)]
pub enum NetworkInitAction {
    /// Run the connection supervisor on the stored credentials, retrying
    /// until it succeeds.
    ConnectToNetwork,
    /// Stop the radio controller and run a provisioning session first.
    StartPairing,
}

/// The startup decision for a given configuration-flag state.
pub open spec fn spec_network_init(configured: bool) -> NetworkInitAction {
    if configured {
        NetworkInitAction::ConnectToNetwork
    } else {
        NetworkInitAction::StartPairing
    }
}

/// Decides from the persisted configuration flag whether to connect with
/// the stored credentials directly or to provision first.
pub fn initialize_network_or_pair(configured: bool) -> (a: NetworkInitAction)
    ensures
        a == spec_network_init(configured),
{
    if configured {
        NetworkInitAction::ConnectToNetwork
    } else {
        NetworkInitAction::StartPairing
    }
}

/// A device whose configuration flag reads all zero goes straight to the
/// connection supervisor: startup on such a flag never chooses pairing.
pub proof fn lemma_configured_flag_skips_pairing(flag: Seq<u8>)
    requires
        crate::utils::spec_is_configured(flag),
    ensures
        spec_network_init(crate::utils::spec_is_configured(flag))
            == NetworkInitAction::ConnectToNetwork,
        spec_network_init(crate::utils::spec_is_configured(flag))
            != NetworkInitAction::StartPairing,
{
}

} // verus!
