//! Delivery channel manager: the lifecycle decisions for the single
//! outbound network stream and its persisted target address.
//!
//! The manager keeps the persisted server address (the caller mirrors it to
//! the key-value collaborator), the hardcoded fallback given at
//! construction, and whether a live stream is up. The caller performs the
//! actual connect attempts and feeds the outcomes back: a failed attempt
//! against the persisted address substitutes — and persists — the fallback
//! and asks for exactly one retry; a second failure gives up until a later
//! tick or a configuration change triggers a new attempt.

use vstd::prelude::*;

verus! {

/// Connectivity settings submitted through the configuration portal: a
/// network name, its passphrase, and the backend server address.
pub struct FormData {
    pub wifi_ssid: String,
    pub wifi_pass: String,
    pub ip_addr: String,
}

/// Largest accepted portal submission in bytes; longer request bodies are
/// rejected outright.
pub const MAX_FORM_LEN: usize = 128;

/// True exactly when the two byte strings are equal.
pub fn bytes_eq(a: &Vec<u8>, b: &Vec<u8>) -> (r: bool)
    ensures
        r == (a@ =~= b@),
{
    if a.len() != b.len() {
        return false;
    }
    let mut i: usize = 0;
    while i < a.len()
        invariant
            i <= a.len(),
            a.len() == b.len(),
            forall|j: int| 0 <= j < i ==> a@[j] == b@[j],
        decreases a.len() - i,
    {
        if a[i] != b[i] {
            return false;
        }
        i = i + 1;
    }
    true
}

/// Copies a byte string.
fn clone_bytes(a: &Vec<u8>) -> (r: Vec<u8>)
    ensures
        r@ =~= a@,
{
    let mut r: Vec<u8> = Vec::new();
    let mut i: usize = 0;
    while i < a.len()
        invariant
            i <= a.len(),
            r@ =~= a@.take(i as int),
        decreases a.len() - i,
    {
        r.push(a[i]);
        proof {
            assert(a@.take(i + 1) =~= a@.take(i as int).push(a@[i as int]));
        }
        i = i + 1;
    }
    proof {
        assert(a@.take(a@.len() as int) =~= a@);
    }
    r
}

/// State of the outbound stream and its addresses.
pub struct ChannelManager {
    /// Persisted target address; the caller mirrors every change of it to
    /// the key-value collaborator.
    pub server_addr: Vec<u8>,
    /// Hardcoded fallback address fixed at construction.
    pub default_addr: Vec<u8>,
    /// Whether a live stream is currently held.
    pub connected: bool,
    /// Whether the current connect attempt already fell back to the
    /// default address.
    pub trying_default: bool,
}

impl ChannelManager {
    /// A manager without a live stream, targeting the persisted address if
    /// one was stored, else the fallback.
    pub fn new(persisted: Option<Vec<u8>>, default_addr: Vec<u8>) -> (r: ChannelManager)
        ensures
            match persisted {
                Some(a) => r.server_addr@ == a@,
                None => r.server_addr@ =~= default_addr@,
            },
            r.default_addr@ == default_addr@,
            !r.connected,
            !r.trying_default,
    {
        let server_addr = match persisted {
            Some(a) => a,
            None => clone_bytes(&default_addr),
        };
        ChannelManager { server_addr, default_addr, connected: false, trying_default: false }
    }

    /// Whether a live stream is currently held.
    pub fn has_connection(&self) -> (r: bool)
        ensures
            r == self.connected,
    {
        self.connected
    }

    /// Starts a connect attempt: the caller must try the returned address
    /// (the persisted target) and report the outcome.
    pub fn begin_connect(&mut self) -> (addr: Vec<u8>)
        ensures
            addr@ =~= old(self).server_addr@,
            *final (self) == (ChannelManager { trying_default: false, ..*old(self) }),
    {
        self.trying_default = false;
        clone_bytes(&self.server_addr)
    }

    /// Reports a successful connect: the stream is up.
    pub fn connect_succeeded(&mut self)
        ensures
            *final (self) == (ChannelManager { connected: true, trying_default: false, ..*old(
                self,
            ) }),
    {
        self.connected = true;
        self.trying_default = false;
    }

    /// Reports a failed connect attempt. After the first failure the
    /// fallback address is substituted and persisted and the caller must
    /// retry once with the returned address; after the fallback also fails
    /// nothing is returned, the stream stays down, and a later dispatch
    /// tick retries from the start.
    pub fn connect_failed(&mut self) -> (retry: Option<Vec<u8>>)
        ensures
            !final (self).connected,
            final (self).default_addr == old(self).default_addr,
            !old(self).trying_default ==> retry is Some && retry->0@ =~= old(self).default_addr@
                && final (self).server_addr@ =~= old(self).default_addr@ && final (
            self).trying_default,
            old(self).trying_default ==> retry is None && final (self).server_addr == old(
                self,
            ).server_addr && !final (self).trying_default,
    {
        self.connected = false;
        if !self.trying_default {
            self.server_addr = clone_bytes(&self.default_addr);
            self.trying_default = true;
            Some(clone_bytes(&self.default_addr))
        } else {
            self.trying_default = false;
            None
        }
    }

    /// Drops the live stream, releasing the underlying socket.
    pub fn shutdown(&mut self)
        ensures
            *final (self) == (ChannelManager { connected: false, ..*old(self) }),
    {
        self.connected = false;
    }

    /// Applies a newly submitted server address from the configuration
    /// portal. An unchanged address is left alone; a changed one replaces
    /// the persisted target and tears the stream down, and the caller must
    /// then run a fresh connect attempt.
    pub fn apply_config_update(&mut self, new_addr: Vec<u8>) -> (changed: bool)
        ensures
            changed == !(new_addr@ =~= old(self).server_addr@),
            changed ==> final (self).server_addr@ == new_addr@ && !final (self).connected
                && final (self).default_addr == old(self).default_addr,
            !changed ==> *final (self) == *old(self),
    {
        if bytes_eq(&new_addr, &self.server_addr) {
            false
        } else {
            self.server_addr = new_addr;
            self.connected = false;
            true
        }
    }
}

} // verus!
