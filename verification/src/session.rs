//! The session registry: a process-wide map from session identifier to
//! session record. It enforces identifier uniqueness for the whole process
//! lifetime, tracks each session's lifecycle state, and drives teardown.
//!
//! The registry is guarded by one mutex in the running server; every
//! operation here is one critical section, so the sequential contracts
//! below describe exactly the serialized history of the map.

use vstd::prelude::*;
use crate::message::bytes_eq;

verus! {

/// Unreserved identifier bytes: ASCII letters, digits, and `$ - _ . +`.
pub open spec fn is_unreserved(b: u8) -> bool {
    (48 <= b <= 57) || (65 <= b <= 90) || (97 <= b <= 122) || b == 36 || b == 45 || b == 95
        || b == 46 || b == 43
}

/// A well-formed session identifier: at least eight unreserved bytes.
pub open spec fn wf_session_id(s: Seq<u8>) -> bool {
    s.len() >= 8 && forall|j: int| 0 <= j < s.len() ==> is_unreserved(#[trigger] s[j])
}

/// An opaque session identifier, textually at least eight unreserved
/// characters when issued by the registry.
#[derive(Debug)]
pub struct SessionId {
    text: Vec<u8>,
}

impl View for SessionId {
    type V = Seq<u8>;

    closed spec fn view(&self) -> Seq<u8> {
        self.text@
    }
}

impl SessionId {
    /// Wraps identifier text, for example the value of a `Session` header.
    pub fn new(text: Vec<u8>) -> (r: SessionId)
        ensures
            r@ == text@,
    {
        SessionId { text }
    }

    /// A copy of this identifier.
    pub fn duplicate(&self) -> (r: SessionId)
        ensures
            r@ == self@,
    {
        SessionId { text: self.text.clone() }
    }

    /// The identifier text.
    pub fn as_bytes(&self) -> (r: &Vec<u8>)
        ensures
            r@ == self@,
    {
        &self.text
    }
}

/// Transport parameters chosen for one session: the interleaved channel
/// pair carrying RTP and RTCP.
#[derive(Clone, Copy, PartialEq, Eq, Structural, Debug)]
pub struct SessionSetup {
    pub rtp_channel: u8,
    pub rtcp_channel: u8,
}

/// Lifecycle state of a session. Once `Stopped`, no further outbound
/// frames are emitted and the entry is eligible for removal.
#[derive(Clone, Copy, PartialEq, Eq, Structural, Debug)]
pub enum SessionState {
    Initialized,
    Ready,
    Playing,
    Stopped,
}

/// One registered session.
#[derive(Debug)]
pub struct Session {
    pub id: SessionId,
    pub path: Vec<u8>,
    pub setup: SessionSetup,
    pub state: SessionState,
}

/// The mathematical model of a session record.
pub struct SessionModel {
    pub id: Seq<u8>,
    pub path: Seq<u8>,
    pub setup: SessionSetup,
    pub state: SessionState,
}

impl View for Session {
    type V = SessionModel;

    open spec fn view(&self) -> SessionModel {
        SessionModel { id: self.id@, path: self.path@, setup: self.setup, state: self.state }
    }
}

/// The mathematical model of the registry: the live map and every
/// identifier ever issued.
pub struct RegistryModel {
    pub live: Seq<SessionModel>,
    pub issued: Seq<Seq<u8>>,
}

/// Index of the first live entry carrying `id`; the length when absent.
pub open spec fn find_live(live: Seq<SessionModel>, id: Seq<u8>) -> nat
    decreases live.len(),
{
    if live.len() == 0 {
        0
    } else if live[0].id == id {
        0
    } else {
        (1 + find_live(live.drop_first(), id)) as nat
    }
}

pub proof fn lemma_find_live(live: Seq<SessionModel>, id: Seq<u8>)
    ensures
        find_live(live, id) <= live.len(),
        forall|j: int| 0 <= j < find_live(live, id) ==> live[j].id != id,
        find_live(live, id) < live.len() ==> live[find_live(live, id) as int].id == id,
    decreases live.len(),
{
    if live.len() > 0 && live[0].id != id {
        lemma_find_live(live.drop_first(), id);
        assert forall|j: int| 0 <= j < find_live(live, id) implies live[j].id != id by {
            if j > 0 {
                assert(live.drop_first()[j - 1].id != id);
            }
        }
    }
}

pub proof fn lemma_find_live_is(live: Seq<SessionModel>, id: Seq<u8>, k: int)
    requires
        0 <= k <= live.len(),
        forall|j: int| 0 <= j < k ==> live[j].id != id,
        k < live.len() ==> live[k].id == id,
        k == live.len() ==> forall|j: int| 0 <= j < live.len() ==> live[j].id != id,
    ensures
        find_live(live, id) == k,
    decreases live.len(),
{
    if live.len() > 0 && live[0].id != id {
        assert forall|j: int| 0 <= j < k - 1 implies live.drop_first()[j].id != id by {
            assert(live[j + 1].id != id);
        }
        lemma_find_live_is(live.drop_first(), id, k - 1);
    }
}

/// Whether `id` names a live, not yet stopped session.
pub open spec fn is_present(m: RegistryModel, id: Seq<u8>) -> bool {
    let k = find_live(m.live, id) as int;
    k < m.live.len() && m.live[k].state != SessionState::Stopped
}

/// What `teardown` does: the torn-down map and whether the session was
/// present. A present session is marked `Stopped`; the entry stays until
/// the stopped notification removes it.
pub open spec fn teardown_spec(m: RegistryModel, id: Seq<u8>) -> (RegistryModel, bool) {
    let k = find_live(m.live, id) as int;
    if k < m.live.len() && m.live[k].state != SessionState::Stopped {
        let s = m.live[k];
        let stopped = SessionModel { id: s.id, path: s.path, setup: s.setup, state: SessionState::Stopped };
        (RegistryModel { live: m.live.update(k, stopped), issued: m.issued }, true)
    } else {
        (m, false)
    }
}

/// What `setup_and_start` does: the new map and whether registration
/// succeeded. An identifier ever issued before is rejected.
pub open spec fn setup_spec(
    m: RegistryModel,
    id: Seq<u8>,
    path: Seq<u8>,
    setup: SessionSetup,
) -> (RegistryModel, bool) {
    if m.issued.contains(id) {
        (m, false)
    } else {
        let fresh = SessionModel { id: id, path: path, setup: setup, state: SessionState::Ready };
        (RegistryModel { live: m.live.push(fresh), issued: m.issued.push(id) }, true)
    }
}

/// What consuming a `Stopped(id)` notification does: the entry leaves the
/// live map.
pub open spec fn remove_stopped_spec(m: RegistryModel, id: Seq<u8>) -> RegistryModel {
    let k = find_live(m.live, id) as int;
    if k < m.live.len() {
        RegistryModel { live: m.live.remove(k), issued: m.issued }
    } else {
        m
    }
}

/// Law: teardown is idempotent. On a present session, tearing down
/// reports `present`; tearing the same identifier down again, and any
/// number of further times, reports `not present` and changes nothing.
pub proof fn lemma_teardown_idempotent(m: RegistryModel, id: Seq<u8>)
    requires
        is_present(m, id),
    ensures
        teardown_spec(m, id).1 == true,
        teardown_spec(teardown_spec(m, id).0, id).1 == false,
        teardown_spec(teardown_spec(m, id).0, id).0 == teardown_spec(m, id).0,
{
    let k = find_live(m.live, id) as int;
    lemma_find_live(m.live, id);
    let m1 = teardown_spec(m, id).0;
    assert forall|j: int| 0 <= j < k implies m1.live[j].id != id by {
        assert(m.live[j].id != id);
    }
    lemma_find_live_is(m1.live, id, k);
}

/// Law: no two successful registrations, in any serialized order of the
/// registry's critical sections, return the same session identifier,
/// whether or not the first session was torn down or removed in between.
pub proof fn lemma_session_id_unique(
    m0: RegistryModel,
    id1: Seq<u8>,
    path1: Seq<u8>,
    su1: SessionSetup,
    m1: RegistryModel,
    id2: Seq<u8>,
    path2: Seq<u8>,
    su2: SessionSetup,
)
    requires
        setup_spec(m0, id1, path1, su1).1 == true,
        issued_grows(setup_spec(m0, id1, path1, su1).0, m1),
        setup_spec(m1, id2, path2, su2).1 == true,
    ensures
        id1 != id2,
{
    let ma = setup_spec(m0, id1, path1, su1).0;
    assert(ma.issued[m0.issued.len() as int] == id1);
    assert(ma.issued.contains(id1));
}

/// Every registry operation only ever adds to the issued set; this is the
/// monotonicity that identifier uniqueness rests on.
pub open spec fn issued_grows(a: RegistryModel, b: RegistryModel) -> bool {
    forall|id: Seq<u8>| a.issued.contains(id) ==> b.issued.contains(id)
}

/// Law: each single operation lets the issued set only grow.
pub proof fn lemma_ops_grow_issued(m: RegistryModel, id: Seq<u8>, path: Seq<u8>, su: SessionSetup)
    ensures
        issued_grows(m, setup_spec(m, id, path, su).0),
        issued_grows(m, teardown_spec(m, id).0),
        issued_grows(m, remove_stopped_spec(m, id)),
{
    assert forall|x: Seq<u8>| m.issued.contains(x) implies setup_spec(
        m,
        id,
        path,
        su,
    ).0.issued.contains(x) by {
        if !m.issued.contains(id) {
            let j = choose|j: int| 0 <= j < m.issued.len() && m.issued[j] == x;
            assert(m.issued.push(id)[j] == x);
        }
    }
}

/// The process-wide session registry.
pub struct SessionManager {
    live: Vec<Session>,
    issued: Vec<SessionId>,
}

impl View for SessionManager {
    type V = RegistryModel;

    closed spec fn view(&self) -> RegistryModel {
        RegistryModel {
            live: self.live@.map_values(|s: Session| s@),
            issued: self.issued@.map_values(|i: SessionId| i@),
        }
    }
}

impl SessionManager {
    /// An empty registry.
    pub fn new() -> (r: SessionManager)
        ensures
            r@.live == Seq::<SessionModel>::empty(),
            r@.issued == Seq::<Seq<u8>>::empty(),
    {
        let r = SessionManager { live: Vec::new(), issued: Vec::new() };
        proof {
            assert(r@.live =~= Seq::<SessionModel>::empty());
            assert(r@.issued =~= Seq::<Seq<u8>>::empty());
        }
        r
    }

    /// Index of the first live entry carrying `id`, as `find_live` gives it.
    fn find_index(&self, id: &[u8]) -> (k: usize)
        ensures
            k == find_live(self@.live, id@),
    {
        let n = self.live.len();
        let mut i: usize = 0;
        while i < n
            invariant
                n == self@.live.len(),
                0 <= i <= n,
                forall|j: int| 0 <= j < i ==> self@.live[j].id != id@,
            decreases n - i,
        {
            if bytes_eq(self.live[i].id.as_bytes().as_slice(), id) {
                proof {
                    lemma_find_live_is(self@.live, id@, i as int);
                }
                return i;
            }
            i += 1;
        }
        proof {
            lemma_find_live_is(self@.live, id@, n as int);
        }
        n
    }

    /// Whether this identifier was ever issued.
    fn was_issued(&self, id: &[u8]) -> (r: bool)
        ensures
            r == self@.issued.contains(id@),
    {
        let n = self.issued.len();
        let mut i: usize = 0;
        while i < n
            invariant
                n == self@.issued.len(),
                0 <= i <= n,
                forall|j: int| 0 <= j < i ==> self@.issued[j] != id@,
            decreases n - i,
        {
            if bytes_eq(self.issued[i].as_bytes().as_slice(), id) {
                assert(self@.issued[i as int] == id@);
                return true;
            }
            i += 1;
        }
        false
    }

    /// Registers a new session under a freshly generated identifier and
    /// starts it. The identifier comes from the caller's generator; a
    /// collision with any identifier ever issued is rejected, so an
    /// identifier is never reused within a process lifetime.
    pub fn setup_and_start(
        &mut self,
        id: SessionId,
        path: Vec<u8>,
        setup: SessionSetup,
    ) -> (r: Result<SessionId, RegisterSessionError>)
        requires
            wf_session_id(id@),
        ensures
            (final(self)@, r is Ok) == setup_spec(old(self)@, id@, path@, setup),
            r matches Ok(rid) ==> rid@ == id@,
    {
        let ghost oldm = self@;
        if self.was_issued(id.as_bytes().as_slice()) {
            return Err(RegisterSessionError::AlreadyRegistered);
        }
        let ghost pathv = path@;
        let out = id.duplicate();
        let session = Session { id: id.duplicate(), path, setup, state: SessionState::Ready };
        self.live.push(session);
        self.issued.push(id);
        proof {
            assert(self@.live =~= oldm.live.push(
                SessionModel { id: out@, path: pathv, setup, state: SessionState::Ready },
            ));
            assert(self@.issued =~= oldm.issued.push(out@));
        }
        Ok(out)
    }

    /// Tears a session down: a present session is signalled to stop and
    /// marked `Stopped`; its entry stays until the stopped notification
    /// arrives. Returns whether the session was present.
    pub fn teardown(&mut self, id: &SessionId) -> (r: Option<()>)
        ensures
            (final(self)@, r is Some) == teardown_spec(old(self)@, id@),
    {
        let ghost oldm = self@;
        let k = self.find_index(id.as_bytes().as_slice());
        proof {
            lemma_find_live(oldm.live, id@);
        }
        if k < self.live.len() {
            let stopped = match self.live[k].state {
                SessionState::Stopped => true,
                _ => false,
            };
            if !stopped {
                let fresh_id = self.live[k].id.duplicate();
                let path = self.live[k].path.clone();
                let setup = self.live[k].setup;
                self.live[k] = Session { id: fresh_id, path, setup, state: SessionState::Stopped };
                proof {
                    assert(self@.live =~= teardown_spec(oldm, id@).0.live);
                    assert(self@.issued =~= oldm.issued);
                }
                return Some(());
            }
        }
        None
    }

    /// Consumes a `Stopped(id)` notification: removes the entry.
    pub fn on_session_stopped(&mut self, id: &SessionId)
        ensures
            final(self)@ == remove_stopped_spec(old(self)@, id@),
    {
        let ghost oldm = self@;
        let k = self.find_index(id.as_bytes().as_slice());
        if k < self.live.len() {
            self.live.remove(k);
            proof {
                assert(self@.live =~= oldm.live.remove(k as int));
                assert(self@.issued =~= oldm.issued);
            }
        }
    }

    /// Stops the registry: tears every remaining session down and drains
    /// the live map. Issued identifiers stay barred forever.
    pub fn stop(&mut self)
        ensures
            final(self)@.live == Seq::<SessionModel>::empty(),
            final(self)@.issued == old(self)@.issued,
    {
        let ghost oldm = self@;
        self.live = Vec::new();
        proof {
            assert(self@.live =~= Seq::<SessionModel>::empty());
            assert(self@.issued =~= oldm.issued);
        }
    }

    /// The number of live entries.
    pub fn live_count(&self) -> (n: usize)
        ensures
            n == self@.live.len(),
    {
        self.live.len()
    }

    /// The state of the session carrying `id`, if one is live.
    pub fn state_of(&self, id: &SessionId) -> (r: Option<SessionState>)
        ensures
            ({
                let k = find_live(self@.live, id@) as int;
                match r {
                    Some(st) => k < self@.live.len() && st == self@.live[k].state,
                    None => k == self@.live.len(),
                }
            }),
    {
        let k = self.find_index(id.as_bytes().as_slice());
        proof {
            lemma_find_live(self@.live, id@);
        }
        if k < self.live.len() {
            Some(self.live[k].state)
        } else {
            None
        }
    }

    /// Marks a present session `Playing`. Returns whether it was present.
    pub fn play(&mut self, id: &SessionId) -> (r: bool)
        ensures
            r == is_present(old(self)@, id@),
            final(self)@.issued == old(self)@.issued,
            ({
                let k = find_live(old(self)@.live, id@) as int;
                if is_present(old(self)@, id@) {
                    final(self)@.live =~= old(self)@.live.update(
                        k,
                        SessionModel {
                            id: old(self)@.live[k].id,
                            path: old(self)@.live[k].path,
                            setup: old(self)@.live[k].setup,
                            state: SessionState::Playing,
                        },
                    )
                } else {
                    final(self)@.live =~= old(self)@.live
                }
            }),
    {
        let ghost oldm = self@;
        let k = self.find_index(id.as_bytes().as_slice());
        proof {
            lemma_find_live(oldm.live, id@);
        }
        if k < self.live.len() {
            let stopped = match self.live[k].state {
                SessionState::Stopped => true,
                _ => false,
            };
            if !stopped {
                let fresh_id = self.live[k].id.duplicate();
                let path = self.live[k].path.clone();
                let setup = self.live[k].setup;
                self.live[k] = Session { id: fresh_id, path, setup, state: SessionState::Playing };
                proof {
                    assert(self@.issued =~= oldm.issued);
                }
                return true;
            }
        }
        proof {
            assert(self@.live =~= oldm.live);
            assert(self@.issued =~= oldm.issued);
        }
        false
    }

    /// The live, not yet stopped session that owns interleaved channel
    /// `ch`, if any: inbound frames are routed by this reverse lookup.
    pub fn find_by_channel(&self, ch: u8) -> (r: Option<SessionId>)
        ensures
            match r {
                Some(id) => exists|j: int|
                    0 <= j < self@.live.len() && {
                        let s = #[trigger] self@.live[j];
                        s.id == id@ && s.state != SessionState::Stopped && (s.setup.rtp_channel
                            == ch || s.setup.rtcp_channel == ch)
                    },
                None => forall|j: int|
                    0 <= j < self@.live.len() ==> {
                        let s = #[trigger] self@.live[j];
                        s.state == SessionState::Stopped || (s.setup.rtp_channel != ch
                            && s.setup.rtcp_channel != ch)
                    },
            },
    {
        let n = self.live.len();
        let mut i: usize = 0;
        while i < n
            invariant
                n == self@.live.len(),
                0 <= i <= n,
                forall|j: int|
                    0 <= j < i ==> {
                        let s = #[trigger] self@.live[j];
                        s.state == SessionState::Stopped || (s.setup.rtp_channel != ch
                            && s.setup.rtcp_channel != ch)
                    },
            decreases n - i,
        {
            let stopped = match self.live[i].state {
                SessionState::Stopped => true,
                _ => false,
            };
            if !stopped && (self.live[i].setup.rtp_channel == ch || self.live[i].setup.rtcp_channel
                == ch) {
                let out = self.live[i].id.duplicate();
                proof {
                    let s = self@.live[i as int];
                    assert(s.id == out@ && s.state != SessionState::Stopped && (s.setup.rtp_channel
                        == ch || s.setup.rtcp_channel == ch));
                }
                return Some(out);
            }
            i += 1;
        }
        None
    }

    /// The lowest even channel number whose pair `(c, c + 1)` no live
    /// session uses, if one is free: the allocation policy for `SETUP`.
    pub fn allocate_channel_pair(&self) -> (r: Option<(u8, u8)>)
        ensures
            r == match free_pair_from(self@.live, 0) {
                Some(c) => Some((c, (c + 1) as u8)),
                None => None::<(u8, u8)>,
            },
    {
        let mut c: u16 = 0;
        while c <= 254
            invariant
                c % 2 == 0,
                c <= 256,
                free_pair_from(self@.live, 0) == free_pair_from(self@.live, c as int),
            decreases 256 - c,
        {
            let lo = c as u8;
            let hi = (c + 1) as u8;
            let n = self.live.len();
            let mut i: usize = 0;
            let mut used = false;
            while i < n
                invariant
                    n == self@.live.len(),
                    0 <= i <= n,
                    lo == c,
                    hi == c + 1,
                    c <= 254,
                    used ==> pair_used(self@.live, lo),
                    !used ==> forall|j: int|
                        0 <= j < i ==> {
                            let s = #[trigger] self@.live[j];
                            s.setup.rtp_channel != lo && s.setup.rtcp_channel != lo
                                && s.setup.rtp_channel != hi && s.setup.rtcp_channel != hi
                        },
                decreases n - i,
            {
                if self.live[i].setup.rtp_channel == lo || self.live[i].setup.rtcp_channel == lo
                    || self.live[i].setup.rtp_channel == hi || self.live[i].setup.rtcp_channel
                    == hi {
                    used = true;
                    proof {
                        let s = self@.live[i as int];
                        assert(s.setup.rtp_channel == lo || s.setup.rtcp_channel == lo
                            || s.setup.rtp_channel == hi || s.setup.rtcp_channel == hi);
                    }
                }
                i += 1;
            }
            if !used {
                proof {
                    assert(!pair_used(self@.live, lo));
                }
                return Some((lo, hi));
            }
            c += 2;
        }
        None
    }
}

/// Whether some live session already uses channel `c` or `c + 1`.
pub open spec fn pair_used(live: Seq<SessionModel>, c: u8) -> bool {
    exists|j: int|
        0 <= j < live.len() && {
            let s = #[trigger] live[j];
            s.setup.rtp_channel == c || s.setup.rtcp_channel == c || s.setup.rtp_channel == c + 1
                || s.setup.rtcp_channel == c + 1
        }
}

/// The lowest free even channel at or above `c`, searching upward two at
/// a time; `None` when every pair below 256 is taken.
pub open spec fn free_pair_from(live: Seq<SessionModel>, c: int) -> Option<u8>
    decreases 256 - c,
        when c >= 0
{
    if c > 254 {
        None
    } else if !pair_used(live, c as u8) {
        Some(c as u8)
    } else {
        free_pair_from(live, c + 2)
    }
}

/// Why a registration was refused.
#[derive(Debug)]
pub enum RegisterSessionError {
    AlreadyRegistered,
}

impl RegisterSessionError {
    /// A short description, in place of `Display`.
    pub fn describe(&self) -> (r: &'static str)
        ensures
            r@ == "already registered"@,
    {
        "already registered"
    }
}

} // verus!
