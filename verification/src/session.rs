//! Sessions: named terminal sessions, each with its scrollback grid, and the
//! registry of agents that may use them.
use vstd::prelude::*;
use vstd::hash_set::StringHashSet;
use crate::grid::{after_ingest, after_read, history_text, GridView, TerminalGrid};
use crate::keys::{agent_id_from_secret, agent_id_of, is_agent_id, random_secret_key};

verus! {

/// Why a session request was refused.
#[derive(PartialEq, Eq, Debug)]
pub enum SessionError {
    /// The agent id is not one that `register_agent` handed out.
    Unauthenticated,
    /// No session has this id.
    SessionNotFound(String),
    /// The operating system's random generator failed to give a new agent key.
    KeyUnavailable,
}

/// The message of the refusal named by `e`.
pub open spec fn error_message(e: SessionError) -> Seq<char> {
    match e {
        SessionError::Unauthenticated => "Authentication failed: Invalid or unregistered agent_id"@,
        SessionError::SessionNotFound(id) => "Session "@ + id@ + " not found"@,
        SessionError::KeyUnavailable => "Could not draw an agent key: the random generator failed"@,
    }
}

impl SessionError {
    /// The text of this error.
    pub fn message(&self) -> (m: String)
        ensures
            m@ == error_message(*self),
    {
        match self {
            SessionError::Unauthenticated => String::from_str(
                "Authentication failed: Invalid or unregistered agent_id",
            ),
            SessionError::SessionNotFound(id) => {
                let mut m = String::from_str("Session ");
                m.append(id.as_str());
                m.append(" not found");
                m
            },
            SessionError::KeyUnavailable => String::from_str(
                "Could not draw an agent key: the random generator failed",
            ),
        }
    }
}

/// What a session holds: the instance of the process that feeds it, and its grid.
pub struct SessionView {
    pub instance: u64,
    pub grid: GridView,
}

/// A terminal session as the library keeps it: its id, the instance number of
/// the process whose output it records, and the grid of that output.
pub struct PtySession {
    pub id: String,
    pub instance: u64,
    pub grid: TerminalGrid,
}

impl PtySession {
    /// The session's state as the contracts see it.
    pub open spec fn state(&self) -> SessionView {
        SessionView { instance: self.instance, grid: self.grid@ }
    }

    /// A new session `id` for process instance `instance`, with an empty grid.
    pub fn new(id: &str, instance: u64) -> (s: Self)
        ensures
            s.id@ == id@,
            s.instance == instance,
            s.grid.wf(),
            s.grid@ == TerminalGrid::new_view(),
    {
        PtySession { id: String::from_str(id), instance, grid: TerminalGrid::new() }
    }

    /// Reads this session's scrollback; see `TerminalGrid::read_history`.
    pub fn read_history(
        &mut self,
        agent_id: &str,
        start_line: Option<usize>,
        max_lines: Option<usize>,
    ) -> (text: String)
        requires
            old(self).grid.wf(),
        ensures
            final(self).grid.wf(),
            final(self).id == old(self).id,
            final(self).instance == old(self).instance,
            text@ == history_text(old(self).grid@, agent_id@, start_line, max_lines),
            final(self).grid@ == after_read(old(self).grid@, agent_id@, start_line, max_lines),
    {
        self.grid.read_history(agent_id, start_line, max_lines)
    }
}

/// The sessions of `v` by id.
pub open spec fn sessions_by_id(v: Seq<PtySession>) -> Map<Seq<char>, SessionView> {
    Map::new(
        |k: Seq<char>| exists|i: int| 0 <= i < v.len() && #[trigger] v[i].id@ == k,
        |k: Seq<char>| v[choose|i: int| 0 <= i < v.len() && #[trigger] v[i].id@ == k].state(),
    )
}

/// No two sessions of `v` share an id.
pub open spec fn distinct_ids(v: Seq<PtySession>) -> bool {
    forall|i: int, j: int| 0 <= i < v.len() && 0 <= j < v.len() && i != j ==> #[trigger] v[i].id@
        != #[trigger] v[j].id@
}

/// In `v` with distinct ids, the session at `i` is the one its id names.
pub proof fn lemma_session_at(v: Seq<PtySession>, i: int)
    requires
        distinct_ids(v),
        0 <= i < v.len(),
    ensures
        sessions_by_id(v).contains_key(v[i].id@),
        sessions_by_id(v)[v[i].id@] == v[i].state(),
{
    let k = v[i].id@;
    assert(exists|j: int| 0 <= j < v.len() && #[trigger] v[j].id@ == k);
    let j = choose|j: int| 0 <= j < v.len() && #[trigger] v[j].id@ == k;
    assert(i == j);
}

/// Ids are distinct and every grid is well formed.
pub open spec fn sessions_wf(v: Seq<PtySession>) -> bool {
    &&& distinct_ids(v)
    &&& forall|i: int| 0 <= i < v.len() ==> #[trigger] v[i].grid.wf()
}

/// Replacing the session at `i` by one with the same id keeps the sessions well
/// formed, and replaces that id's entry in the map.
pub proof fn lemma_replace(old_v: Seq<PtySession>, v: Seq<PtySession>, i: int)
    requires
        sessions_wf(old_v),
        0 <= i < old_v.len(),
        v.len() == old_v.len(),
        forall|j: int| 0 <= j < v.len() && j != i ==> v[j] == old_v[j],
        v[i].id@ == old_v[i].id@,
        v[i].grid.wf(),
    ensures
        sessions_wf(v),
        sessions_by_id(v) == sessions_by_id(old_v).insert(old_v[i].id@, v[i].state()),
{
    assert(distinct_ids(v)) by {
        assert forall|a: int, b: int|
            0 <= a < v.len() && 0 <= b < v.len() && a != b implies #[trigger] v[a].id@
                != #[trigger] v[b].id@ by {
            if a != i {
                assert(v[a] == old_v[a]);
            }
            if b != i {
                assert(v[b] == old_v[b]);
            }
        }
    }
    assert forall|j: int| 0 <= j < v.len() implies #[trigger] v[j].grid.wf() by {
        if j != i {
            assert(v[j] == old_v[j]);
        }
    }
    let m = sessions_by_id(v);
    let t = sessions_by_id(old_v).insert(old_v[i].id@, v[i].state());
    lemma_session_at(v, i);
    assert forall|k: Seq<char>| m.contains_key(k) <==> t.contains_key(k) by {
        if m.contains_key(k) {
            let j = choose|j: int| 0 <= j < v.len() && #[trigger] v[j].id@ == k;
            if j != i {
                assert(old_v[j] == v[j]);
            }
        }
        if t.contains_key(k) && k != old_v[i].id@ {
            let j = choose|j: int| 0 <= j < old_v.len() && #[trigger] old_v[j].id@ == k;
            assert(old_v[j] == v[j]);
        }
    }
    assert forall|k: Seq<char>| #[trigger] m.contains_key(k) implies m[k] == t[k] by {
        let j = choose|j: int| 0 <= j < v.len() && #[trigger] v[j].id@ == k;
        lemma_session_at(v, j);
        if j != i {
            assert(old_v[j] == v[j]);
            lemma_session_at(old_v, j);
        }
    }
    assert(m =~= t);
}

/// Adding a session with a new id keeps the sessions well formed, and adds
/// its entry to the map.
pub proof fn lemma_push(old_v: Seq<PtySession>, s: PtySession)
    requires
        sessions_wf(old_v),
        forall|j: int| 0 <= j < old_v.len() ==> #[trigger] old_v[j].id@ != s.id@,
        s.grid.wf(),
    ensures
        sessions_wf(old_v.push(s)),
        sessions_by_id(old_v.push(s)) == sessions_by_id(old_v).insert(s.id@, s.state()),
{
    let v = old_v.push(s);
    let n = old_v.len() as int;
    assert(distinct_ids(v)) by {
        assert forall|a: int, b: int|
            0 <= a < v.len() && 0 <= b < v.len() && a != b implies #[trigger] v[a].id@
                != #[trigger] v[b].id@ by {
            if a < n {
                assert(v[a] == old_v[a]);
            }
            if b < n {
                assert(v[b] == old_v[b]);
            }
        }
    }
    assert forall|j: int| 0 <= j < v.len() implies #[trigger] v[j].grid.wf() by {
        if j < n {
            assert(v[j] == old_v[j]);
        }
    }
    let m = sessions_by_id(v);
    let t = sessions_by_id(old_v).insert(s.id@, s.state());
    lemma_session_at(v, n);
    assert forall|k: Seq<char>| m.contains_key(k) <==> t.contains_key(k) by {
        if m.contains_key(k) {
            let j = choose|j: int| 0 <= j < v.len() && #[trigger] v[j].id@ == k;
            if j != n {
                assert(old_v[j] == v[j]);
            }
        }
        if t.contains_key(k) && k != s.id@ {
            let j = choose|j: int| 0 <= j < old_v.len() && #[trigger] old_v[j].id@ == k;
            assert(old_v[j] == v[j]);
        }
    }
    assert forall|k: Seq<char>| #[trigger] m.contains_key(k) implies m[k] == t[k] by {
        let j = choose|j: int| 0 <= j < v.len() && #[trigger] v[j].id@ == k;
        lemma_session_at(v, j);
        if j != n {
            assert(old_v[j] == v[j]);
            lemma_session_at(old_v, j);
        }
    }
    assert(m =~= t);
}

/// Removing the session at `i` keeps the sessions well formed, and removes its
/// id from the map.
pub proof fn lemma_remove_view(v: Seq<PtySession>, i: int)
    requires
        sessions_wf(v),
        0 <= i < v.len(),
    ensures
        sessions_wf(v.remove(i)),
        sessions_by_id(v.remove(i)) == sessions_by_id(v).remove(v[i].id@),
{
    let w = v.remove(i);
    assert(distinct_ids(w)) by {
        assert forall|a: int, b: int|
            0 <= a < w.len() && 0 <= b < w.len() && a != b implies #[trigger] w[a].id@
                != #[trigger] w[b].id@ by {
            let a2 = if a < i { a } else { a + 1 };
            let b2 = if b < i { b } else { b + 1 };
            assert(w[a] == v[a2] && w[b] == v[b2]);
        }
    }
    assert forall|j: int| 0 <= j < w.len() implies #[trigger] w[j].grid.wf() by {
        let j2 = if j < i { j } else { j + 1 };
        assert(w[j] == v[j2]);
    }
    let m = sessions_by_id(w);
    let t = sessions_by_id(v).remove(v[i].id@);
    assert forall|k: Seq<char>| m.contains_key(k) <==> t.contains_key(k) by {
        if m.contains_key(k) {
            let j = choose|j: int| 0 <= j < w.len() && #[trigger] w[j].id@ == k;
            let j2 = if j < i { j } else { j + 1 };
            assert(w[j] == v[j2]);
        }
        if t.contains_key(k) {
            let j = choose|j: int| 0 <= j < v.len() && #[trigger] v[j].id@ == k;
            let j1 = if j < i { j } else { j - 1 };
            assert(w[j1] == v[j]);
        }
    }
    assert forall|k: Seq<char>| #[trigger] m.contains_key(k) implies m[k] == t[k] by {
        let j = choose|j: int| 0 <= j < w.len() && #[trigger] w[j].id@ == k;
        let j2 = if j < i { j } else { j + 1 };
        assert(w[j] == v[j2]);
        lemma_session_at(w, j);
        lemma_session_at(v, j2);
    }
    assert(m =~= t);
}

/// There are as many sessions by id as sessions.
pub proof fn lemma_sessions_len(v: Seq<PtySession>)
    requires
        sessions_wf(v),
    ensures
        sessions_by_id(v).len() == v.len(),
        sessions_by_id(v).dom().finite(),
    decreases v.len(),
{
    if v.len() == 0 {
        assert(sessions_by_id(v).dom() =~= Set::<Seq<char>>::empty());
    } else {
        let n = v.len() - 1;
        let w = v.remove(n);
        lemma_remove_view(v, n);
        lemma_sessions_len(w);
        lemma_session_at(v, n);
        assert(sessions_by_id(w).dom() =~= sessions_by_id(v).dom().remove(v[n].id@));
        assert(sessions_by_id(v).dom() =~= sessions_by_id(w).dom().insert(v[n].id@));
    }
}

/// What a session manager holds: the registered agent ids and the sessions by id.
pub struct ManagerView {
    pub agents: Set<Seq<char>>,
    pub sessions: Map<Seq<char>, SessionView>,
}

/// The registry of agents and the sessions they run.
///
/// The sessions are kept in a vector in which no id occurs twice (see `wf`),
/// searched by id: a read changes a session's grid in place and a listing needs
/// every id, and vstd's string-keyed map offers neither a mutable lookup nor
/// the list of its keys.
pub struct SessionManager {
    sessions: Vec<PtySession>,
    registered_agents: StringHashSet,
}

impl View for SessionManager {
    type V = ManagerView;

    closed spec fn view(&self) -> ManagerView {
        ManagerView { agents: self.registered_agents@, sessions: sessions_by_id(self.sessions@) }
    }
}

impl SessionManager {
    /// Well formed: session ids are distinct and every grid is well formed.
    pub closed spec fn wf(&self) -> bool {
        sessions_wf(self.sessions@)
    }

    /// An empty manager: no agents, no sessions.
    pub fn new() -> (m: Self)
        ensures
            m.wf(),
            m@.agents == Set::<Seq<char>>::empty(),
            m@.sessions == Map::<Seq<char>, SessionView>::empty(),
    {
        let m = SessionManager { sessions: Vec::new(), registered_agents: StringHashSet::new() };
        assert(m@.sessions =~= Map::<Seq<char>, SessionView>::empty());
        m
    }

    /// The index of the session `id`, if there is one.
    fn find(&self, id: &str) -> (r: Option<usize>)
        ensures
            match r {
                Some(i) => i < self.sessions@.len() && self.sessions@[i as int].id@ == id@,
                None => forall|i: int| 0 <= i < self.sessions@.len() ==> #[trigger] self.sessions@[i].id@ != id@,
            },
    {
        let key = String::from_str(id);
        let n = self.sessions.len();
        let mut i: usize = 0;
        while i < n
            invariant
                n == self.sessions@.len(),
                i <= n,
                key@ == id@,
                forall|j: int| 0 <= j < i ==> #[trigger] self.sessions@[j].id@ != id@,
            decreases n - i,
        {
            if self.sessions[i].id == key {
                return Some(i);
            }
            i = i + 1;
        }
        None
    }

    /// Checks that `agent_id` is registered.
    pub fn authenticate(&self, agent_id: &str) -> (r: Result<(), SessionError>)
        ensures
            r is Ok <==> self@.agents.contains(agent_id@),
            r is Err ==> r == Err::<(), SessionError>(SessionError::Unauthenticated),
    {
        if self.registered_agents.contains(agent_id) {
            Ok(())
        } else {
            Err(SessionError::Unauthenticated)
        }
    }

    /// Registers the agent whose secret key is `secret`, and returns its id.
    pub fn register_agent_with_secret(&mut self, secret: &[u8; 32]) -> (id: String)
        ensures
            id@ == agent_id_of(secret@),
            is_agent_id(id@),
            final(self)@.agents == old(self)@.agents.insert(id@),
            final(self)@.sessions == old(self)@.sessions,
            final(self).wf() == old(self).wf(),
    {
        let agent_id = agent_id_from_secret(secret);
        self.registered_agents.insert(agent_id.clone());
        agent_id
    }

    /// Registers a new agent whose id is the hex public key of a freshly drawn
    /// Ed25519 secret key, and returns the id; fails, changing nothing, where
    /// the operating system's random generator gives no key.
    pub fn register_agent(&mut self) -> (r: Result<String, SessionError>)
        ensures
            r is Err ==> r == Err::<String, SessionError>(SessionError::KeyUnavailable)
                && final(self)@ == old(self)@,
            r matches Ok(id) ==> {
                &&& exists|secret: Seq<u8>| secret.len() == 32 && id@ == #[trigger] agent_id_of(secret)
                &&& is_agent_id(id@)
                &&& final(self)@.agents == old(self)@.agents.insert(id@)
                &&& final(self)@.sessions == old(self)@.sessions
            },
            final(self).wf() == old(self).wf(),
    {
        match random_secret_key() {
            Some(secret) => {
                let id = self.register_agent_with_secret(&secret);
                assert(secret@.len() == 32);
                Ok(id)
            },
            None => Err(SessionError::KeyUnavailable),
        }
    }

    /// Records the session `id`, run for process instance `instance`, after
    /// checking that `agent_id` is registered. A session with the same id is
    /// replaced.
    pub fn spawn(&mut self, id: &str, agent_id: &str, instance: u64) -> (r: Result<(), SessionError>)
        requires
            old(self).wf(),
        ensures
            final(self).wf(),
            r is Ok <==> old(self)@.agents.contains(agent_id@),
            r is Err ==> r == Err::<(), SessionError>(SessionError::Unauthenticated) && final(self)@ == old(self)@,
            r is Ok ==> final(self)@.agents == old(self)@.agents && final(self)@.sessions == old(
                self,
            )@.sessions.insert(id@, SessionView { instance, grid: TerminalGrid::new_view() }),
    {
        if !self.registered_agents.contains(agent_id) {
            return Err(SessionError::Unauthenticated);
        }
        let session = PtySession::new(id, instance);
        let ghost old_v = self.sessions@;
        match self.find(id) {
            Some(i) => {
                self.sessions.set(i, session);
                proof {
                    lemma_replace(old_v, self.sessions@, i as int);
                }
            },
            None => {
                self.sessions.push(session);
                proof {
                    lemma_push(old_v, self.sessions@.last());
                    assert(self.sessions@ =~= old_v.push(self.sessions@.last()));
                }
            },
        }
        Ok(())
    }

    /// Checks that `agent_id` is registered and that session `id` exists, so that
    /// input may be written to that session's terminal.
    pub fn write_stdin(&self, id: &str, agent_id: &str) -> (r: Result<(), SessionError>)
        ensures
            !self@.agents.contains(agent_id@) ==> r == Err::<(), SessionError>(SessionError::Unauthenticated),
            self@.agents.contains(agent_id@) && !self@.sessions.contains_key(id@) ==> (r matches Err(
                SessionError::SessionNotFound(s),
            ) && s@ == id@),
            self@.agents.contains(agent_id@) && self@.sessions.contains_key(id@) ==> r is Ok,
    {
        if !self.registered_agents.contains(agent_id) {
            return Err(SessionError::Unauthenticated);
        }
        match self.find(id) {
            Some(i) => {
                assert(sessions_by_id(self.sessions@).contains_key(self.sessions@[i as int].id@));
                Ok(())
            },
            None => Err(SessionError::SessionNotFound(String::from_str(id))),
        }
    }

    /// Reads the scrollback of session `id` for `agent_id`, after checking that
    /// the agent is registered and the session exists.
    pub fn read_history(
        &mut self,
        id: &str,
        agent_id: &str,
        start_line: Option<usize>,
        max_lines: Option<usize>,
    ) -> (r: Result<String, SessionError>)
        requires
            old(self).wf(),
        ensures
            final(self).wf(),
            !old(self)@.agents.contains(agent_id@) ==> r == Err::<String, SessionError>(
                SessionError::Unauthenticated,
            ),
            old(self)@.agents.contains(agent_id@) && !old(self)@.sessions.contains_key(id@) ==> (
            r matches Err(SessionError::SessionNotFound(s)) && s@ == id@),
            r is Err ==> final(self)@ == old(self)@,
            old(self)@.agents.contains(agent_id@) && old(self)@.sessions.contains_key(id@) ==> ({
                let sv = old(self)@.sessions[id@];
                &&& r matches Ok(text) && text@ == history_text(
                    sv.grid,
                    agent_id@,
                    start_line,
                    max_lines,
                )
                &&& final(self)@.agents == old(self)@.agents
                &&& final(self)@.sessions == old(self)@.sessions.insert(
                    id@,
                    SessionView {
                        instance: sv.instance,
                        grid: after_read(sv.grid, agent_id@, start_line, max_lines),
                    },
                )
            }),
    {
        if !self.registered_agents.contains(agent_id) {
            return Err(SessionError::Unauthenticated);
        }
        match self.find(id) {
            Some(i) => {
                let ghost old_v = self.sessions@;
                proof {
                    lemma_session_at(old_v, i as int);
                }
                let text = self.sessions[i].read_history(agent_id, start_line, max_lines);
                proof {
                    lemma_replace(old_v, self.sessions@, i as int);
                }
                Ok(text)
            },
            None => Err(SessionError::SessionNotFound(String::from_str(id))),
        }
    }

    /// Adds raw output of process instance `instance` to session `id`, if that
    /// session exists and still records that instance; says whether it did.
    pub fn ingest(&mut self, id: &str, instance: u64, bytes: &[u8]) -> (took: bool)
        requires
            old(self).wf(),
        ensures
            final(self).wf(),
            took == (old(self)@.sessions.contains_key(id@) && old(self)@.sessions[id@].instance
                == instance),
            !took ==> final(self)@ == old(self)@,
            took ==> final(self)@.agents == old(self)@.agents && final(self)@.sessions == old(
                self,
            )@.sessions.insert(
                id@,
                SessionView { instance, grid: after_ingest(old(self)@.sessions[id@].grid, bytes@) },
            ),
    {
        match self.find(id) {
            Some(i) => {
                let ghost old_v = self.sessions@;
                proof {
                    lemma_session_at(old_v, i as int);
                }
                if self.sessions[i].instance != instance {
                    return false;
                }
                self.sessions[i].grid.ingest(bytes);
                proof {
                    lemma_replace(old_v, self.sessions@, i as int);
                }
                true
            },
            None => {
                proof {
                    assert(!sessions_by_id(self.sessions@).contains_key(id@));
                }
                false
            },
        }
    }

    /// The ids of all sessions, each once, in no particular order.
    pub fn list_sessions(&self) -> (ids: Vec<String>)
        requires
            self.wf(),
        ensures
            ids@.len() == self@.sessions.len(),
            forall|i: int| 0 <= i < ids@.len() ==> self@.sessions.contains_key(#[trigger] ids@[i]@),
            forall|k: Seq<char>| #[trigger] self@.sessions.contains_key(k) ==> exists|i: int|
                0 <= i < ids@.len() && #[trigger] ids@[i]@ == k,
            forall|i: int, j: int| 0 <= i < j < ids@.len() ==> #[trigger] ids@[i]@ != #[trigger] ids@[j]@,
    {
        let n = self.sessions.len();
        let mut ids: Vec<String> = Vec::new();
        let mut i: usize = 0;
        while i < n
            invariant
                n == self.sessions@.len(),
                i <= n,
                ids@.len() == i,
                forall|j: int| 0 <= j < i ==> #[trigger] ids@[j]@ == self.sessions@[j].id@,
            decreases n - i,
        {
            ids.push(self.sessions[i].id.clone());
            i = i + 1;
        }
        proof {
            let v = self.sessions@;
            assert forall|j: int| 0 <= j < ids@.len() implies self@.sessions.contains_key(#[trigger] ids@[j]@) by {
                lemma_session_at(v, j);
            }
            assert forall|k: Seq<char>| #[trigger] self@.sessions.contains_key(k) implies exists|j: int|
                0 <= j < ids@.len() && #[trigger] ids@[j]@ == k by {
                let j = choose|j: int| 0 <= j < v.len() && #[trigger] v[j].id@ == k;
                assert(ids@[j]@ == k);
            }
            lemma_sessions_len(v);
        }
        ids
    }

    /// Removes session `id`.
    pub fn kill(&mut self, id: &str) -> (r: Result<(), SessionError>)
        requires
            old(self).wf(),
        ensures
            final(self).wf(),
            r is Ok <==> old(self)@.sessions.contains_key(id@),
            r is Err ==> (r matches Err(SessionError::SessionNotFound(s)) && s@ == id@) && final(self)@
                == old(self)@,
            r is Ok ==> final(self)@.agents == old(self)@.agents && final(self)@.sessions == old(
                self,
            )@.sessions.remove(id@),
    {
        match self.find(id) {
            Some(i) => {
                let ghost old_v = self.sessions@;
                proof {
                    lemma_session_at(old_v, i as int);
                }
                let _gone = self.sessions.remove(i);
                proof {
                    lemma_remove_view(old_v, i as int);
                }
                Ok(())
            },
            None => {
                proof {
                    assert(!sessions_by_id(self.sessions@).contains_key(id@));
                }
                Err(SessionError::SessionNotFound(String::from_str(id)))
            },
        }
    }
}

} // verus!
verus! {

/// A session that was just spawned has no output yet: every read of it says so.
pub proof fn lemma_fresh_session_empty(agent: Seq<char>, start_line: Option<usize>, max_lines: Option<usize>)
    ensures
        history_text(TerminalGrid::new_view(), agent, start_line, max_lines) == "Session is empty."@,
        after_read(TerminalGrid::new_view(), agent, start_line, max_lines) == TerminalGrid::new_view(),
{
}

} // verus!
