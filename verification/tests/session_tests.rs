use async_shell::keys::agent_id_from_secret;
use async_shell::session::{PtySession, SessionError, SessionManager};

fn secret(b: u8) -> [u8; 32] {
    [b; 32]
}

fn bytes32(hex: &str) -> [u8; 32] {
    let mut out = [0u8; 32];
    for i in 0..32 {
        out[i] = u8::from_str_radix(&hex[2 * i..2 * i + 2], 16).unwrap();
    }
    out
}

#[test]
fn agent_id_is_hex_public_key() {
    assert_eq!(
        agent_id_from_secret(&bytes32("9d61b19deffd5a60ba844af492ec2cc44449c5697b326919703bac031cae7f60")),
        "d75a980182b10ab7d54bfed3c964073a0ee172f3daa62325af021a68f707511a"
    );
    assert_eq!(
        agent_id_from_secret(&bytes32("4ccd089b28ff96da9db6c346ec114e0f5b8a319f35aba624da8cf6ed4fb8a6fb")),
        "3d4017c3e843895a92b70aa74d1b7ebc9c982ccf2ec4968cc0cd55f12af4660c"
    );
}

#[test]
fn registered_agent_has_hex_id() {
    let mut m = SessionManager::new();
    let id = m.register_agent().unwrap();
    assert_eq!(id.len(), 64);
    assert!(id.chars().all(|c| c.is_ascii_hexdigit() && !c.is_ascii_uppercase()));
    assert!(m.authenticate(&id).is_ok());
    let other = m.register_agent().unwrap();
    assert_ne!(id, other);
}

#[test]
fn unregistered_agent_is_refused() {
    let mut m = SessionManager::new();
    assert_eq!(m.authenticate("nobody"), Err(SessionError::Unauthenticated));
    assert_eq!(m.spawn("s", "nobody", 1), Err(SessionError::Unauthenticated));
    assert_eq!(m.write_stdin("s", "nobody"), Err(SessionError::Unauthenticated));
    assert_eq!(m.read_history("s", "nobody", None, None), Err(SessionError::Unauthenticated));
    assert!(m.list_sessions().is_empty());
    assert_eq!(
        SessionError::Unauthenticated.message(),
        "Authentication failed: Invalid or unregistered agent_id"
    );
}

#[test]
fn spawn_read_write_kill() {
    let mut m = SessionManager::new();
    let agent = m.register_agent_with_secret(&secret(7));
    assert_eq!(agent, agent_id_from_secret(&secret(7)));
    assert_eq!(
        m.read_history("dev", &agent, None, None),
        Err(SessionError::SessionNotFound("dev".to_string()))
    );
    assert_eq!(m.spawn("dev", &agent, 1), Ok(()));
    assert_eq!(m.read_history("dev", &agent, None, None), Ok("Session is empty.".to_string()));
    assert!(m.ingest("dev", 1, b"ready\n"));
    assert_eq!(
        m.read_history("dev", &agent, None, None),
        Ok(format!("Showing lines 0-2 of 2 (Agent: {})\n---\nready\n", agent))
    );
    assert_eq!(m.write_stdin("dev", &agent), Ok(()));
    assert_eq!(m.write_stdin("prod", &agent), Err(SessionError::SessionNotFound("prod".to_string())));
    assert_eq!(m.list_sessions(), vec!["dev".to_string()]);
    assert_eq!(m.kill("dev"), Ok(()));
    assert_eq!(m.kill("dev"), Err(SessionError::SessionNotFound("dev".to_string())));
    assert_eq!(
        SessionError::SessionNotFound("dev".to_string()).message(),
        "Session dev not found"
    );
    assert!(!m.ingest("dev", 1, b"late"));
    assert!(m.list_sessions().is_empty());
}

#[test]
fn respawn_replaces_session_and_ignores_old_process() {
    let mut m = SessionManager::new();
    let agent = m.register_agent_with_secret(&secret(1));
    m.spawn("s", &agent, 1).unwrap();
    assert!(m.ingest("s", 1, b"first"));
    m.spawn("s", &agent, 2).unwrap();
    assert!(!m.ingest("s", 1, b"stale"));
    assert!(m.ingest("s", 2, b"second"));
    assert_eq!(
        m.read_history("s", &agent, None, None),
        Ok(format!("Showing lines 0-1 of 1 (Agent: {})\n---\nsecond", agent))
    );
    assert_eq!(m.list_sessions().len(), 1);
}

#[test]
fn list_sessions_names_each_once() {
    let mut m = SessionManager::new();
    let agent = m.register_agent_with_secret(&secret(2));
    m.spawn("a", &agent, 1).unwrap();
    m.spawn("b", &agent, 2).unwrap();
    m.spawn("a", &agent, 3).unwrap();
    let mut ids = m.list_sessions();
    ids.sort();
    assert_eq!(ids, vec!["a".to_string(), "b".to_string()]);
}

#[test]
fn huge_read_limit_is_only_a_cap() {
    let mut m = SessionManager::new();
    let agent = m.register_agent_with_secret(&secret(3));
    m.spawn("s", &agent, 1).unwrap();
    m.ingest("s", 1, b"a\nb\nc");
    assert_eq!(
        m.read_history("s", &agent, Some(2), Some(usize::MAX)),
        Ok(format!("Showing lines 2-3 of 3 (Agent: {})\n---\nc", agent))
    );
}

#[test]
fn pty_session_reads_its_grid() {
    let mut s = PtySession::new("x", 9);
    assert_eq!(s.id, "x");
    assert_eq!(s.instance, 9);
    s.grid.ingest(b"hi");
    assert_eq!(s.read_history("a", None, None), "Showing lines 0-1 of 1 (Agent: a)\n---\nhi");
}

#[test]
fn key_failure_message() {
    assert_eq!(
        SessionError::KeyUnavailable.message(),
        "Could not draw an agent key: the random generator failed"
    );
}
