//! Registration, login, rename, device and peer-memory behavior of the
//! registry.

use dafs::errors::DafsError;
use dafs::models::DeviceType;
use dafs::registry::{registry_from_records, DevicePeerMemory, PeerConnection, UserRegistry};

#[test]
fn registration_and_rename() {
    let mut reg = UserRegistry::new();
    let first = reg
        .register_user("alice".to_string(), "Alice Liddell".to_string(), None)
        .unwrap();
    assert_eq!(first.username, "alice");
    let second = reg
        .register_user("alice".to_string(), "Alice Too".to_string(), None)
        .unwrap();
    assert_eq!(second.username, "alice1");
    let r = reg.change_username(second.user_id.as_str(), "alice".to_string());
    assert_eq!(r, Err(DafsError::Conflict));
}

#[test]
fn usernames_stay_unique() {
    let mut reg = UserRegistry::new();
    let mut names: Vec<String> = Vec::new();
    for _ in 0..4 {
        let u = reg
            .register_user("bob".to_string(), "Bob".to_string(), None)
            .unwrap();
        names.push(u.username);
    }
    for i in 0..names.len() {
        for j in 0..i {
            assert_ne!(names[i], names[j]);
        }
    }
    assert_eq!(names[0], "bob");
    assert_eq!(names[1], "bob1");
    assert_eq!(names[2], "bob2");
}

#[test]
fn rename_rebinds_index() {
    let mut reg = UserRegistry::new();
    let u = reg
        .register_user("carol".to_string(), "Carol".to_string(), None)
        .unwrap();
    reg.change_username(u.user_id.as_str(), "caroline".to_string()).unwrap();
    assert!(reg.get_user_by_username("carol").is_none());
    let renamed = reg.get_user_by_username("caroline").unwrap();
    assert_eq!(renamed.user_id, u.user_id);
    assert_eq!(renamed.display_name, "Carol");
}

#[test]
fn rename_unknown_user_is_not_found() {
    let mut reg = UserRegistry::new();
    let r = reg.change_username("no-such-id", "x".to_string());
    assert_eq!(r, Err(DafsError::NotFound));
}

#[test]
fn login_issues_session_and_current_device() {
    let mut reg = UserRegistry::new();
    reg.register_user("dave".to_string(), "Dave".to_string(), Some("d@example.com".to_string()))
        .unwrap();
    let (user, session) = reg
        .login_user("dave", "laptop".to_string(), DeviceType::Laptop)
        .unwrap();
    assert!(session.is_active);
    assert_eq!(session.user_id, user.user_id);
    assert_eq!(session.expires_at - session.created_at, 30 * 24 * 60 * 60);
    let current = user.get_current_device().unwrap();
    assert_eq!(current.device_name, "laptop");
    let by_session = reg.get_user_by_session(session.session_id.as_str()).unwrap();
    assert_eq!(by_session.user_id, user.user_id);
    let by_device = reg.get_user_by_device(session.device_id.as_str()).unwrap();
    assert_eq!(by_device.user_id, user.user_id);
}

#[test]
fn login_unknown_user_is_not_found() {
    let mut reg = UserRegistry::new();
    let r = reg.login_user("ghost", "pc".to_string(), DeviceType::Desktop);
    assert!(matches!(r, Err(DafsError::NotFound)));
}

#[test]
fn logout_is_idempotent() {
    let mut reg = UserRegistry::new();
    reg.register_user("erin".to_string(), "Erin".to_string(), None).unwrap();
    let (_user, session) = reg
        .login_user("erin", "phone".to_string(), DeviceType::Mobile)
        .unwrap();
    reg.logout_device(session.device_id.as_str()).unwrap();
    assert!(reg.get_user_by_device(session.device_id.as_str()).is_none());
    reg.logout_device(session.device_id.as_str()).unwrap();
}

#[test]
fn remove_device_refuses_active_session() {
    let mut reg = UserRegistry::new();
    let u = reg.register_user("frank".to_string(), "Frank".to_string(), None).unwrap();
    let (_user, session) = reg
        .login_user("frank", "tablet".to_string(), DeviceType::Tablet)
        .unwrap();
    let r = reg.remove_device(u.user_id.as_str(), session.device_id.as_str());
    assert_eq!(r, Err(DafsError::Conflict));
    reg.logout_device(session.device_id.as_str()).unwrap();
    reg.remove_device(u.user_id.as_str(), session.device_id.as_str()).unwrap();
    let after = reg.get_user_by_id(u.user_id.as_str()).unwrap();
    assert_eq!(after.devices.len(), 0);
}

#[test]
fn search_is_case_insensitive() {
    let mut reg = UserRegistry::new();
    reg.register_user("grace".to_string(), "Grace Hopper".to_string(), None).unwrap();
    reg.register_user("heidi".to_string(), "Heidi".to_string(), None).unwrap();
    let hits = reg.search_users("HOPPER");
    assert_eq!(hits.len(), 1);
    assert_eq!(hits[0].username, "grace");
    let all = reg.list_users();
    assert_eq!(all.len(), 2);
}

#[test]
fn peer_memory_history() {
    let mut reg = UserRegistry::new();
    reg.add_peer_to_device_memory("dev1", "peerA").unwrap();
    reg.add_peer_to_device_memory("dev1", "peerA").unwrap();
    reg.add_peer_to_device_memory("dev1", "peerB").unwrap();
    let known = reg.get_device_known_peers("dev1");
    assert_eq!(known, vec!["peerA".to_string(), "peerB".to_string()]);
    let history = reg.get_device_connection_history("dev1");
    assert_eq!(history.len(), 3);
    assert!(history.iter().all(|c| c.disconnected_at.is_none()));

    reg.record_peer_disconnection("dev1", "peerA").unwrap();
    let history = reg.get_device_connection_history("dev1");
    let closed: Vec<_> = history.iter().filter(|c| c.disconnected_at.is_some()).collect();
    assert_eq!(closed.len(), 1);
    assert_eq!(closed[0].peer_id, "peerA");
    let end = closed[0].disconnected_at.unwrap();
    assert_eq!(closed[0].connection_duration.unwrap(), end - closed[0].connected_at);
    // The most recent open entry for peerA was closed: the first stays open.
    assert!(history[0].disconnected_at.is_none());
    assert!(history[1].disconnected_at.is_some());

    reg.record_peer_disconnection("dev1", "peerC").unwrap();
    assert_eq!(
        reg.get_device_connection_history("dev1")
            .iter()
            .filter(|c| c.disconnected_at.is_some())
            .count(),
        1,
    );
}

#[test]
fn peer_memory_unknown_device_is_empty() {
    let reg = UserRegistry::new();
    assert!(reg.get_device_known_peers("nope").is_empty());
    assert!(reg.get_device_connection_history("nope").is_empty());
}

#[test]
fn rebuild_skips_colliding_and_ill_formed_records() {
    let mut reg = UserRegistry::new();
    let first = reg.register_user("zoe".to_string(), "Zoe".to_string(), None).unwrap();
    let mut duplicate = first.clone();
    duplicate.display_name = "Imposter".to_string();
    let rebuilt = registry_from_records(vec![first.clone(), duplicate], Vec::new(), vec![
        DevicePeerMemory {
            device_id: "d1".to_string(),
            known_peers: vec!["p".to_string(), "p".to_string()],
            last_peer_scan: 0,
            peer_connection_history: Vec::new(),
        },
        DevicePeerMemory {
            device_id: "d2".to_string(),
            known_peers: vec!["p".to_string()],
            last_peer_scan: 0,
            peer_connection_history: vec![PeerConnection {
                peer_id: "p".to_string(),
                connected_at: 5,
                disconnected_at: Some(9),
                connection_duration: Some(4),
                success: true,
            }],
        },
    ]);
    let loaded = rebuilt.get_user_by_id(first.user_id.as_str()).unwrap();
    assert_eq!(loaded.display_name, "Zoe");
    // The duplicate-peer memory is rejected; the well-formed one is kept.
    assert!(rebuilt.get_device_known_peers("d1").is_empty());
    assert_eq!(rebuilt.get_device_known_peers("d2"), vec!["p".to_string()]);
}
