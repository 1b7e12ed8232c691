use encrypted_notes::user_session::UserSession;

// The end-to-end account flow, with the file store simulated in memory:
// unknown user fails, creation succeeds once, the right password logs in,
// and a taken username cannot be created again.
#[test]
fn test_auth1() {
    const USERNAME: &str = "test-authenticate-1";
    const PASSWORD: &str = "123456";

    let mut file: Option<Vec<u8>> = None;

    // User not created yet
    assert!(UserSession::authenticate(USERNAME, PASSWORD, file.clone()).is_none());

    // Create user
    let created = UserSession::create(USERNAME, PASSWORD, file.is_some());
    assert!(created.is_some());
    let (_session, contents) = created.unwrap();
    file = Some(contents);

    // Assert user exists
    assert!(UserSession::authenticate(USERNAME, PASSWORD, file.clone()).is_some());

    // Can't create user twice
    assert!(UserSession::create(USERNAME, PASSWORD, file.is_some()).is_none());
}

// Creation succeeds, a second creation collides, the right password
// authenticates and a wrong one does not.
#[test]
fn scenario_create_and_authenticate() {
    let mut file: Option<Vec<u8>> = None;

    let created = UserSession::create("alice", "secret", file.is_some());
    assert!(created.is_some());
    file = Some(created.unwrap().1);

    assert!(UserSession::create("alice", "other", file.is_some()).is_none());
    assert!(UserSession::authenticate("alice", "secret", file.clone()).is_some());
    assert!(UserSession::authenticate("alice", "wrong", file.clone()).is_none());
}

// A fresh account has no payload: reading it is "absent", which is neither a
// failure of the session nor an empty string.
#[test]
fn scenario_fresh_account_has_no_payload() {
    let (session, file) = UserSession::create("bob", "pw", false).unwrap();

    let mut istream = session.get_istream(file.clone()).expect("header should match");
    let payload: Option<String> = istream.read();
    assert!(payload.is_none());

    // An empty string, by contrast, is a present payload.
    let mut ostream = session.get_ostream();
    ostream.write(&String::new()).unwrap();
    let file2 = ostream.into_bytes();
    let mut istream2 = session.get_istream(file2).expect("header should match");
    let payload2: Option<String> = istream2.read();
    assert_eq!(payload2, Some(String::new()));
}

// Writing a payload, reading it back, then overwriting it: the write stream
// truncates and rewrites, it does not append.
#[test]
fn scenario_overwrite_payload() {
    let (session, _initial) = UserSession::create("carol", "pw", false).unwrap();

    let mut ostream = session.get_ostream();
    ostream.write(&String::from("hello")).unwrap();
    let file = ostream.into_bytes();

    let mut istream = session.get_istream(file.clone()).expect("header should match");
    let got: Option<String> = istream.read();
    assert_eq!(got, Some(String::from("hello")));

    let mut ostream2 = session.get_ostream();
    ostream2.write(&String::from("bye")).unwrap();
    let file2 = ostream2.into_bytes();
    assert!(file2.len() < file.len());

    let mut istream2 = session.get_istream(file2).expect("header should match");
    let got2: Option<String> = istream2.read();
    assert_eq!(got2, Some(String::from("bye")));
}

// Replaying the header is idempotent: two fresh read streams over the same
// file contents yield the same payload.
#[test]
fn scenario_replay_is_idempotent() {
    let (session, _initial) = UserSession::create("dave", "pw", false).unwrap();

    let mut ostream = session.get_ostream();
    ostream.write(&String::from("stable payload")).unwrap();
    let file = ostream.into_bytes();

    let mut first = session.get_istream(file.clone()).expect("header should match");
    let mut second = session.get_istream(file).expect("header should match");
    let a: Option<String> = first.read();
    let b: Option<String> = second.read();
    assert_eq!(a, Some(String::from("stable payload")));
    assert_eq!(a, b);
}

// A session rejects file contents whose header no longer echoes its key.
#[test]
fn stream_rejects_foreign_file() {
    let (session, _file) = UserSession::create("erin", "pw", false).unwrap();
    let (_other, other_file) = UserSession::create("erin", "different", false).unwrap();

    assert!(session.get_istream(other_file).is_none());
    assert!(session.get_istream(vec![1, 2, 3]).is_none());
}

// The session keeps the username it was opened with, and the derived key.
#[test]
fn session_holds_username_and_key() {
    let (session, file) = UserSession::create("frank", "pw", false).unwrap();
    assert_eq!(session.username(), "frank");

    // The file is the 8-byte key-echo header and nothing else.
    assert_eq!(file.len(), 8);

    // The same password authenticates to the same key: its header stream
    // accepts the file written at creation.
    let again = UserSession::authenticate("frank", "pw", Some(file.clone())).unwrap();
    assert!(again.get_istream(file).is_some());
}
