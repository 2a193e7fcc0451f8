use nfc_scanner::database::session_dao::SessionTable;
use nfc_scanner::database::user_dao::UserTable;
use nfc_scanner::services::audit_log_service::get_logs;
use nfc_scanner::services::auth_service::{
    authenticated_user, choose_session, session_user_id, SessionChoice,
};
use nfc_scanner::services::user_service::User;

#[test]
fn existing_session_is_reused() {
    let s = SessionTable { id: 1, user_id: 2, token: "tok".to_string() };
    match choose_session(Some(s)) {
        SessionChoice::Reuse(s) => {
            assert_eq!(s.token, "tok");
            assert_eq!(s.user_id, 2);
        }
        SessionChoice::Create(_) => panic!("expected the existing session"),
    }
}

fn check_token_shape(t: &str) {
    let chars: Vec<char> = t.chars().collect();
    assert_eq!(chars.len(), 36);
    for (i, c) in chars.iter().enumerate() {
        if i == 8 || i == 13 || i == 18 || i == 23 {
            assert_eq!(*c, '-');
        } else {
            assert!(c.is_ascii_hexdigit() && !c.is_ascii_uppercase());
        }
    }
    assert_eq!(chars[14], '4');
    assert!(matches!(chars[19], '8' | '9' | 'a' | 'b'));
}

#[test]
fn missing_session_gets_a_fresh_token() {
    let a = match choose_session(None) {
        SessionChoice::Create(t) => t,
        SessionChoice::Reuse(_) => panic!("expected a new session"),
    };
    let b = match choose_session(None) {
        SessionChoice::Create(t) => t,
        SessionChoice::Reuse(_) => panic!("expected a new session"),
    };
    check_token_shape(&a);
    check_token_shape(&b);
    assert_ne!(a, b);
}

#[test]
fn authenticated_user_has_name_and_token() {
    let user = User::from_user_table(UserTable { id: 3, name: "Mark".to_string(), username: "Static".to_string() });
    assert_eq!(user.id, 3);
    assert_eq!(user.name, "Mark");
    let a = authenticated_user(user, SessionTable { id: 9, user_id: 3, token: "tok".to_string() });
    assert_eq!(a.username, "Static");
    assert_eq!(a.token, "tok");
}

#[test]
fn session_user() {
    assert_eq!(session_user_id(Some(SessionTable { id: 1, user_id: 8, token: "t".to_string() })), Some(8));
    assert_eq!(session_user_id(None), None);
}

#[test]
fn logs_are_the_two_server_entries() {
    let logs = get_logs(1).unwrap();
    let actions: Vec<&str> = logs.iter().map(|l| l.action.as_str()).collect();
    assert_eq!(actions, vec!["Server1", "Server2"]);
}

#[test]
fn authenticating_again_with_the_created_session_keeps_the_token() {
    let token = match choose_session(None) {
        SessionChoice::Create(t) => t,
        SessionChoice::Reuse(_) => panic!("expected a new session"),
    };
    let created = SessionTable { id: 1, user_id: 5, token: token.clone() };
    let user = User { id: 5, name: "n".to_string(), username: "u".to_string() };
    let first = authenticated_user(user, SessionTable { id: 1, user_id: 5, token: token.clone() });
    match choose_session(Some(created)) {
        SessionChoice::Reuse(s) => {
            let user = User { id: 5, name: "n".to_string(), username: "u".to_string() };
            let second = authenticated_user(user, s);
            assert_eq!(second.token, first.token);
            assert_eq!(second.username, first.username);
        }
        SessionChoice::Create(_) => panic!("expected the existing session"),
    }
}
