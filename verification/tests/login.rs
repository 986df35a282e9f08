use nostr_sdk::nostr::key::{FromSkStr, Keys};
use nostr_store::login::{LoginAction, LoginMessage, LoginState};

const SECRET_KEY_ONE: &str = "0000000000000000000000000000000000000000000000000000000000000001";
const PUBLIC_KEY_ONE: &str = "79be667ef9dcbbac55a06295ce870b07029bfcdb2dce28d959f2815b16f81798";

#[test]
fn login_state_starts_empty() {
    let state = LoginState::new();
    assert_eq!(state.secret_key(), "");
    assert_eq!(state.error(), None);
    assert_eq!(state.title(), "Nostr - Login");
}

#[test]
fn login_state_keeps_what_is_typed() {
    let mut state = LoginState::new();
    let action = state.update(LoginMessage::SecretKeyChanged("nsec1abc".to_string()));
    assert!(matches!(action, LoginAction::Idle));
    assert_eq!(state.secret_key(), "nsec1abc");
    assert_eq!(state.error(), None);
}

#[test]
fn login_with_a_secret_key_hands_on_its_keys() {
    let mut state = LoginState::new();
    state.update(LoginMessage::SecretKeyChanged(SECRET_KEY_ONE.to_string()));
    match state.update(LoginMessage::ButtonPressed) {
        LoginAction::Connect(keys) => {
            assert_eq!(keys.public_key().to_string(), PUBLIC_KEY_ONE);
            assert_eq!(keys, Keys::from_sk_str(SECRET_KEY_ONE).unwrap());
        }
        LoginAction::Idle => panic!("the secret key was refused"),
    }
    assert_eq!(state.secret_key(), SECRET_KEY_ONE);
    assert_eq!(state.error(), None);
}

#[test]
fn login_with_no_secret_key_is_refused() {
    for typed in ["", "bad", PUBLIC_KEY_ONE.trim_end_matches('8'), "nsec1abc"] {
        let mut state = LoginState::new();
        state.update(LoginMessage::SecretKeyChanged(typed.to_string()));
        let action = state.update(LoginMessage::ButtonPressed);
        assert!(matches!(action, LoginAction::Idle));
        assert_eq!(state.error(), Some("Invalid secret key"));
        assert_eq!(state.secret_key(), typed);
    }
}

#[test]
fn keys_read_takes_either_outcome() {
    let mut state = LoginState::new();
    let keys = Keys::from_sk_str(SECRET_KEY_ONE).unwrap();
    let action = state.keys_read(Ok(keys.clone()));
    assert!(matches!(action, LoginAction::Connect(ref k) if *k == keys));
    assert_eq!(state.error(), None);
    let action = state.keys_read(Err("no".to_string()));
    assert!(matches!(action, LoginAction::Idle));
    assert_eq!(state.error(), Some("no"));
}

#[test]
fn login_state_records_a_refusal_and_clears() {
    let mut state = LoginState::new();
    state.update(LoginMessage::SecretKeyChanged("bad".to_string()));
    state.refused("Impossible to open the client".to_string());
    assert_eq!(state.error(), Some("Impossible to open the client"));
    assert_eq!(state.secret_key(), "bad");
    state.update(LoginMessage::SecretKeyChanged("bad2".to_string()));
    assert_eq!(state.error(), Some("Impossible to open the client"));
    state.clear();
    assert_eq!(state.secret_key(), "");
    assert_eq!(state.error(), None);
}
