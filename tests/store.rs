use editor_core::store::{
    are_valid_credentials, is_shared_reference, is_valid_username, recipient_key, UserKey,
    SHARED_DOCTYPE,
};

#[test]
fn shared_documents_go_to_the_email() {
    assert_eq!(recipient_key(Some(true)), UserKey::Email);
    assert_eq!(recipient_key(Some(false)), UserKey::Email);
    assert_eq!(recipient_key(None), UserKey::Username);
    assert_eq!(UserKey::Email.field_name(), "email");
    assert_eq!(UserKey::Username.field_name(), "username");
}

#[test]
fn usernames_and_credentials_must_be_present() {
    assert!(is_valid_username("ann"));
    assert!(!is_valid_username(""));
    assert!(are_valid_credentials("ann", "pw"));
    assert!(!are_valid_credentials("", "pw"));
    assert!(!are_valid_credentials("ann", ""));
}

#[test]
fn doctype_one_is_a_shared_reference() {
    assert_eq!(SHARED_DOCTYPE, 1);
    assert!(is_shared_reference(1));
    assert!(!is_shared_reference(0));
    assert!(!is_shared_reference(2));
}
