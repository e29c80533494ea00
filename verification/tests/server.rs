use base64::Engine;
use hmac::{Hmac, Mac};
use sha2::Sha256;
use tache::webhook::verify;

#[test]
fn verifies_todoist_signature() {
    let secret = "shhh";
    let body = br#"{"event_name":"item:completed"}"#;
    let mut mac = Hmac::<Sha256>::new_from_slice(secret.as_bytes()).unwrap();
    mac.update(body);
    let sig = base64::engine::general_purpose::STANDARD.encode(mac.finalize().into_bytes());
    assert!(verify(secret, body, &sig));
    assert!(!verify(secret, body, "AAAA"));
    assert!(!verify("wrong", body, &sig));
}
