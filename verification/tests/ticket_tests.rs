use uuid::Uuid;
use zyvor_janus::tickets::{constant_time_eq, mint_ticket, sign, verify_ticket};

fn now() -> i64 {
    chrono::Utc::now().timestamp()
}

#[test]
fn round_trips_a_valid_ticket() {
    let run_id = Uuid::new_v4().to_string();
    let ticket = mint_ticket("secret", &run_id, now());
    assert!(verify_ticket("secret", &run_id, &ticket, now()));
}

#[test]
fn rejects_wrong_run_id() {
    let run_id = Uuid::new_v4().to_string();
    let other_id = Uuid::new_v4().to_string();
    let ticket = mint_ticket("secret", &run_id, now());
    assert!(!verify_ticket("secret", &other_id, &ticket, now()));
}

#[test]
fn rejects_tampered_signature() {
    let run_id = Uuid::new_v4().to_string();
    let mut ticket = mint_ticket("secret", &run_id, now());
    ticket.push(b'0');
    assert!(!verify_ticket("secret", &run_id, &ticket, now()));
}

#[test]
fn rejects_wrong_secret() {
    let run_id = Uuid::new_v4().to_string();
    let ticket = mint_ticket("secret", &run_id, now());
    assert!(!verify_ticket("different-secret", &run_id, &ticket, now()));
}

#[test]
fn rejects_expired_ticket() {
    let run_id = Uuid::new_v4().to_string();
    let expires_at = now() - 1;
    let payload = format!("{run_id}.{expires_at}");
    let sig = String::from_utf8(sign("secret", &payload)).unwrap();
    let ticket = format!("{payload}.{sig}");
    assert!(!verify_ticket("secret", &run_id, ticket.as_bytes(), now()));
}

#[test]
fn ticket_has_the_documented_shape() {
    let ticket = String::from_utf8(mint_ticket("secret", "run-1", 1_000)).unwrap();
    let parts: Vec<&str> = ticket.splitn(3, '.').collect();
    assert_eq!(parts[0], "run-1");
    assert_eq!(parts[1], "1045");
    assert_eq!(parts[2].len(), 64);
    assert!(parts[2].chars().all(|c| c.is_ascii_hexdigit() && !c.is_ascii_uppercase()));
    assert!(verify_ticket("secret", "run-1", ticket.as_bytes(), 1_045));
    assert!(!verify_ticket("secret", "run-1", ticket.as_bytes(), 1_046));
}

#[test]
fn signature_matches_known_hmac_vector() {
    // RFC 4231 test case 2.
    let sig = String::from_utf8(sign("Jefe", "what do ya want for nothing?")).unwrap();
    assert_eq!(sig, "5bdcc146bf60754e6a042426089575c75a003f089d2739839dec58b964ec3843");
}

#[test]
fn expiry_accepts_explicit_plus_sign_and_rejects_garbage() {
    let payload = "r.+2000";
    let sig = String::from_utf8(sign("k", payload)).unwrap();
    assert!(verify_ticket("k", "r", format!("{payload}.{sig}").as_bytes(), 1_999));
    let payload = "r.20x0";
    let sig = String::from_utf8(sign("k", payload)).unwrap();
    assert!(!verify_ticket("k", "r", format!("{payload}.{sig}").as_bytes(), 0));
    assert!(!verify_ticket("k", "r", b"r.2000", 0));
}

#[test]
fn constant_time_eq_compares_bytes() {
    assert!(constant_time_eq(b"abc", b"abc"));
    assert!(!constant_time_eq(b"abc", b"abd"));
    assert!(!constant_time_eq(b"abc", b"ab"));
}
