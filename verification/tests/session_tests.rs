use photocatalog::error::Error;
use photocatalog::session::{
    authenticate, gate, mint_session, select_emails, session_cookie_value, ProviderEmail, User,
};

const SECRET: &[u8] = b"test-signing-secret";

fn allow(list: &[&str]) -> Vec<String> {
    list.iter().map(|s| s.to_string()).collect()
}

fn mint(emails: &[&str], now: i64) -> String {
    let emails: Vec<String> = emails.iter().map(|s| s.to_string()).collect();
    mint_session(emails[0].as_str(), &emails, now, SECRET)
}

fn header_for(token: &str) -> String {
    format!("SESSION={}", token)
}

#[test]
fn minted_credential_is_accepted_with_its_claim() {
    let token = mint(&["a@example.com", "b@example.com"], 1_000_000);
    let header = header_for(&token);
    let user: User = authenticate(
        Some(header.as_str()),
        SECRET,
        &allow(&["b@example.com"]),
        1_000_000,
    )
    .unwrap_or_else(|_| panic!("expected acceptance"));
    assert_eq!(user.primary_email, "a@example.com");
    assert_eq!(user.emails, vec!["a@example.com".to_string(), "b@example.com".to_string()]);
    assert_eq!(user.exp, 1_000_000 + 86_400);
}

#[test]
fn expiry_is_one_day_after_minting() {
    let token = mint(&["a@example.com"], 500);
    let header = header_for(&token);
    // one second before expiry: accepted
    assert!(authenticate(Some(header.as_str()), SECRET, &allow(&["a@example.com"]), 500 + 86_399)
        .is_ok());
    // at expiry: rejected
    let r = authenticate(Some(header.as_str()), SECRET, &allow(&["a@example.com"]), 500 + 86_400);
    assert!(matches!(r, Err(Error::UserNotAuthorized)));
}

#[test]
fn tampered_signature_is_rejected() {
    let token = mint(&["a@example.com"], 1_000);
    let dot = token.find('.').expect("token has a signature part");
    let mut bytes = token.clone().into_bytes();
    let last = bytes.len() - 1;
    bytes[last] = if bytes[last] == b'A' { b'B' } else { b'A' };
    assert!(last > dot);
    let tampered = String::from_utf8(bytes).unwrap();
    assert_ne!(tampered, token);
    let header = header_for(&tampered);
    let r = authenticate(Some(header.as_str()), SECRET, &allow(&["a@example.com"]), 1_000);
    assert!(matches!(r, Err(Error::UserNotAuthorized)));
}

#[test]
fn wrong_secret_is_rejected() {
    let token = mint(&["a@example.com"], 1_000);
    let header = header_for(&token);
    let r = authenticate(Some(header.as_str()), b"other-secret", &allow(&["a@example.com"]), 1_000);
    assert!(matches!(r, Err(Error::UserNotAuthorized)));
}

#[test]
fn valid_credential_outside_allow_list_is_not_allowed() {
    let token = mint(&["a@example.com"], 1_000);
    let header = header_for(&token);
    let r = authenticate(Some(header.as_str()), SECRET, &allow(&["other@example.com"]), 1_000);
    assert!(matches!(r, Err(Error::UserNotAllowed)));
}

#[test]
fn empty_allow_list_blocks_everyone() {
    let token = mint(&["a@example.com"], 1_000);
    let header = header_for(&token);
    let r = authenticate(Some(header.as_str()), SECRET, &allow(&[]), 1_000);
    assert!(matches!(r, Err(Error::UserNotAllowed)));
}

#[test]
fn any_intersecting_email_suffices() {
    let token = mint(&["first@example.com", "second@example.com"], 1_000);
    let header = header_for(&token);
    assert!(authenticate(Some(header.as_str()), SECRET, &allow(&["second@example.com"]), 1_000)
        .is_ok());
}

#[test]
fn absent_header_is_unauthorized() {
    let r = authenticate(None, SECRET, &allow(&["a@example.com"]), 1_000);
    assert!(matches!(r, Err(Error::UserNotAuthorized)));
}

#[test]
fn header_without_session_cookie_is_unauthorized() {
    let r = authenticate(Some("other=1; theme=dark"), SECRET, &allow(&["a@example.com"]), 1_000);
    assert!(matches!(r, Err(Error::UserNotAuthorized)));
}

#[test]
fn garbage_cookie_value_is_unauthorized() {
    let r = authenticate(Some("SESSION=not-a-credential"), SECRET, &allow(&["a@example.com"]), 0);
    assert!(matches!(r, Err(Error::UserNotAuthorized)));
}

#[test]
fn session_cookie_is_found_among_others() {
    let token = mint(&["a@example.com"], 1_000);
    let header = format!("theme=dark; SESSION={}; lang=en", token);
    assert!(authenticate(Some(header.as_str()), SECRET, &allow(&["a@example.com"]), 1_000)
        .is_ok());
}

#[test]
fn cookie_pairs_are_trimmed() {
    let token = mint(&["a@example.com"], 1_000);
    let header = format!("theme=dark;   SESSION={}  ", token);
    assert!(authenticate(Some(header.as_str()), SECRET, &allow(&["a@example.com"]), 1_000)
        .is_ok());
}

#[test]
fn cookie_names_match_exactly() {
    let token = mint(&["a@example.com"], 1_000);
    let header = format!("XSESSION={}", token);
    let r = authenticate(Some(header.as_str()), SECRET, &allow(&["a@example.com"]), 1_000);
    assert!(matches!(r, Err(Error::UserNotAuthorized)));
}

#[test]
fn gate_judges_the_bare_token_too() {
    let token = mint(&["a@example.com"], 1_000);
    let user = gate(token.as_str(), SECRET, &allow(&["a@example.com"]), 1_000).unwrap();
    assert_eq!(user.primary_email, "a@example.com");
    assert!(matches!(
        gate("no-dot-in-here", SECRET, &allow(&["a@example.com"]), 1_000),
        Err(Error::UserNotAuthorized)
    ));
}

#[test]
fn unicode_emails_round_trip_through_the_credential() {
    let emails = vec!["grüße@example.com".to_string()];
    let token = mint_session("grüße@example.com", &emails, 1_000, SECRET);
    let header = header_for(&token);
    let user = authenticate(Some(header.as_str()), SECRET, &allow(&["grüße@example.com"]), 1_000)
        .unwrap();
    assert_eq!(user.primary_email, "grüße@example.com");
}

#[test]
fn cookie_value_carries_fixed_attributes() {
    assert_eq!(session_cookie_value("tok"), "SESSION=tok; SameSite=Lax; Path=/");
}

fn provider(email: &str, verified: bool, primary: bool) -> ProviderEmail {
    ProviderEmail { email: email.to_string(), verified, primary }
}

#[test]
fn select_emails_prefers_the_primary_email() {
    let r = select_emails(&vec![
        provider("first@example.com", true, false),
        provider("main@example.com", true, true),
    ])
    .unwrap();
    assert_eq!(r.0, "main@example.com");
    assert_eq!(r.1, vec!["first@example.com".to_string(), "main@example.com".to_string()]);
}

#[test]
fn select_emails_falls_back_to_first_verified() {
    let r = select_emails(&vec![
        provider("unverified@example.com", false, false),
        provider("first@example.com", true, false),
        provider("second@example.com", true, false),
    ])
    .unwrap();
    assert_eq!(r.0, "first@example.com");
    assert_eq!(r.1, vec!["first@example.com".to_string(), "second@example.com".to_string()]);
}

#[test]
fn select_emails_without_verified_email_fails_the_flow() {
    let r = select_emails(&vec![provider("nope@example.com", false, true)]);
    assert!(matches!(r, Err(Error::Authorize)));
}
