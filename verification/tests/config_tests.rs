use photocatalog::config::{default_listen_addr, default_static_file_directory, parse_allowed_emails};
use photocatalog::error::Error;

#[test]
fn defaults_match_the_deployment_conventions() {
    assert_eq!(default_listen_addr(), "0.0.0.0:3001");
    assert_eq!(default_static_file_directory(), "../frontend/build");
}

#[test]
fn allow_list_splits_on_commas_exactly() {
    assert_eq!(
        parse_allowed_emails("a@example.com,b@example.com"),
        vec!["a@example.com".to_string(), "b@example.com".to_string()]
    );
}

#[test]
fn allow_list_keeps_pieces_verbatim() {
    assert_eq!(
        parse_allowed_emails(" a@example.com ,"),
        vec![" a@example.com ".to_string(), "".to_string()]
    );
    assert_eq!(parse_allowed_emails(""), vec!["".to_string()]);
}

#[test]
fn error_status_codes_follow_the_taxonomy() {
    assert_eq!(Error::UserNotAuthorized.status_code(), 401);
    assert_eq!(Error::UserNotAllowed.status_code(), 401);
    assert_eq!(Error::Authorize.status_code(), 500);
    assert_eq!(Error::S3("listing failed".to_string()).status_code(), 500);
}
