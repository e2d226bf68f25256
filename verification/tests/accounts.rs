use mc_console::auth::{
    add_user, authenticate_token, authenticate_with_password, get_user_pass_map, login_outcome,
    login_token, token_entries, Errors, LoginOutcome,
};
use mc_console::digest::generate_sha512_string;

fn sha(s: &str) -> String {
    generate_sha512_string(s.to_string())
}

fn list(entries: &[(&str, &str)]) -> String {
    entries.iter().map(|(u, h)| format!("{}:{}\n", u, h)).collect()
}

#[test]
fn password_list_last_line_of_a_user_counts() {
    let text = "alice:one\nbob:two\nalice:three\n";
    let users = get_user_pass_map(text).unwrap();
    assert_eq!(users.get("alice"), Some("three".to_string()));
    assert_eq!(users.get("bob"), Some("two".to_string()));
    assert!(!users.contains_key("carol"));
}

#[test]
fn password_list_with_bad_line_is_refused() {
    assert!(get_user_pass_map("alice:one\nbroken\n").is_none());
}

#[test]
fn login_with_right_password() {
    let text = list(&[("alice", &sha("secret"))]);
    let users = get_user_pass_map(&text).unwrap();
    assert_eq!(authenticate_with_password(&users, "alice", "secret"), Ok(sha("secret")));
}

#[test]
fn login_with_wrong_password() {
    let text = list(&[("alice", &sha("secret"))]);
    let users = get_user_pass_map(&text).unwrap();
    assert_eq!(
        authenticate_with_password(&users, "alice", "guess"),
        Err(Errors::PasswordFailure)
    );
}

#[test]
fn login_of_unknown_user() {
    let users = get_user_pass_map("").unwrap();
    assert_eq!(
        authenticate_with_password(&users, "alice", "secret"),
        Err(Errors::NoSuchUser)
    );
}

#[test]
fn register_new_user_line() {
    let users = get_user_pass_map("bob:x\n").unwrap();
    let line = add_user(&users, "alice", "secret").unwrap();
    assert_eq!(line, format!("// alice:{}\n", sha("secret")));
}

#[test]
fn register_existing_user_refused() {
    let users = get_user_pass_map("alice:x\n").unwrap();
    assert_eq!(add_user(&users, "alice", "secret"), Err(Errors::UserAlreadyExists));
}

#[test]
fn registered_record_reads_back_under_comment_name() {
    let text = "bob:x\n".to_string();
    let users = get_user_pass_map(&text).unwrap();
    let line = add_user(&users, "alice", "secret").unwrap();
    let after = format!("{}{}", text, line);
    let users2 = get_user_pass_map(&after).unwrap();
    assert_eq!(users2.get("// alice"), Some(sha("secret")));
    assert_eq!(users2.get("bob"), Some("x".to_string()));
    assert!(!users2.contains_key("alice"));
    // the record is a comment to the token check
    assert_eq!(token_entries(&after).unwrap().len(), 1);
}

#[test]
fn token_is_digest_of_user_and_password_digest() {
    assert_eq!(login_token("alice", "h"), sha("alice+mc+h"));
}

#[test]
fn token_entries_skip_comments() {
    let es = token_entries("// note without colon\nalice:h\n//x:y\n").unwrap();
    assert_eq!(es, vec![("alice".to_string(), "h".to_string())]);
    assert!(token_entries("alice:h\nbroken\n").is_none());
}

#[test]
fn issued_token_authenticates() {
    let text = list(&[("bob", "zzz"), ("alice", &sha("secret"))]);
    let users = get_user_pass_map(&text).unwrap();
    let hashed = authenticate_with_password(&users, "alice", "secret").unwrap();
    let token = login_token("alice", &hashed);
    let entries = token_entries(&text).unwrap();
    assert_eq!(authenticate_token(&entries, &token), Ok(()));
}

#[test]
fn foreign_token_refused() {
    let text = list(&[("alice", &sha("secret"))]);
    let entries = token_entries(&text).unwrap();
    assert_eq!(authenticate_token(&entries, "nope"), Err(Errors::TokenError));
    assert_eq!(
        authenticate_token(&entries, &login_token("alice", &sha("other"))),
        Err(Errors::TokenError)
    );
}

#[test]
fn login_outcomes() {
    match login_outcome("alice", Ok("h".to_string())) {
        LoginOutcome::Authenticated { token } => assert_eq!(token, login_token("alice", "h")),
        _ => panic!("expected a session"),
    }
    assert!(matches!(login_outcome("alice", Err(Errors::NoSuchUser)), LoginOutcome::Register));
    assert!(matches!(
        login_outcome("alice", Err(Errors::PasswordFailure)),
        LoginOutcome::Retry
    ));
    assert!(matches!(
        login_outcome("alice", Err(Errors::InternalServerError("io".to_string()))),
        LoginOutcome::Retry
    ));
}

#[test]
fn registered_user_is_not_found_by_plain_name() {
    let users = get_user_pass_map("").unwrap();
    let line = add_user(&users, "alice", "pw").unwrap();
    let users2 = get_user_pass_map(&line).unwrap();
    assert_eq!(
        authenticate_with_password(&users2, "alice", "pw"),
        Err(Errors::NoSuchUser)
    );
    assert_eq!(
        authenticate_with_password(&users2, "// alice", "pw"),
        Ok(sha("pw"))
    );
}
