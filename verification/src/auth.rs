//! Accounts of the console: the password list (`user:hash` per line), logging
//! in with a password, registering, and checking the session token that a
//! login hands out.
use vstd::prelude::*;
use crate::digest;
use crate::digest::generate_sha512_string;
use crate::text;
use crate::text::{StringMap, chars_of, concat, line_bounds, parse_entries, split_colon_at};

verus! {

broadcast use vstd::seq_lib::group_filter_ensures;

/// What can go wrong with an account.
#[derive(Debug, PartialEq, Eq)]
pub enum Errors {
    TokenError,
    PasswordFailure,
    NoSuchUser,
    BadRequest,
    UserAlreadyExists,
    InternalServerError(String),
}

/// The line that registering `user` with password `hash` appends to the
/// password list: the digest of the password, after `// user:`.
pub open spec fn record_line(user: Seq<char>, hash: Seq<char>) -> Seq<char> {
    "// "@ + user + ":"@ + digest::sha512_hex(hash) + "\n"@
}

/// The session token of a user whose stored password digest is `pass_hash`.
pub open spec fn session_token(user: Seq<char>, pass_hash: Seq<char>) -> Seq<char> {
    digest::sha512_hex(user + "+mc+"@ + pass_hash)
}

/// The accounts of a password list: each line `user:hash`, the last line of a
/// user counting. `None` when some line holds no colon.
pub fn get_user_pass_map(text: &str) -> (r: Option<StringMap>)
    ensures
        match text::entries_of(text::lines(text@)) {
            Some(es) => r matches Some(m) && m@ == text::pairs_map(es),
            None => r is None,
        },
{
    match parse_entries(text) {
        Some(entries) => Some(StringMap { entries }),
        None => None,
    }
}

/// Registers `user` with password `hash`: the line to append to the password
/// list, or `UserAlreadyExists` when the list has an account of that name.
pub fn add_user(users: &StringMap, user: &str, hash: &str) -> (r: Result<String, Errors>)
    ensures
        users@.contains_key(user@) ==> r matches Err(Errors::UserAlreadyExists),
        !users@.contains_key(user@) ==> (r matches Ok(line) && line@ == record_line(user@, hash@)),
{
    if users.contains_key(user) {
        return Err(Errors::UserAlreadyExists);
    }
    let digest = generate_sha512_string(hash.to_owned());
    let mut line = concat("// ", user);
    line.append(":");
    line.append(digest.as_str());
    line.append("\n");
    Ok(line)
}

/// Logs `user` in with password `pass`: the digest of the password when it is
/// the one stored for `user`, `PasswordFailure` when another is stored, and
/// `NoSuchUser` when the list has no account of that name.
pub fn authenticate_with_password(users: &StringMap, user: &str, pass: &str) -> (r: Result<
    String,
    Errors,
>)
    ensures
        match users@.get(user@) {
            Some(stored) => if stored == digest::sha512_hex(pass@) {
                r matches Ok(h) && h@ == digest::sha512_hex(pass@)
            } else {
                r matches Err(Errors::PasswordFailure)
            },
            None => r matches Err(Errors::NoSuchUser),
        },
{
    let password_hash = generate_sha512_string(pass.to_owned());
    match users.get(user) {
        Some(password) => {
            if password == password_hash {
                Ok(password_hash)
            } else {
                Err(Errors::PasswordFailure)
            }
        },
        None => Err(Errors::NoSuchUser),
    }
}

/// The session token handed out when `user` logs in and the stored digest of
/// the password is `pass_hash`.
pub fn login_token(user: &str, pass_hash: &str) -> (token: String)
    ensures
        token@ == session_token(user@, pass_hash@),
        token@ == digest::lower_hex(digest::sha512(digest::utf8(user@ + "+mc+"@ + pass_hash@))),
        token@.len() == 128,
{
    let mut s = concat(user, "+mc+");
    s.append(pass_hash);
    generate_sha512_string(s)
}

/// The accounts that a session token may stand for: the `user:hash` lines of
/// the password list that are not comments (`//`). `None` when one of them
/// holds no colon.
pub fn token_entries(text: &str) -> (r: Option<Vec<(String, String)>>)
    ensures
        match text::entries_of(text::active_lines(text@)) {
            Some(es) => r matches Some(v) && text::pairs_view(v@) == es,
            None => r is None,
        },
{
    let chars = chars_of(text);
    let bounds = line_bounds(&chars);
    let ghost ls = text::lines(chars@);
    let ghost pred = |l: Seq<char>| !text::is_comment(l);
    let mut out: Vec<(String, String)> = Vec::new();
    let mut i: usize = 0;
    proof {
        reveal_with_fuel(Seq::filter, 1);
        assert(ls.take(0) =~= Seq::<Seq<char>>::empty());
    }
    while i < bounds.len()
        invariant
            chars@ == text@,
            ls == text::lines(chars@),
            pred == (|l: Seq<char>| !text::is_comment(l)),
            bounds@.len() == ls.len(),
            forall|k: int|
                0 <= k < bounds@.len() ==> {
                    &&& (#[trigger] bounds@[k]).0 <= bounds@[k].1 <= chars@.len()
                    &&& chars@.subrange(bounds@[k].0 as int, bounds@[k].1 as int) == ls[k]
                },
            i <= bounds@.len(),
            out@.len() == ls.take(i as int).filter(pred).len(),
            forall|k: int|
                0 <= k < out@.len() ==> (#[trigger] text::split_colon(ls.take(i as int).filter(pred)[k]))
                    is Some,
            forall|k: int|
                0 <= k < out@.len() ==> (#[trigger] text::pairs_view(out@)[k]) == text::split_colon(
                    ls.take(i as int).filter(pred)[k],
                )->0,
        decreases bounds@.len() - i,
    {
        let (lo, hi) = bounds[i];
        let ghost line = ls[i as int];
        proof {
            assert(ls.take(i + 1) =~= ls.take(i as int).push(line));
            ls.take(i as int).lemma_filter_push(line, pred);
        }
        let comment = hi - lo >= 2 && chars[lo] == '/' && chars[lo + 1] == '/';
        proof {
            if hi - lo >= 2 {
                assert(line[0] == chars@[lo as int]);
                assert(line[1] == chars@[lo + 1]);
            }
            assert(comment == text::is_comment(line));
        }
        if !comment {
            match split_colon_at(&chars, lo, hi) {
                Some(p) => {
                    let ghost old_out = out@;
                    out.push(p);
                    proof {
                        let f = ls.take(i + 1).filter(pred);
                        assert(f == ls.take(i as int).filter(pred).push(line));
                        assert forall|k: int| 0 <= k < out@.len() implies (#[trigger] text::pairs_view(
                            out@,
                        )[k]) == text::split_colon(f[k])->0 by {
                            if k < old_out.len() {
                                assert(text::pairs_view(out@)[k] == text::pairs_view(old_out)[k]);
                                assert(f[k] == ls.take(i as int).filter(pred)[k]);
                            }
                        }
                        assert forall|k: int| 0 <= k < out@.len() implies (#[trigger] text::split_colon(
                            f[k],
                        )) is Some by {
                            if k < old_out.len() {
                                assert(f[k] == ls.take(i as int).filter(pred)[k]);
                            }
                        }
                    }
                },
                None => {
                    proof {
                        let f = text::active_lines(text@);
                        assert(ls.contains(line)) by {
                            assert(ls[i as int] == line);
                        }
                        ls.lemma_filter_contains(pred, i as int);
                        let k = choose|k: int| 0 <= k < f.len() && f[k] == line;
                        assert(text::split_colon(f[k]) is None);
                    }
                    return None;
                },
            }
        }
        i = i + 1;
    }
    proof {
        assert(ls.take(ls.len() as int) =~= ls);
        let f = text::active_lines(text@);
        assert(text::pairs_view(out@) =~= f.map_values(|l: Seq<char>| text::split_colon(l)->0));
    }
    Some(out)
}

/// Whether `token` is the session token of one of the accounts: `Ok` when it
/// is, `TokenError` otherwise.
pub fn authenticate_token(entries: &Vec<(String, String)>, token: &str) -> (r: Result<(), Errors>)
    ensures
        r is Ok <==> exists|i: int|
            0 <= i < entries@.len() && session_token(
                #[trigger] text::pairs_view(entries@)[i].0,
                text::pairs_view(entries@)[i].1,
            ) == token@,
        r is Err ==> r matches Err(Errors::TokenError),
{
    let wanted = token.to_owned();
    let mut i: usize = 0;
    while i < entries.len()
        invariant
            i <= entries@.len(),
            wanted@ == token@,
            forall|j: int|
                0 <= j < i ==> session_token(
                    #[trigger] text::pairs_view(entries@)[j].0,
                    text::pairs_view(entries@)[j].1,
                ) != token@,
        decreases entries@.len() - i,
    {
        let t = login_token(entries[i].0.as_str(), entries[i].1.as_str());
        if t == wanted {
            proof {
                assert(text::pairs_view(entries@)[i as int].0 == entries@[i as int].0@);
            }
            return Ok(());
        }
        i = i + 1;
    }
    Err(Errors::TokenError)
}

/// What a login attempt leads to.
pub enum LoginOutcome {
    /// Logged in: the page of the console, with this session token.
    Authenticated { token: String },
    /// No such account: it has just been registered; go to the registration page.
    Register,
    /// Wrong password or another failure: back to the login page.
    Retry,
}

/// The outcome of logging `user` in, given what `authenticate_with_password`
/// returned.
pub fn login_outcome(user: &str, result: Result<String, Errors>) -> (o: LoginOutcome)
    ensures
        match result {
            Ok(h) => o matches LoginOutcome::Authenticated { token } && token@ == session_token(
                user@,
                h@,
            ),
            Err(Errors::NoSuchUser) => o is Register,
            Err(_) => o is Retry,
        },
{
    match result {
        Ok(hashed_pass) => LoginOutcome::Authenticated { token: login_token(user, hashed_pass.as_str()) },
        Err(Errors::NoSuchUser) => LoginOutcome::Register,
        Err(_) => LoginOutcome::Retry,
    }
}

/// A token issued at login opens the console: when the password list gives
/// `user` the digest of `pass` (so that logging in with `pass` succeeds), the
/// token of that login is the token of one of the accounts that token checks
/// accept, provided the user name does not itself start with `//` (the lines
/// of such names are comments to the token check).
pub proof fn lemma_issued_token_authenticates(text: Seq<char>, user: Seq<char>, pass: Seq<char>)
    requires
        text::entries_of(text::lines(text)) matches Some(es) && text::pairs_map(es).get(user) == Some(
            digest::sha512_hex(pass),
        ),
        !text::is_comment(user),
    ensures
        text::entries_of(text::active_lines(text)) matches Some(active) && exists|i: int|
            0 <= i < active.len() && session_token(#[trigger] active[i].0, active[i].1)
                == session_token(user, digest::sha512_hex(pass)),
{
    let ls = text::lines(text);
    let es = text::entries_of(ls)->0;
    let pred = |l: Seq<char>| !text::is_comment(l);
    let f = ls.filter(pred);
    assert(f == text::active_lines(text));
    text::lemma_pairs_map_witness(es, user);
    let j = choose|j: int| 0 <= j < es.len() && es[j].0 == user && es[j].1 == text::pairs_map(es)[user];
    let line = ls[j];
    assert(text::split_colon(line) is Some);
    assert(es[j] == text::split_colon(line)->0);
    text::lemma_first_index_bounds(line, ':');
    let c = text::first_index_of(line, ':');
    assert(user == line.take(c));
    if text::is_comment(line) {
        assert(c >= 2);
        assert(user[0] == line[0] && user[1] == line[1]);
        assert(false);
    }
    ls.lemma_filter_contains(pred, j);
    let k = choose|k: int| 0 <= k < f.len() && f[k] == line;
    assert forall|i: int| 0 <= i < f.len() implies (#[trigger] text::split_colon(f[i])) is Some by {
        assert(f.contains(f[i]));
        ls.lemma_filter_contains_rev(pred, f[i]);
        let m = choose|m: int| 0 <= m < ls.len() && ls[m] == f[i];
        assert(text::split_colon(ls[m]) is Some);
    }
    let active = text::entries_of(f)->0;
    assert(active[k] == text::split_colon(f[k])->0);
    assert(active[k] == es[j]);
}

/// The session token is the SHA-512 digest, in hexadecimal, of the whole
/// string `user`, `+mc+`, stored digest: every character of the user name and
/// of the stored digest goes into it, whatever their lengths.
pub proof fn lemma_session_token_digests_whole_string(user: Seq<char>, pass_hash: Seq<char>)
    ensures
        session_token(user, pass_hash) == digest::lower_hex(
            digest::sha512(vstd::utf8::encode_utf8(user + "+mc+"@ + pass_hash)),
        ),
{
}

/// Registering writes a record that reading the password list gives back:
/// appending the line of `add_user` to a list that is empty or ends with a
/// newline maps `// user` (the name with its comment mark) to the digest of
/// the password, and keeps every other account. The name must hold no colon
/// and no newline, which would split the record elsewhere.
pub proof fn lemma_registered_record_reads_back(text: Seq<char>, user: Seq<char>, hash: Seq<char>)
    requires
        text.len() == 0 || text.last() == '\n',
        forall|j: int| 0 <= j < user.len() ==> user[j] != ':' && user[j] != '\n',
        text::entries_of(text::lines(text)) is Some,
    ensures
        text::entries_of(text::lines(text + record_line(user, hash))) matches Some(es2) && text::pairs_map(es2)
            == text::pairs_map(text::entries_of(text::lines(text))->0).insert("// "@ + user, digest::sha512_hex(hash)),
{
    reveal_strlit("// ");
    let name = "// "@ + user;
    let value = digest::sha512_hex(hash);
    digest::lemma_lower_hex_digits(digest::sha512(digest::utf8(hash)));
    assert forall|j: int| 0 <= j < name.len() implies name[j] != ':' && name[j] != '\n' by {
        if j >= 3 {
            assert(name[j] == user[j - 3]);
        }
    }
    assert forall|j: int| 0 <= j < value.len() implies value[j] != '\n' by {
        let c = value[j];
        assert(('0' <= c <= '9') || ('a' <= c <= 'f'));
    }
    if value.len() > 0 {
        let c = value[value.len() - 1];
        assert(('0' <= c <= '9') || ('a' <= c <= 'f'));
    }
    text::lemma_append_record(text, name, value);
    assert(record_line(user, hash) =~= name + ":"@ + value + "\n"@);
    let es = text::entries_of(text::lines(text))->0;
    let es2 = es.push((name, value));
    assert(es2.drop_last() =~= es);
}

} // verus!
