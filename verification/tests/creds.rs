use std::io::Error;
use std::io::ErrorKind;

use docli_cli::creds::auth_dir;
use docli_cli::creds::cli_home;
use docli_cli::creds::env_token;
use docli_cli::creds::finish_unwritable;
use docli_cli::creds::is_write_refusal;
use docli_cli::creds::lock_for_write;
use docli_cli::creds::octal;
use docli_cli::creds::After;
use docli_cli::creds::Bearer;
use docli_cli::creds::CredsError;
use docli_cli::creds::CredsFile;
use docli_cli::creds::CredsStore;
use docli_cli::creds::EntryKind;
use docli_cli::creds::EnvToken;
use docli_cli::creds::IoFault;
use docli_cli::creds::Look;
use docli_cli::creds::ModeSeen;
use docli_cli::creds::OpenEvent;
use docli_cli::creds::OpenStep;
use docli_cli::creds::RawVar;
use docli_cli::creds::RefreshOutcome;
use docli_cli::creds::ServerCreds;
use docli_cli::creds::StorePaths;
use docli_cli::creds::MAX_RETRY_AFTER_SECS;
use docli_cli::creds::MAX_TOKEN_LEN;
use docli_cli::creds::REFRESH_SKEW_SECS;
use docli_cli::creds::TOKEN_SERVER_VAR;
use docli_cli::creds::TOKEN_VAR;

const NOW: i64 = 1_700_000_000;

fn store() -> CredsStore {
    CredsStore::open_stored(CredsFile::empty())
}

fn seed(s: &mut CredsStore, server: &str, expires_at: i64) {
    s.put(
        server,
        ServerCreds {
            access_token: "old-access".into(),
            refresh_token: Some("r1".into()),
            expires_at: Some(expires_at),
            install_id: "i1".into(),
        },
    )
    .unwrap();
}

fn seed_key(s: &mut CredsStore, server: &str) {
    s.put(
        server,
        ServerCreds {
            access_token: "minted".into(),
            refresh_token: None,
            expires_at: None,
            install_id: "i1".into(),
        },
    )
    .unwrap();
}

fn text(s: &str) -> RawVar {
    RawVar::Text(s.to_string())
}

fn env(token: &str, server: Option<&str>) -> Result<Option<EnvToken>, CredsError> {
    let server = match server {
        Some(s) => text(s),
        None => RawVar::Unset,
    };
    env_token(&text(token), &server)
}

fn env_store(token: &str) -> CredsStore {
    CredsStore::open_default(env(token, None).unwrap(), CredsFile::empty())
}

/// Renews the sign-in the way a command does, with the lock held.
fn renew(
    s: &mut CredsStore,
    server: &str,
    rejected: Option<&str>,
    refresh: &mut dyn FnMut(&str) -> RefreshOutcome,
) -> Result<String, CredsError> {
    let mut run = s.refresh_single_flight(server, rejected)?;
    loop {
        match run.look(s, NOW) {
            Look::Usable(t) => return Ok(t),
            Look::Fail(e) => return Err(e),
            Look::Exchange {
                refresh_token,
                install_id,
            } => {
                let outcome = refresh(&refresh_token);
                match run.exchanged(s, &install_id, outcome, NOW) {
                    After::Usable(t) => return Ok(t),
                    After::Fail(e) => return Err(e),
                    After::Wait(_) => {}
                }
            }
        }
    }
}

fn bearer(
    s: &mut CredsStore,
    server: &str,
    refresh: &mut dyn FnMut(&str) -> RefreshOutcome,
) -> Result<String, CredsError> {
    match s.bearer(server, NOW)? {
        Bearer::Ready(t) => Ok(t),
        Bearer::Refresh => renew(s, server, None, refresh),
    }
}

fn never(_: &str) -> RefreshOutcome {
    panic!("must not refresh")
}

fn rotated(access: &str, refresh: &str) -> RefreshOutcome {
    RefreshOutcome::Rotated {
        access_token: access.into(),
        refresh_token: refresh.into(),
        expires_in: 3600,
    }
}

fn paths() -> StorePaths {
    StorePaths {
        dir: "/h/auth".into(),
        file: "/h/auth/credentials.json".into(),
        lock: "/h/auth/creds.lock".into(),
    }
}

fn denied() -> IoFault {
    IoFault {
        denied: true,
        code: None,
        text: "permission denied".into(),
    }
}

fn other_fault() -> IoFault {
    IoFault {
        denied: false,
        code: None,
        text: "invalid data".into(),
    }
}

fn failure(step: OpenStep) -> String {
    match step {
        OpenStep::Fail(e) => e.message(),
        other => panic!("must fail: {other:?}"),
    }
}

#[test]
fn a_write_refused_home_still_opens_when_the_credentials_are_already_tight() {
    assert!(matches!(
        finish_unwritable(&denied(), &ModeSeen::Mode(0o600), &paths()),
        OpenStep::Done
    ));
}

#[test]
fn a_write_refused_home_refuses_a_world_readable_credentials_file() {
    let msg = failure(finish_unwritable(
        &denied(),
        &ModeSeen::Mode(0o100644),
        &paths(),
    ));
    assert!(msg.contains("644"), "{msg}");
    assert!(
        msg.contains("chmod 600"),
        "the refusal must name the fix: {msg}"
    );
}

#[test]
fn a_non_write_error_is_not_treated_as_a_read_only_home() {
    let msg = failure(finish_unwritable(
        &other_fault(),
        &ModeSeen::Mode(0o600),
        &paths(),
    ));
    assert_eq!(msg, "invalid data");
}

#[test]
fn a_write_refusal_on_the_lock_explains_itself_and_keeps_the_sign_in() {
    let msg = lock_for_write(&denied(), "/h/auth").message();
    assert!(msg.contains("not writable"), "{msg}");
    assert!(
        msg.contains("agent sandbox"),
        "the refusal must name the cause: {msg}"
    );
    assert!(!msg.contains("os error"), "{msg}");
    assert_eq!(
        lock_for_write(&other_fault(), "/h/auth").message(),
        "opening the credentials lock: invalid data"
    );
}

#[test]
fn write_refusals_are_told_apart_from_other_io_errors() {
    let fault = |e: Error| IoFault {
        denied: e.kind() == ErrorKind::PermissionDenied,
        code: e.raw_os_error(),
        text: e.to_string(),
    };
    assert!(is_write_refusal(&fault(Error::from(
        ErrorKind::PermissionDenied
    ))));
    assert!(is_write_refusal(&fault(Error::from_raw_os_error(30))));
    assert!(!is_write_refusal(&fault(Error::from(ErrorKind::NotFound))));
    assert!(!is_write_refusal(&fault(Error::from(
        ErrorKind::InvalidData
    ))));
}

#[test]
fn an_empty_token_variable_is_not_a_sign_in() {
    assert!(env("", None).unwrap().is_none());
    assert!(env("   \n", None).unwrap().is_none());
    assert!(env_token(&RawVar::Unset, &RawVar::Unset).unwrap().is_none());
}

#[test]
fn a_token_is_trimmed() {
    let t = env("  abc123 \n", None).unwrap().unwrap();
    assert_eq!(t.token(), "abc123");
    assert_eq!(t.server(), "https://docli.ru");
}

#[test]
fn a_token_that_cannot_be_a_bearer_is_refused_by_name() {
    let e = env("abc\u{7}def", None).unwrap_err().message();
    assert!(e.contains(TOKEN_VAR), "{e}");
    assert!(e.contains("'\\u{7}'"), "{e}");
    assert!(env(&"x".repeat(MAX_TOKEN_LEN + 1), None).is_err());
    assert!(env(&"x".repeat(MAX_TOKEN_LEN), None).is_ok());
    let e = env_token(&RawVar::NotUnicode, &RawVar::Unset).unwrap_err();
    assert!(matches!(e, CredsError::TokenNotUnicode));
    assert!(e.message().contains("not valid UTF-8"));
}

#[test]
fn the_token_server_variable_names_the_origin_and_is_normalized() {
    let t = env("abc", Some("http://docli.localhost/")).unwrap().unwrap();
    assert_eq!(t.server(), "http://docli.localhost");
    let e = env("abc", Some("  ")).unwrap_err();
    assert!(matches!(e, CredsError::TokenServerEmpty));
    let e = env_token(&text("abc"), &RawVar::NotUnicode).unwrap_err();
    assert!(e.message().contains(TOKEN_SERVER_VAR));
}

#[test]
fn the_environment_token_is_bound_to_one_origin() {
    let mut s = env_store("t0k");
    assert_eq!(bearer(&mut s, "https://docli.ru", &mut never).unwrap(), "t0k");
    assert!(s.signed_in("https://docli.ru").unwrap());
    let e = bearer(&mut s, "https://evil.example", &mut never)
        .unwrap_err()
        .message();
    assert!(e.contains("https://evil.example"), "{e}");
    assert!(e.contains(TOKEN_SERVER_VAR), "{e}");
    assert!(s.signed_in("https://evil.example").is_err());
}

#[test]
fn the_environment_token_never_touches_the_credentials_file() {
    let mut full = store();
    seed(&mut full, "https://docli.ru", NOW + 3600);
    let mut s = CredsStore::open_default(env("t0k", None).unwrap(), full.into_file());
    assert_eq!(bearer(&mut s, "https://docli.ru", &mut never).unwrap(), "t0k");
    assert_eq!(
        s.stored_token("https://docli.ru").unwrap().as_deref(),
        Some("t0k")
    );
    assert!(s.get("https://docli.ru").is_none(), "the file is not seen");
    assert!(s.servers().is_empty());
}

#[test]
fn a_refused_environment_token_is_reported_not_refreshed() {
    let mut s = env_store("t0k");
    let e = renew(&mut s, "https://docli.ru", Some("t0k"), &mut never)
        .unwrap_err()
        .message();
    assert!(e.contains(TOKEN_VAR), "{e}");
}

#[test]
fn storing_a_credential_is_refused_while_the_environment_signs_us_in() {
    let mut s = env_store("t0k");
    let put = s
        .put(
            "https://docli.ru",
            ServerCreds {
                access_token: "a".into(),
                refresh_token: Some("r".into()),
                expires_at: Some(0),
                install_id: "i".into(),
            },
        )
        .unwrap_err();
    let id = s.install_id("https://docli.ru", None).unwrap_err();
    for e in [put, id] {
        let e = e.message();
        assert!(e.contains(TOKEN_VAR), "{e}");
    }
}

#[test]
fn a_key_signin_needs_neither_a_browser_round_nor_a_writable_sandbox() {
    let mut s = store();
    seed_key(&mut s, "https://docli.ru");
    assert!(
        s.signed_in("https://docli.ru").unwrap(),
        "a stored key IS a sign-in - init must not offer to log in again"
    );
    assert!(
        !s.can_lapse("https://docli.ru"),
        "a key never refreshes - init must not offer to widen the sandbox for it"
    );
}

#[test]
fn an_oauth_grant_is_the_only_sign_in_that_can_lapse() {
    let mut s = store();
    seed(&mut s, "https://docli.ru", i64::MAX / 2);
    assert!(s.can_lapse("https://docli.ru"));
    assert!(!s.can_lapse("https://other.example"));
}

#[test]
fn a_minted_key_is_never_due_for_refresh() {
    let mut s = store();
    seed_key(&mut s, "srv");
    assert_eq!(bearer(&mut s, "srv", &mut never).unwrap(), "minted");
    assert!(!s
        .get("srv")
        .unwrap()
        .needs_refresh(i64::MAX / 2, REFRESH_SKEW_SECS));
}

#[test]
fn a_refused_minted_key_says_what_to_do_and_never_refreshes() {
    let mut s = store();
    seed_key(&mut s, "srv");
    let e = renew(&mut s, "srv", Some("minted"), &mut never)
        .unwrap_err()
        .message();
    assert!(e.contains("--token"), "{e}");
    assert_eq!(
        s.get("srv").unwrap().access_token,
        "minted",
        "a 401 must not destroy a key that may still be good"
    );
}

#[test]
fn a_minted_key_is_removed_only_while_it_is_still_the_stored_one() {
    let mut s = store();
    seed_key(&mut s, "srv");
    assert!(!s.remove_if_current("srv", "some-other-key").unwrap());
    assert!(s.get("srv").is_some());
    assert!(s.remove_if_current("srv", "minted").unwrap());
    assert!(s.get("srv").is_none());
}

#[test]
fn open_rehardens_a_loose_existing_file_and_refuses_a_symlink() {
    let p = paths();
    let mut ev = OpenEvent::Found(EntryKind::Regular);
    let mut steps = Vec::new();
    loop {
        let step = CredsStore::open(&ev, &p);
        ev = match step {
            OpenStep::RestrictDir => OpenEvent::Restricted,
            OpenStep::OpenLock => OpenEvent::LockOpened,
            OpenStep::TryLock => OpenEvent::Locked,
            OpenStep::LookAgain => OpenEvent::FoundAgain(EntryKind::Regular),
            OpenStep::Rewrite => OpenEvent::Rewritten,
            OpenStep::Done => break,
            OpenStep::Fail(e) => panic!("{}", e.message()),
        };
        steps.push(format!("{step:?}"));
    }
    assert_eq!(
        steps,
        ["RestrictDir", "OpenLock", "TryLock", "LookAgain", "Rewrite"]
    );
    for ev in [
        OpenEvent::Found(EntryKind::Other),
        OpenEvent::FoundAgain(EntryKind::Other),
    ] {
        let err = failure(CredsStore::open(&ev, &p));
        assert!(err.contains("not a regular file"), "{err}");
    }
}

#[test]
fn opening_tells_contention_from_failure() {
    let p = paths();
    assert!(matches!(
        CredsStore::open(&OpenEvent::Contended, &p),
        OpenStep::Done
    ));
    assert!(matches!(
        CredsStore::open(&OpenEvent::Found(EntryKind::Missing), &p),
        OpenStep::Done
    ));
    assert_eq!(
        failure(CredsStore::open(&OpenEvent::NotLocked("nope".into()), &p)),
        "cannot lock /h/auth/creds.lock to verify the credential file's permissions: nope"
    );
    assert_eq!(
        failure(CredsStore::open(
            &OpenEvent::LockNotOpened(other_fault(), ModeSeen::Mode(0o600)),
            &p
        )),
        "opening /h/auth/creds.lock to verify the credential file's permissions: invalid data"
    );
    assert_eq!(
        failure(CredsStore::open(
            &OpenEvent::RestrictFailed(denied(), ModeSeen::Unknown("gone".into())),
            &p
        )),
        "stat /h/auth/credentials.json: gone"
    );
    assert_eq!(
        failure(CredsStore::open(&OpenEvent::RewriteFailed("full".into()), &p)),
        "full"
    );
}

#[test]
fn fresh_token_is_returned_without_refreshing() {
    let mut s = store();
    seed(&mut s, "srv", NOW + 3600);
    assert_eq!(bearer(&mut s, "srv", &mut never).unwrap(), "old-access");
}

#[test]
fn single_flight_two_sequential_expiries_refresh_once() {
    let mut s = store();
    seed(&mut s, "srv", 0);
    let mut calls = 0;
    let mut refresh = |_: &str| {
        calls += 1;
        rotated("new-access", "r2")
    };
    assert_eq!(bearer(&mut s, "srv", &mut refresh).unwrap(), "new-access");
    assert_eq!(bearer(&mut s, "srv", &mut refresh).unwrap(), "new-access");
    assert_eq!(calls, 1, "exactly ONE refresh");
    let c = s.get("srv").unwrap();
    assert_eq!(c.refresh_token.as_deref(), Some("r2"));
    assert_eq!(c.expires_at, Some(NOW + 3600));
    assert_eq!(c.install_id, "i1");
}

#[test]
fn invalid_grant_is_terminal_and_never_retried() {
    let mut s = store();
    seed(&mut s, "srv", 0);
    let mut calls = 0;
    let err = bearer(&mut s, "srv", &mut |_| {
        calls += 1;
        RefreshOutcome::InvalidGrant
    })
    .unwrap_err()
    .message();
    assert!(err.contains("docli login"), "{err}");
    assert_eq!(calls, 1);
    assert!(s.get("srv").is_none(), "dead creds are removed");
}

#[test]
fn suspended_retries_with_reread_creds_and_keeps_them() {
    let mut s = store();
    seed(&mut s, "srv", 0);
    let mut calls = 0;
    let tok = bearer(&mut s, "srv", &mut |_| {
        calls += 1;
        if calls == 1 {
            RefreshOutcome::Suspended {
                retry_after_secs: 0,
            }
        } else {
            rotated("after-suspend", "r2")
        }
    })
    .unwrap();
    assert_eq!(tok, "after-suspend");
    assert_eq!(calls, 2);
}

#[test]
fn a_connection_that_stays_suspended_gives_up_and_keeps_the_sign_in() {
    let mut s = store();
    seed(&mut s, "srv", 0);
    let mut calls = 0;
    let err = bearer(&mut s, "srv", &mut |_| {
        calls += 1;
        RefreshOutcome::Suspended {
            retry_after_secs: 5,
        }
    })
    .unwrap_err();
    assert!(matches!(err, CredsError::Suspended { .. }));
    assert_eq!(calls, 4);
    assert!(s.get("srv").is_some());
    let mut run = s.refresh_single_flight("srv", None).unwrap();
    let long = RefreshOutcome::Suspended {
        retry_after_secs: 9999,
    };
    assert!(matches!(
        run.exchanged(&mut s, "i1", long, NOW),
        After::Wait(MAX_RETRY_AFTER_SECS)
    ));
}

#[test]
fn a_server_rejected_token_forces_rotation_despite_local_freshness() {
    let mut s = store();
    seed(&mut s, "srv", NOW + 3600);
    let mut calls = 0;
    let tok = renew(&mut s, "srv", Some("old-access"), &mut |_| {
        calls += 1;
        rotated("rotated", "r2")
    })
    .unwrap();
    assert_eq!(tok, "rotated");
    assert_eq!(calls, 1, "the rotation genuinely ran");
    let tok = renew(&mut s, "srv", Some("old-access"), &mut never).unwrap();
    assert_eq!(tok, "rotated");
}

#[test]
fn a_logout_does_not_delete_a_credential_a_concurrent_login_replaced() {
    let mut s = store();
    seed(&mut s, "srv", 0);
    s.put(
        "srv",
        ServerCreds {
            access_token: "new-access".into(),
            refresh_token: Some("r2".into()),
            expires_at: Some(NOW + 3600),
            install_id: "i1".into(),
        },
    )
    .unwrap();
    assert!(!s.remove_if_current("srv", "r1").unwrap());
    assert!(s.get("srv").is_some(), "the new lineage survives");
    assert!(s.remove_if_current("srv", "r2").unwrap());
    assert!(s.get("srv").is_none());
}

#[test]
fn install_id_is_minted_once_and_survives_logout() {
    let mut s = store();
    let (a, minted) = s.install_id("srv", None).unwrap();
    assert!(minted);
    let (b, again) = s.install_id("srv", Some(&a)).unwrap();
    assert_eq!(a, b);
    assert!(!again);
    seed(&mut s, "srv", 0);
    s.remove("srv").unwrap();
    assert_eq!(
        s.install_id("srv", Some(&a)).unwrap().0,
        a,
        "survives a logout"
    );
    let (c, _) = s.install_id("srv", None).unwrap();
    assert_ne!(a, c);
    uuid::Uuid::parse_str(&a).unwrap();
}

#[test]
fn the_file_keeps_its_servers_in_order() {
    let mut f = CredsFile::empty();
    for server in ["b", "a", "c", "a"] {
        f.insert(
            server,
            ServerCreds {
                access_token: server.into(),
                refresh_token: None,
                expires_at: None,
                install_id: "i".into(),
            },
        );
    }
    assert_eq!(f.servers(), ["a", "b", "c"]);
    assert_eq!(f.len(), 3);
    assert_eq!(f.at(1).0, "b");
    f.remove("b");
    assert!(f.get("b").is_none());
    assert_eq!(f.get("c").unwrap().access_token, "c");
}

#[test]
fn only_confirmed_sign_ins_are_cleared() {
    let mut s = store();
    seed(&mut s, "a", 0);
    seed(&mut s, "b", 0);
    let left = s.revoke_all_and_clear(&vec!["a".to_string()]).unwrap();
    assert_eq!(left, ["b"]);
    assert!(s.get("a").is_none());
    let left = s.revoke_all_and_clear(&vec!["b".to_string()]).unwrap();
    assert!(left.is_empty());
}

#[test]
fn the_home_is_the_variable_or_a_directory_of_the_users() {
    assert_eq!(cli_home(Some("/x"), Some("/home/u")).unwrap(), "/x");
    let home = cli_home(None, Some("/home/u")).unwrap();
    assert_eq!(home, "/home/u/.docli");
    assert_eq!(auth_dir(&home), "/home/u/.docli/auth");
    assert!(matches!(cli_home(None, None), Err(CredsError::NoHome)));
    assert_eq!(octal(0o644), "644");
    assert_eq!(octal(0), "0");
}

#[test]
fn a_missing_sign_in_says_so() {
    let mut s = store();
    let e = bearer(&mut s, "https://docli.ru", &mut never).unwrap_err();
    assert_eq!(
        e.message(),
        "not signed in to https://docli.ru - run `docli login`"
    );
    assert!(!s.signed_in("https://docli.ru").unwrap());
    assert!(s.stored_token("https://docli.ru").unwrap().is_none());
}

#[test]
fn a_minted_install_id_says_that_it_is_random() {
    let s = CredsStore::open_stored(CredsFile::empty());
    let (id, minted) = s.install_id("srv", None).unwrap();
    assert!(minted);
    assert_eq!(id.len(), 36);
    assert_eq!(&id[14..15], "4");
    assert!(matches!(&id[19..20], "8" | "9" | "a" | "b"), "{id}");
}
