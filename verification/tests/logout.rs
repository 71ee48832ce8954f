use docli_cli::creds::env_token;
use docli_cli::creds::CredsFile;
use docli_cli::creds::CredsStore;
use docli_cli::creds::EnvToken;
use docli_cli::creds::RawVar;
use docli_cli::creds::ServerCreds;
use docli_cli::logout::all;
use docli_cli::logout::all_quiet;
use docli_cli::logout::offered;
use docli_cli::logout::revoke_form;
use docli_cli::logout::run;
use docli_cli::logout::sign_out;
use docli_cli::logout::targets;
use docli_cli::logout::warn_env_token_still_in_force;
use docli_cli::logout::Fate;
use docli_cli::report::Notice;

const HOST: &str = "https://docli.ru";

fn grant(refresh: &str) -> ServerCreds {
    ServerCreds {
        access_token: "access".to_string(),
        refresh_token: Some(refresh.to_string()),
        expires_at: Some(1),
        install_id: "i".to_string(),
    }
}

fn key() -> ServerCreds {
    ServerCreds {
        access_token: "minted".to_string(),
        refresh_token: None,
        expires_at: None,
        install_id: "i".to_string(),
    }
}

fn store(entries: Vec<(&str, ServerCreds)>) -> CredsStore {
    let mut s = CredsStore::open_stored(CredsFile::empty());
    for (server, c) in entries {
        s.put(server, c).unwrap();
    }
    s
}

fn env() -> Option<EnvToken> {
    env_token(
        &RawVar::Text("tok".to_string()),
        &RawVar::Text("https://docli.ru".to_string()),
    )
    .unwrap()
}

#[test]
fn forgetting_does_not_wait_for_the_server() {
    for (confirmed, want) in [(true, Fate::Revoked), (false, Fate::Unconfirmed)] {
        let mut s = store(vec![(HOST, grant("r1"))]);
        let found = s.get(HOST);
        let fate = sign_out(&mut s, HOST, &found, confirmed).unwrap();
        assert_eq!(fate, want);
        assert!(s.get(HOST).is_none());
    }
}

#[test]
fn a_newer_sign_in_is_kept() {
    let mut s = store(vec![(HOST, grant("r2"))]);
    let fate = sign_out(&mut s, HOST, &Some(grant("r1")), true).unwrap();
    assert_eq!(fate, Fate::Superseded { minted: false, revoked: true });
    assert_eq!(s.get(HOST).unwrap().refresh_token.as_deref(), Some("r2"));
}

#[test]
fn a_minted_key_is_only_forgotten() {
    let mut s = store(vec![(HOST, key()), ("https://b", grant("r"))]);
    assert_eq!(offered(&key()), None);
    assert_eq!(offered(&grant("r")), Some("r".to_string()));
    let found = s.get(HOST);
    assert_eq!(sign_out(&mut s, HOST, &found, true).unwrap(), Fate::KeyRemoved);
    assert_eq!(s.servers(), vec!["https://b"]);
    assert_eq!(sign_out(&mut s, HOST, &None, false).unwrap(), Fate::NotSignedIn);
}

#[test]
fn all_means_every_server() {
    let s = store(vec![("https://b", key()), ("https://a", key())]);
    assert_eq!(targets(&s, HOST, true), vec!["https://a", "https://b"]);
    assert_eq!(targets(&s, HOST, false), vec![HOST]);
}

#[test]
fn the_form_names_the_token_and_the_client() {
    let form = revoke_form("r1");
    let pairs: Vec<(&str, &str)> = form.iter().map(|(k, v)| (k.as_str(), v.as_str())).collect();
    assert_eq!(
        pairs,
        vec![("token", "r1"), ("token_type_hint", "refresh_token"), ("client_id", "docli-cli")]
    );
}

fn one(fate: Fate) -> Vec<(String, Fate)> {
    vec![(HOST.to_string(), fate)]
}

#[test]
fn a_confirmed_sign_out_is_told_with_the_next_step() {
    let (said, code) = run(HOST, false, true, &one(Fate::Revoked), &None);
    assert_eq!(code, 0);
    assert_eq!(
        said,
        vec![
            Notice::Done("Signed out of https://docli.ru - tokens revoked.".to_string()),
            Notice::Detail(
                "The connection stays listed in the access list until you disconnect it there."
                    .to_string()
            ),
            Notice::Next("Sign in again: docli login".to_string()),
        ]
    );
}

#[test]
fn an_unconfirmed_one_is_a_warning_and_an_exit_code() {
    let (said, code) = run(HOST, false, true, &one(Fate::Unconfirmed), &None);
    assert_eq!(code, 1);
    assert!(matches!(&said[1], Notice::Warn(w) if w.contains("did not confirm")));
    let live = Fate::Superseded { minted: false, revoked: false };
    assert_eq!(run(HOST, false, true, &one(live), &None).1, 1);
    let (said, code) = run(HOST, false, true, &one(Fate::KeyRemoved), &None);
    assert_eq!(code, 0);
    assert!(matches!(&said[1], Notice::Warn(w) if w.contains("still live on the server")));
}

#[test]
fn signing_in_again_names_a_server_that_is_not_the_default() {
    let other = "https://own.example";
    let outcomes = vec![(other.to_string(), Fate::KeyRemoved)];
    let (said, _) = run(other, false, true, &outcomes, &None);
    assert_eq!(
        said.last(),
        Some(&Notice::Next(
            "Sign in again: docli login --server https://own.example".to_string()
        ))
    );
    let (said, _) = all(&outcomes, &None);
    assert_eq!(
        said.last(),
        Some(&Notice::Next(
            "Sign in again: docli login --server https://own.example".to_string()
        ))
    );
    let (said, _) = all_quiet(&outcomes, &None);
    assert!(!said.iter().any(|n| matches!(n, Notice::Next(_))));
}

#[test]
fn nobody_signed_in_is_told_plainly() {
    let (said, code) = run(HOST, false, true, &one(Fate::NotSignedIn), &None);
    assert_eq!(
        said,
        vec![Notice::Done("This device was not signed in to https://docli.ru.".to_string())]
    );
    assert_eq!(code, 0);
    let (said, code) = all(&vec![], &None);
    assert_eq!(said, vec![Notice::Done("No active connections.".to_string())]);
    assert_eq!(code, 0);
}

#[test]
fn a_token_in_the_environment_still_signs_in() {
    let e = env();
    let said = warn_env_token_still_in_force(&e);
    assert!(matches!(&said[0], Notice::Warn(w) if w.contains("DOCLI_TOKEN") && w.contains(HOST)));
    assert!(warn_env_token_still_in_force(&None).is_empty());
    let (said, _) = all(&vec![], &e);
    assert_eq!(said.len(), 2);
}
