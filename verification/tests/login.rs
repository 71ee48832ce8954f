use base64::Engine;
use sha2::Digest;

use docli_cli::creds::CredsFile;
use docli_cli::creds::CredsStore;
use docli_cli::http::TokenReply;
use docli_cli::login::accept;
use docli_cli::login::authorize_round;
use docli_cli::login::begin_login;
use docli_cli::login::exchange_form;
use docli_cli::login::login_notices;
use docli_cli::login::parse_callback;
use docli_cli::login::percent_decode;
use docli_cli::login::read_token_arg;
use docli_cli::login::round_from;
use docli_cli::login::route;
use docli_cli::login::run_login;
use docli_cli::login::second_word;
use docli_cli::login::store_token;
use docli_cli::login::token_checked;
use docli_cli::login::token_line;
use docli_cli::login::urlencode;
use docli_cli::login::CallbackError;
use docli_cli::login::ExchangeReply;
use docli_cli::login::LoginError;
use docli_cli::login::Route;
use docli_cli::login::TokenSource;
use docli_cli::login::NOT_FOUND;
use docli_cli::report::Notice;

fn b64url(bytes: &[u8]) -> String {
    base64::engine::general_purpose::URL_SAFE_NO_PAD.encode(bytes)
}

#[test]
fn authorize_url_carries_the_sync_resource_and_pkce() {
    let r = authorize_round("https://docli.ru", 49213, "inst-1");
    assert!(r.url.contains("client_id=docli-cli"), "{}", r.url);
    assert!(
        r.url
            .contains("redirect_uri=http%3A%2F%2F127.0.0.1%3A49213%2Fcallback"),
        "{}",
        r.url
    );
    assert!(
        r.url
            .contains("resource=https%3A%2F%2Fdocli.ru%2Fapi%2Fsync"),
        "{}",
        r.url
    );
    assert!(r.url.contains("code_challenge_method=S256"), "{}", r.url);
    assert!(r.url.contains("scope=sync"), "{}", r.url);
    assert!(r.url.contains("install_id=inst-1"), "{}", r.url);
    let expect = b64url(&sha2::Sha256::digest(r.verifier.as_bytes()));
    assert!(r.url.contains(&format!("code_challenge={expect}")));
}

#[test]
fn callback_parsing_extracts_code_and_state_and_refuses_errors() {
    let (code, state) = parse_callback("GET /callback?code=abc%2B1&state=xyz HTTP/1.1").unwrap();
    assert_eq!(code, "abc+1");
    assert_eq!(state, "xyz");
    assert!(parse_callback("GET /favicon.ico HTTP/1.1").is_err());
    let err = parse_callback("GET /callback?error=access_denied&state=x HTTP/1.1")
        .unwrap_err()
        .message();
    assert!(err.contains("access_denied"), "{err}");
}

#[test]
fn each_fault_of_a_callback_is_told() {
    assert!(matches!(parse_callback("GET"), Err(CallbackError::Malformed)));
    assert!(matches!(parse_callback("  "), Err(CallbackError::Malformed)));
    assert_eq!(
        parse_callback("POST /callback?code=a&state=b HTTP/1.1").unwrap_err().message(),
        "unexpected callback method: POST"
    );
    assert!(parse_callback("get /callback?code=a&state=b HTTP/1.1").is_err());
    assert_eq!(
        parse_callback("GET /other HTTP/1.1").unwrap_err().message(),
        "unexpected callback path: /other"
    );
    assert!(matches!(
        parse_callback("GET /callback?state=x HTTP/1.1"),
        Err(CallbackError::NoCode)
    ));
    assert!(matches!(
        parse_callback("GET /callback?code=x HTTP/1.1"),
        Err(CallbackError::NoState)
    ));
    assert_eq!(CallbackError::Malformed.message(), "malformed callback request");
    assert_eq!(CallbackError::NoCode.message(), "no code in the callback");
    assert_eq!(CallbackError::NoState.message(), "no state in the callback");
    // The last of two fields counts.
    let (code, _) = parse_callback("GET /callback?code=a&code=b&state=x HTTP/1.1").unwrap();
    assert_eq!(code, "b");
}

#[test]
fn a_round_is_fixed_by_its_bytes() {
    let r = round_from("https://docli.ru", 7, "id 1", &[0, 1, 2], &[255, 254]);
    assert_eq!(r.verifier, "AAEC");
    assert_eq!(r.state, "__4");
    assert_eq!(r.redirect_uri, "http://127.0.0.1:7/callback");
    let challenge = b64url(&sha2::Sha256::digest(b"AAEC"));
    assert_eq!(
        r.url,
        format!(
            "https://docli.ru/api/oauth/authorize?response_type=code&client_id=docli-cli\
             &redirect_uri=http%3A%2F%2F127.0.0.1%3A7%2Fcallback&state=__4\
             &code_challenge={challenge}&code_challenge_method=S256&scope=sync\
             &resource=https%3A%2F%2Fdocli.ru%2Fapi%2Fsync&install_id=id%201"
        )
    );
}

#[test]
fn two_rounds_share_neither_state_nor_verifier() {
    let a = authorize_round("https://docli.ru", 1, "i");
    let b = authorize_round("https://docli.ru", 1, "i");
    assert_ne!(a.state, b.state);
    assert_ne!(a.verifier, b.verifier);
    assert_eq!(a.verifier.len(), 64);
    assert_eq!(a.state.len(), 32);
}

#[test]
fn a_value_survives_its_way_through_an_address() {
    for s in ["", "plain-._~", "a b+c&d=e%", "Привет, мир", "😀"] {
        assert_eq!(percent_decode(&urlencode(s)), s, "{s}");
    }
    assert_eq!(urlencode("ж/"), "%D0%B6%2F");
    assert_eq!(percent_decode("a+b%2Fc"), "a b/c");
    assert_eq!(percent_decode("100%"), "100%");
    assert_eq!(percent_decode("%zz%4"), "%zz%4");
    assert_eq!(percent_decode("%ff"), "\u{fffd}");
}

#[test]
fn the_second_word_is_what_stands_between_blanks() {
    assert_eq!(second_word("GET  /x\tHTTP"), Some("/x".to_string()));
    assert_eq!(second_word("  one two"), Some("two".to_string()));
    assert_eq!(second_word("one "), None);
    assert_eq!(second_word(""), None);
}

#[test]
fn only_the_callback_ends_the_wait() {
    assert!(matches!(route(None), Route::Ignored));
    for stray in ["", "GET /favicon.ico HTTP/1.1\r\n", "GET /callback-probe HTTP/1.1"] {
        match route(Some(stray)) {
            Route::Stray(reply) => assert_eq!(reply, NOT_FOUND),
            other => panic!("{stray}: {other:?}"),
        }
    }
    match route(Some("GET /callback?code=c&state=s HTTP/1.1\r\n")) {
        Route::Callback { outcome, reply } => {
            assert_eq!(outcome.unwrap(), ("c".to_string(), "s".to_string()));
            let (head, body) = reply.split_once("\r\n\r\n").unwrap();
            assert!(head.starts_with("HTTP/1.1 200 OK\r\n"), "{head}");
            assert!(
                head.contains(&format!("Content-Length: {}", body.len())),
                "{head}"
            );
            assert!(body.contains("docli is connected"), "{body}");
        }
        other => panic!("{other:?}"),
    }
    match route(Some("GET /callback HTTP/1.1")) {
        Route::Callback { outcome, reply } => {
            assert!(outcome.is_err());
            assert!(reply.contains("Sign-in failed"), "{reply}");
        }
        other => panic!("{other:?}"),
    }
}

#[test]
fn a_code_with_a_foreign_state_is_refused() {
    let round = round_from("https://docli.ru", 7, "i", &[1], &[2]);
    let good = Ok(("code".to_string(), round.state.clone()));
    assert_eq!(accept(good, &round).unwrap(), "code");
    let bad = Ok(("code".to_string(), "other".to_string()));
    assert_eq!(
        accept(bad, &round).unwrap_err().message(),
        "state mismatch in the callback - refusing the code"
    );
    assert_eq!(
        accept(Err(CallbackError::NoCode), &round)
            .unwrap_err()
            .message(),
        "no code in the callback"
    );
}

#[test]
fn the_form_redeems_the_code_of_the_round() {
    let round = round_from("https://docli.ru", 7, "i", &[1], &[2]);
    let form = exchange_form("the-code", &round);
    let pairs: Vec<(&str, &str)> = form.iter().map(|p| (p.0.as_str(), p.1.as_str())).collect();
    assert_eq!(
        pairs,
        vec![
            ("grant_type", "authorization_code"),
            ("code", "the-code"),
            ("redirect_uri", "http://127.0.0.1:7/callback"),
            ("client_id", "docli-cli"),
            ("code_verifier", round.verifier.as_str()),
        ]
    );
}

#[test]
fn a_redeemed_code_is_stored_with_its_expiry() {
    let mut store = CredsStore::open_stored(CredsFile::empty());
    let login = begin_login(&store, "https://docli.ru", 7, Some("inst-9\n")).unwrap();
    assert_eq!(login.install_id, "inst-9");
    assert!(!login.minted);
    assert!(login.round.url.ends_with("&install_id=inst-9"));
    let reply = ExchangeReply::Tokens(TokenReply {
        access_token: "at".into(),
        refresh_token: "rt".into(),
        expires_in: 3600,
    });
    let said = run_login(&mut store, &login, reply, 1000).unwrap();
    assert_eq!(
        said,
        Notice::Done("Signed in - this device is connected to https://docli.ru.".into())
    );
    let c = store.get("https://docli.ru").unwrap();
    assert_eq!(c.access_token, "at");
    assert_eq!(c.refresh_token.as_deref(), Some("rt"));
    assert_eq!(c.expires_at, Some(4600));
    assert_eq!(c.install_id, "inst-9");
}

#[test]
fn a_code_that_is_not_redeemed_stores_nothing() {
    let mut store = CredsStore::open_stored(CredsFile::empty());
    let login = begin_login(&store, "https://docli.ru", 7, None).unwrap();
    assert!(login.minted);
    assert_eq!(login.install_id.len(), 36);
    let refused = ExchangeReply::Refused {
        status: "400 Bad Request".into(),
        text: "nope".into(),
    };
    assert_eq!(
        run_login(&mut store, &login, refused, 0).unwrap_err().message(),
        "the token exchange failed (400 Bad Request): nope"
    );
    let unread = ExchangeReply::Unreadable("eof".into());
    assert_eq!(
        run_login(&mut store, &login, unread, 0).unwrap_err().message(),
        "parsing the token response: eof"
    );
    assert!(store.get("https://docli.ru").is_none());
}

#[test]
fn no_sign_in_while_the_environment_signs_in() {
    let store = CredsStore::in_memory("https://docli.ru/", "t");
    let e = begin_login(&store, "https://docli.ru", 7, None).unwrap_err();
    assert!(matches!(e, LoginError::EnvSignsIn { .. }));
    assert_eq!(
        e.message(),
        "DOCLI_TOKEN is set (for https://docli.ru) and is what signs this device in, so storing a \
         second credential here would have no effect - unset DOCLI_TOKEN first if you want a \
         stored sign-in instead"
    );
    assert!(matches!(
        store_token(&store, "https://docli.ru", "tok", None),
        Err(LoginError::EnvSignsIn { .. })
    ));
}

#[test]
fn a_pasted_key_is_checked_before_it_is_stored() {
    let mut store = CredsStore::open_stored(CredsFile::empty());
    let server = "https://docli.ru";
    assert_eq!(
        store_token(&store, server, "  ", None).unwrap_err().message(),
        "no token was given"
    );
    assert_eq!(
        store_token(&store, server, "ab cd", None).unwrap_err().message(),
        "that does not look like an access token (it contains ' ') - check for stray whitespace \
         or quotes"
    );
    let (probe, minted) = store_token(&store, server, " key \n", Some("inst")).unwrap();
    assert!(!minted);
    assert_eq!(probe.access_token, "key");
    assert!(probe.refresh_token.is_none() && probe.expires_at.is_none());
    let e = token_checked(&mut store, server, probe, Err("no")).unwrap_err();
    assert_eq!(e.message(), "the token was refused: no");
    assert!(store.get(server).is_none());
    let (probe, _) = store_token(&store, server, "key", Some("inst")).unwrap();
    let said = token_checked(&mut store, server, probe, Ok("Ann <a@b>")).unwrap();
    assert_eq!(
        said[0],
        Notice::Done("Signed in to https://docli.ru as Ann <a@b>.".into())
    );
    assert_eq!(said.len(), 2);
    assert_eq!(store.get(server).unwrap().access_token, "key");
}

#[test]
fn a_token_is_given_asked_for_or_read() {
    assert!(matches!(read_token_arg("abc", true), TokenSource::Given(t) if t == "abc"));
    assert!(matches!(read_token_arg("-", true), TokenSource::Prompt));
    assert!(matches!(read_token_arg("-", false), TokenSource::Line));
    assert_eq!(token_line(" tok\n").unwrap(), "tok");
    assert_eq!(
        token_line("\n").unwrap_err().message(),
        "no token arrived on stdin"
    );
}

#[test]
fn the_link_is_printed_for_a_browser_that_stays_shut() {
    let round = round_from("https://docli.ru", 7, "i", &[1], &[2]);
    let (said, link) = login_notices(&round);
    assert_eq!(said[0], Notice::Heading("Sign in to docli".into()));
    assert!(link.contains(&round.url));
}
