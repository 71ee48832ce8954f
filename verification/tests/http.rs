use docli_cli::creds::Bearer;
use docli_cli::creds::CredsError;
use docli_cli::creds::CredsFile;
use docli_cli::creds::CredsStore;
use docli_cli::creds::RefreshOutcome;
use docli_cli::creds::ServerCreds;
use docli_cli::http::identity_of;
use docli_cli::http::parse_u64;
use docli_cli::http::refresh_form;
use docli_cli::http::refresh_outcome;
use docli_cli::http::refuse_errors;
use docli_cli::http::sync_headers;
use docli_cli::http::viewer_label;
use docli_cli::http::workspace_with;
use docli_cli::http::workspaces;
use docli_cli::http::Api;
use docli_cli::http::ApiFailure;
use docli_cli::http::ErrBody;
use docli_cli::http::HttpError;
use docli_cli::http::QueryCall;
use docli_cli::http::QueryStep;
use docli_cli::http::RefreshReply;
use docli_cli::http::SyncCall;
use docli_cli::http::SyncStep;
use docli_cli::http::TokenReply;
use docli_cli::json::Json;

const HOST: &str = "https://docli.ru";

fn text(s: &str) -> Json {
    Json::Text(s.to_string())
}

fn object(members: Vec<(&str, Json)>) -> Json {
    Json::Object(members.into_iter().map(|(k, v)| (k.to_string(), v)).collect())
}

fn store(entry: Option<ServerCreds>) -> CredsStore {
    let mut s = CredsStore::open_stored(CredsFile::empty());
    if let Some(c) = entry {
        s.put(HOST, c).unwrap();
    }
    s
}

fn creds(expires_at: Option<i64>) -> ServerCreds {
    ServerCreds {
        access_token: "access".to_string(),
        refresh_token: expires_at.map(|_| "refresh".to_string()),
        expires_at,
        install_id: "i".to_string(),
    }
}

fn body(code: &str, message: &str, epoch: Option<i64>) -> ErrBody {
    ErrBody { code: code.to_string(), message: message.to_string(), epoch }
}

fn reply(status: u16, retry: Option<&str>, error: &str) -> RefreshReply {
    RefreshReply {
        status,
        status_text: format!("{status} text"),
        retry_after: retry.map(|s| s.to_string()),
        tokens: Err("no tokens".to_string()),
        error: error.to_string(),
    }
}

#[test]
fn addresses_are_joined_without_a_double_slash() {
    let api = Api::new("https://docli.ru//", store(None));
    assert_eq!(api.server, HOST);
    assert_eq!(api.timeout_secs, 120);
    assert_eq!(api.url("/api/sync/pull"), "https://docli.ru/api/sync/pull");
    assert_eq!(Api::with_timeout(HOST, store(None), 5).timeout_secs, 5);
    assert!(api.creds().servers().is_empty());
}

#[test]
fn a_refused_bearer_is_renewed_once() {
    let none = body("", "", None);
    let mut call = SyncCall::new();
    assert!(matches!(call.answered(401, &none), SyncStep::Renew));
    match call.answered(401, &body("UNAUTHORIZED", "no", None)) {
        SyncStep::Fail(f) => assert_eq!(f.message(), "UNAUTHORIZED (401): no"),
        other => panic!("{other:?}"),
    }
    assert!(matches!(SyncCall::new().answered(204, &none), SyncStep::Read));
}

#[test]
fn a_new_epoch_is_told_apart_from_a_refusal() {
    match SyncCall::new().answered(409, &body("EPOCH_CHANGED", "moved", Some(7))) {
        SyncStep::Fail(ApiFailure::EpochChanged { epoch }) => assert_eq!(epoch, 7),
        other => panic!("{other:?}"),
    }
    let silent = ApiFailure::EpochChanged { epoch: -3 };
    assert_eq!(silent.message(), "workspace resynced (epoch -3)");
    match SyncCall::new().answered(409, &body("EPOCH_CHANGED", "moved", None)) {
        SyncStep::Fail(ApiFailure::EpochChanged { epoch }) => assert_eq!(epoch, 0),
        other => panic!("{other:?}"),
    }
}

#[test]
fn a_query_that_must_not_renew_fails_at_once() {
    let mut call = QueryCall::new(false);
    match call.answered(401, "401 Unauthorized", "reading the account") {
        QueryStep::Fail(e) => {
            assert_eq!(e.message(), "reading the account failed (401 Unauthorized)")
        }
        other => panic!("{other:?}"),
    }
    let mut call = QueryCall::new(true);
    assert!(matches!(call.answered(401, "401", "x"), QueryStep::Renew));
    assert!(matches!(call.answered(200, "200", "x"), QueryStep::Read));
    assert!(matches!(call.answered(401, "401", "x"), QueryStep::Fail(_)));
}

#[test]
fn a_renewal_comes_to_one_of_four_things() {
    let mut ok = reply(200, None, "");
    ok.tokens = Ok(TokenReply {
        access_token: "a2".to_string(),
        refresh_token: "r2".to_string(),
        expires_in: 3600,
    });
    match refresh_outcome(&ok) {
        Ok(RefreshOutcome::Rotated { access_token, refresh_token, expires_in }) => {
            assert_eq!((access_token.as_str(), refresh_token.as_str(), expires_in), ("a2", "r2", 3600))
        }
        other => panic!("{other:?}"),
    }
    let paused = |h: Option<&str>| match refresh_outcome(&reply(503, h, "")) {
        Ok(RefreshOutcome::Suspended { retry_after_secs }) => retry_after_secs,
        other => panic!("{other:?}"),
    };
    assert_eq!(paused(Some("12")), 12);
    assert_eq!(paused(Some("soon")), 30);
    assert_eq!(paused(None), 30);
    assert!(matches!(
        refresh_outcome(&reply(400, None, "invalid_grant")),
        Ok(RefreshOutcome::InvalidGrant)
    ));
    assert_eq!(
        refresh_outcome(&reply(500, None, "oops")).unwrap_err().message(),
        "token refresh failed (500 text): oops"
    );
    assert_eq!(
        refresh_outcome(&reply(200, None, "")).unwrap_err().message(),
        "parsing the token response: no tokens"
    );
}

#[test]
fn a_number_is_read_as_a_header_writes_it() {
    assert_eq!(parse_u64("0"), Some(0));
    assert_eq!(parse_u64("+15"), Some(15));
    assert_eq!(parse_u64("18446744073709551615"), Some(u64::MAX));
    assert_eq!(parse_u64("18446744073709551616"), None);
    assert_eq!(parse_u64(""), None);
    assert_eq!(parse_u64("+"), None);
    assert_eq!(parse_u64("-1"), None);
    assert_eq!(parse_u64("1 "), None);
}

#[test]
fn the_forms_and_headers_are_what_the_server_expects() {
    let pairs = |v: &Vec<(String, String)>| -> Vec<(String, String)> { v.clone() };
    let p = |k: &str, v: &str| (k.to_string(), v.to_string());
    assert_eq!(
        pairs(&refresh_form("r1")),
        vec![p("grant_type", "refresh_token"), p("refresh_token", "r1"), p("client_id", "docli-cli")]
    );
    assert_eq!(
        pairs(&sync_headers("tok", "0.1.0", "linux")),
        vec![
            p("authorization", "Bearer tok"),
            p("x-docli-sync-version", "1"),
            p("x-docli-cli-version", "0.1.0"),
            p("x-docli-client-platform", "linux"),
        ]
    );
}

fn answer(viewer: Json) -> Json {
    object(vec![("data", object(vec![("viewer", viewer)]))])
}

#[test]
fn an_answer_that_knows_nobody_is_a_refusal() {
    let api = Api::new(HOST, store(None));
    for v in [answer(Json::Null), object(vec![("data", Json::Null)]), object(vec![])] {
        match api.viewer_of(&v) {
            Err(HttpError::Refused(r)) => assert_eq!(
                r.message(),
                "https://docli.ru did not accept this sign-in - it may have expired or been \
                 revoked"
            ),
            other => panic!("{other:?}"),
        }
    }
    let v = answer(object(vec![]));
    assert!(workspaces(api.viewer_of(&v).unwrap()).is_empty());
}

#[test]
fn an_error_in_an_answer_is_told() {
    let v = object(vec![("errors", Json::Array(vec![object(vec![("message", text("bad"))])]))]);
    assert_eq!(
        refuse_errors(&v, "listing workspaces").unwrap_err().message(),
        "listing workspaces failed: bad"
    );
    let dumb = object(vec![("errors", Json::Array(vec![Json::Null]))]);
    assert_eq!(refuse_errors(&dumb, "x").unwrap_err().message(), "x failed: GraphQL error");
    assert!(refuse_errors(&object(vec![("errors", Json::Array(vec![]))]), "x").is_ok());
    assert!(refuse_errors(&object(vec![]), "x").is_ok());
}

#[test]
fn workspaces_that_are_not_described_are_passed_over() {
    let id = "cd2f1093-4219-4d68-8d2c-dfe7d5125b72";
    let good = || object(vec![("id", text(id)), ("handle", text("h")), ("name", text("n"))]);
    let v = object(vec![(
        "workspaces",
        Json::Array(vec![
            object(vec![("id", text("not an id")), ("handle", text("h")), ("name", text("n"))]),
            good(),
            object(vec![("id", text(id)), ("handle", text("h"))]),
            Json::Null,
        ]),
    )]);
    let all = workspaces(&v);
    assert_eq!(all.len(), 1);
    assert_eq!(all[0].id, 0xcd2f1093_4219_4d68_8d2c_dfe7d5125b72);
    assert_eq!((all[0].handle.as_str(), all[0].name.as_str()), ("h", "n"));
    assert_eq!(workspace_with(Some(5), &good()).unwrap().id, 5);
    assert!(workspace_with(None, &good()).is_none());
}

#[test]
fn an_account_goes_by_its_name_and_address() {
    assert_eq!(viewer_label(" Ann ", "a@b.c").unwrap(), "Ann");
    assert_eq!(viewer_label("", "a@b.c").unwrap(), "a@b.c");
    assert_eq!(viewer_label("Ann", "  ").unwrap(), "Ann");
    assert_eq!(
        viewer_label("", "").unwrap_err().message(),
        "the server returned no account identity"
    );
    let v = object(vec![("displayName", text(" Ann ")), ("email", Json::Null)]);
    assert_eq!(identity_of(&v), ("Ann".to_string(), String::new()));
}

#[test]
fn a_query_begins_with_the_bearer_it_may_use() {
    let now = 1_000_000;
    let stale = Api::new(HOST, store(Some(creds(Some(now)))));
    assert!(matches!(stale.first_bearer(true, now), Ok(Bearer::Refresh)));
    match stale.first_bearer(false, now) {
        Ok(Bearer::Ready(t)) => assert_eq!(t, "access"),
        other => panic!("{other:?}"),
    }
    let nobody = Api::new(HOST, store(None));
    assert!(matches!(
        nobody.first_bearer(true, now),
        Err(HttpError::Creds(CredsError::NotSignedIn { .. }))
    ));
    assert_eq!(
        nobody.first_bearer(false, now).unwrap_err().message(),
        "no usable token - run `docli login`"
    );
    let elsewhere = Api::new(HOST, CredsStore::in_memory("https://other.example", "tok"));
    assert!(matches!(
        elsewhere.first_bearer(true, now),
        Err(HttpError::Creds(CredsError::WrongOrigin { .. }))
    ));
}
