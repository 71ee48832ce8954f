//! The conversation with the server: what is sent with a request, and what follows from a reply.
//!
//! A refused bearer is renewed once and the request sent again; every other failure is said. An
//! answer that knows nobody is a refusal and never an empty account.

use vstd::prelude::*;

use crate::creds::creds_message;
use crate::creds::due;
use crate::creds::held;
use crate::creds::misbound;
use crate::creds::Bearer;
use crate::creds::CredsError;
use crate::creds::CredsStore;
use crate::creds::RefreshOutcome;
use crate::creds::REFRESH_SKEW_SECS;
use crate::ids::parse_id;
use crate::ids::parsed_id;
use crate::json::as_array;
use crate::json::as_text;
use crate::json::elements_of;
use crate::json::lemma_elements_view;
use crate::json::member;
use crate::json::member_opt;
use crate::json::Json;
use crate::json::JsonVal;
use crate::text::cat2;
use crate::text::cat3;
use crate::text::cat4;
use crate::text::cat5;
use crate::text::chars_of;
use crate::text::decimal;
use crate::text::decimal_of;
use crate::text::opt_str;
use crate::text::pairs;
use crate::text::same;
use crate::text::signed;
use crate::text::signed_of;
use crate::text::trim;
use crate::text::trim_end_char;
use crate::text::trim_end_char_of;
use crate::text::trim_of;

verus! {

pub const SYNC_PROTOCOL_VERSION: &'static str = "1";

pub const CLI_CLIENT_ID: &'static str = "docli-cli";

/// How long a request may take, in seconds.
pub const REQUEST_SECS: u64 = 120;

/// Where requests go and what they are signed with.
#[derive(Debug)]
pub struct Api {
    /// Without a trailing slash.
    pub server: String,
    /// How long a request may take, in seconds.
    pub timeout_secs: u64,
    pub creds: CredsStore,
}

/// A reply of the sync surface that is not a success.
#[derive(Debug)]
pub enum ApiFailure {
    /// The workspace was resynced: pull from the start at the new epoch.
    EpochChanged { epoch: i64 },
    /// Any other refusal, in the server's words.
    Refused { status: u16, code: String, message: String },
}

pub open spec fn failure_message(e: ApiFailure) -> Seq<char> {
    match e {
        ApiFailure::EpochChanged { epoch } => "workspace resynced (epoch "@ + signed_of(
            epoch as int,
        ) + ")"@,
        ApiFailure::Refused { status, code, message } => code@ + " ("@ + decimal_of(status as nat)
            + "): "@ + message@,
    }
}

impl ApiFailure {
    pub fn message(&self) -> (r: String)
        ensures
            r@ == failure_message(*self),
    {
        match self {
            ApiFailure::EpochChanged { epoch } => {
                let n = signed(*epoch);
                cat3("workspace resynced (epoch ", n.as_str(), ")")
            },
            ApiFailure::Refused { status, code, message } => {
                let n = decimal(*status as u64);
                cat5(code.as_str(), " (", n.as_str(), "): ", message.as_str())
            },
        }
    }
}

/// The server answered, and does not accept the sign-in.
#[derive(Debug)]
pub struct CredentialRefused {
    pub server: String,
}

pub open spec fn refused_message(server: Seq<char>) -> Seq<char> {
    server + " did not accept this sign-in - it may have expired or been revoked"@
}

impl CredentialRefused {
    pub fn message(&self) -> (r: String)
        ensures
            r@ == refused_message(self.server@),
    {
        cat2(
            self.server.as_str(),
            " did not accept this sign-in - it may have expired or been revoked",
        )
    }
}

/// A workspace that the account can reach.
#[derive(Debug)]
pub struct WorkspaceInfo {
    pub id: u128,
    pub handle: String,
    pub name: String,
}

/// What a [`WorkspaceInfo`] says.
pub struct WorkspaceVal {
    pub id: u128,
    pub handle: Seq<char>,
    pub name: Seq<char>,
}

impl WorkspaceInfo {
    pub open spec fn view(&self) -> WorkspaceVal {
        WorkspaceVal { id: self.id, handle: self.handle@, name: self.name@ }
    }
}

pub open spec fn workspaces_of(v: Seq<WorkspaceInfo>) -> Seq<WorkspaceVal> {
    Seq::new(v.len(), |i: int| v[i].view())
}

/// Why a request came to nothing.
#[derive(Debug)]
pub enum HttpError {
    Creds(CredsError),
    Refused(CredentialRefused),
    /// The renewal was answered with an error.
    RefreshFailed { status: String, error: String },
    /// The tokens of a renewal could not be read.
    TokensUnreadable(String),
    /// The status of an answer was no success.
    Failed { what: String, status: String },
    /// The answer holds an error.
    Answered { what: String, message: String },
    NoUsableToken,
    NoIdentity,
}

pub open spec fn http_message(e: HttpError) -> Seq<char> {
    match e {
        HttpError::Creds(c) => creds_message(c),
        HttpError::Refused(r) => refused_message(r.server@),
        HttpError::RefreshFailed { status, error } => "token refresh failed ("@ + status@ + "): "@
            + error@,
        HttpError::TokensUnreadable(why) => "parsing the token response: "@ + why@,
        HttpError::Failed { what, status } => what@ + " failed ("@ + status@ + ")"@,
        HttpError::Answered { what, message } => what@ + " failed: "@ + message@,
        HttpError::NoUsableToken => "no usable token - run `docli login`"@,
        HttpError::NoIdentity => "the server returned no account identity"@,
    }
}

impl HttpError {
    pub fn message(&self) -> (r: String)
        ensures
            r@ == http_message(*self),
    {
        match self {
            HttpError::Creds(c) => c.message(),
            HttpError::Refused(r) => r.message(),
            HttpError::RefreshFailed { status, error } => cat4(
                "token refresh failed (",
                status.as_str(),
                "): ",
                error.as_str(),
            ),
            HttpError::TokensUnreadable(why) => cat2(
                "parsing the token response: ",
                why.as_str(),
            ),
            HttpError::Failed { what, status } => cat4(
                what.as_str(),
                " failed (",
                status.as_str(),
                ")",
            ),
            HttpError::Answered { what, message } => cat3(
                what.as_str(),
                " failed: ",
                message.as_str(),
            ),
            HttpError::NoUsableToken => "no usable token - run `docli login`".to_owned(),
            HttpError::NoIdentity => "the server returned no account identity".to_owned(),
        }
    }
}

/// A status between 200 and 299.
pub open spec fn succeeds(status: u16) -> bool {
    200 <= status < 300
}

pub fn is_success(status: u16) -> (r: bool)
    ensures
        r == succeeds(status),
{
    200 <= status && status < 300
}

/// The number that a row of decimal digits writes.
pub open spec fn digits_value(d: Seq<char>) -> nat
    decreases d.len(),
{
    if d.len() == 0 {
        0
    } else {
        10 * digits_value(d.drop_last()) + ((d.last() as int - 48) as nat)
    }
}

pub open spec fn is_digits(d: Seq<char>) -> bool {
    forall|i: int| 0 <= i < d.len() ==> '0' <= #[trigger] d[i] && d[i] <= '9'
}

/// The digits of a number, behind one plus sign where there is one.
pub open spec fn unsigned_digits(s: Seq<char>) -> Seq<char> {
    if s.len() > 0 && s[0] == '+' {
        s.drop_first()
    } else {
        s
    }
}

/// The unsigned 64-bit number that a text writes in decimal.
pub open spec fn u64_of(s: Seq<char>) -> Option<u64> {
    let d = unsigned_digits(s);
    if d.len() > 0 && is_digits(d) && digits_value(d) <= u64::MAX {
        Some(digits_value(d) as u64)
    } else {
        None
    }
}

proof fn lemma_digits_grow(d: Seq<char>, k: int)
    requires
        0 <= k <= d.len(),
    ensures
        digits_value(d.take(k)) <= digits_value(d),
    decreases d.len() - k,
{
    if k < d.len() {
        assert(d.take(k + 1).drop_last() =~= d.take(k));
        lemma_digits_grow(d, k + 1);
    } else {
        assert(d.take(k) =~= d);
    }
}

pub fn parse_u64(s: &str) -> (r: Option<u64>)
    ensures
        r == u64_of(s@),
{
    let v = chars_of(s);
    let n: usize = v.len();
    let ghost d = unsigned_digits(s@);
    let start: usize = if n > 0 && v[0] == '+' {
        1
    } else {
        0
    };
    assert(d =~= v@.subrange(start as int, n as int));
    if start == n {
        return None;
    }
    let mut value: u64 = 0;
    for i in start..n
        invariant
            v@ == s@,
            n == v@.len(),
            start <= n,
            d == v@.subrange(start as int, n as int),
            d == unsigned_digits(s@),
            forall|k: int| 0 <= k < i - start ==> '0' <= #[trigger] d[k] && d[k] <= '9',
            value == digits_value(d.take(i - start)),
    {
        let c: char = v[i];
        assert(d[i - start] == c);
        assert(d.take(i - start + 1).drop_last() =~= d.take(i - start));
        if c < '0' || c > '9' {
            assert(!is_digits(d));
            return None;
        }
        let digit: u64 = c as u64 - 48;
        assert(digits_value(d.take(i - start + 1)) == 10 * value + digit);
        if value > (u64::MAX - digit) / 10 {
            proof {
                lemma_digits_grow(d, i - start + 1);
            }
            return None;
        }
        value = 10 * value + digit;
    }
    assert(d.take(n - start) =~= d);
    Some(value)
}

/// The tokens of a sign-in, as the server hands them out.
#[derive(Debug)]
pub struct TokenReply {
    pub access_token: String,
    pub refresh_token: String,
    /// In seconds.
    pub expires_in: i64,
}

/// The reply to a renewal.
#[derive(Debug)]
pub struct RefreshReply {
    pub status: u16,
    /// The status as it is printed.
    pub status_text: String,
    pub retry_after: Option<String>,
    /// The tokens in the body, or why there are none.
    pub tokens: Result<TokenReply, String>,
    /// The error that the body names, or nothing.
    pub error: String,
}

/// How long to wait where the server does not say.
pub const DEFAULT_RETRY_AFTER_SECS: u64 = 30;

/// How long the server asks to wait.
pub open spec fn retry_after(header: Option<Seq<char>>) -> u64 {
    match header {
        Some(h) => match u64_of(h) {
            Some(n) => n,
            None => DEFAULT_RETRY_AFTER_SECS,
        },
        None => DEFAULT_RETRY_AFTER_SECS,
    }
}

/// What a reply to a renewal comes to.
pub open spec fn renewed(reply: RefreshReply, r: Result<RefreshOutcome, HttpError>) -> bool {
    if succeeds(reply.status) {
        match reply.tokens {
            Ok(t) => r matches Ok(RefreshOutcome::Rotated {
                access_token,
                refresh_token,
                expires_in,
            }) && access_token@ == t.access_token@ && refresh_token@ == t.refresh_token@
                && expires_in == t.expires_in,
            Err(why) => r matches Err(HttpError::TokensUnreadable(w)) && w@ == why@,
        }
    } else if reply.status == 503 {
        r matches Ok(RefreshOutcome::Suspended { retry_after_secs }) && retry_after_secs
            == retry_after(opt_str(reply.retry_after))
    } else if reply.error@ == "invalid_grant"@ {
        r matches Ok(RefreshOutcome::InvalidGrant)
    } else {
        r matches Err(HttpError::RefreshFailed { status, error }) && status@
            == reply.status_text@ && error@ == reply.error@
    }
}

/// What a reply to a renewal comes to: new tokens, a pause, a dead sign-in, or a failure that
/// says nothing of the sign-in.
pub fn refresh_outcome(reply: &RefreshReply) -> (r: Result<RefreshOutcome, HttpError>)
    ensures
        renewed(*reply, r),
{
    if is_success(reply.status) {
        return match &reply.tokens {
            Ok(t) => Ok(
                RefreshOutcome::Rotated {
                    access_token: t.access_token.clone(),
                    refresh_token: t.refresh_token.clone(),
                    expires_in: t.expires_in,
                },
            ),
            Err(why) => Err(HttpError::TokensUnreadable(why.clone())),
        };
    }
    if reply.status == 503 {
        let secs: u64 = match &reply.retry_after {
            Some(h) => match parse_u64(h.as_str()) {
                Some(n) => n,
                None => DEFAULT_RETRY_AFTER_SECS,
            },
            None => DEFAULT_RETRY_AFTER_SECS,
        };
        return Ok(RefreshOutcome::Suspended { retry_after_secs: secs });
    }
    if same(reply.error.as_str(), "invalid_grant") {
        return Ok(RefreshOutcome::InvalidGrant);
    }
    Err(
        HttpError::RefreshFailed {
            status: reply.status_text.clone(),
            error: reply.error.clone(),
        },
    )
}

/// The form that a renewal sends.
pub fn refresh_form(refresh_token: &str) -> (r: Vec<(String, String)>)
    ensures
        pairs(r@) == seq![
            ("grant_type"@, "refresh_token"@),
            ("refresh_token"@, refresh_token@),
            ("client_id"@, CLI_CLIENT_ID@),
        ],
{
    let mut form: Vec<(String, String)> = Vec::new();
    form.push(("grant_type".to_owned(), "refresh_token".to_owned()));
    form.push(("refresh_token".to_owned(), refresh_token.to_owned()));
    form.push(("client_id".to_owned(), CLI_CLIENT_ID.to_owned()));
    assert(pairs(form@) =~= seq![
        ("grant_type"@, "refresh_token"@),
        ("refresh_token"@, refresh_token@),
        ("client_id"@, CLI_CLIENT_ID@),
    ]);
    form
}

/// The headers of every request that carries a bearer.
pub fn sync_headers(token: &str, version: &str, platform: &str) -> (r: Vec<(String, String)>)
    ensures
        pairs(r@) == seq![
            ("authorization"@, "Bearer "@ + token@),
            ("x-docli-sync-version"@, SYNC_PROTOCOL_VERSION@),
            ("x-docli-cli-version"@, version@),
            ("x-docli-client-platform"@, platform@),
        ],
{
    let mut h: Vec<(String, String)> = Vec::new();
    h.push(("authorization".to_owned(), cat2("Bearer ", token)));
    h.push(("x-docli-sync-version".to_owned(), SYNC_PROTOCOL_VERSION.to_owned()));
    h.push(("x-docli-cli-version".to_owned(), version.to_owned()));
    h.push(("x-docli-client-platform".to_owned(), platform.to_owned()));
    assert(pairs(h@) =~= seq![
        ("authorization"@, "Bearer "@ + token@),
        ("x-docli-sync-version"@, SYNC_PROTOCOL_VERSION@),
        ("x-docli-cli-version"@, version@),
        ("x-docli-client-platform"@, platform@),
    ]);
    h
}

/// What the body of a refusal says; empty where it says nothing.
#[derive(Debug)]
pub struct ErrBody {
    pub code: String,
    pub message: String,
    pub epoch: Option<i64>,
}

/// What follows from a reply of the sync surface.
#[derive(Debug)]
pub enum SyncStep {
    /// The body is the answer.
    Read,
    /// Renew the bearer and send the request again.
    Renew,
    Fail(ApiFailure),
}

/// What a refusal of the sync surface comes to.
pub open spec fn refused_as(status: u16, e: ErrBody, f: ApiFailure) -> bool {
    if e.code@ == "EPOCH_CHANGED"@ {
        f matches ApiFailure::EpochChanged { epoch } && epoch == (match e.epoch {
            Some(n) => n,
            None => 0,
        })
    } else {
        f matches ApiFailure::Refused { status: s, code, message } && s == status && code@
            == e.code@ && message@ == e.message@
    }
}

/// A request to the sync surface, which is sent twice at most.
#[derive(Debug)]
pub struct SyncCall {
    pub renewed: bool,
}

impl SyncCall {
    pub fn new() -> (r: SyncCall)
        ensures
            !r.renewed,
    {
        SyncCall { renewed: false }
    }

    /// Takes in the reply.
    pub fn answered(&mut self, status: u16, e: &ErrBody) -> (r: SyncStep)
        ensures
            if succeeds(status) {
                r is Read && final(self).renewed == old(self).renewed
            } else if status == 401 && !old(self).renewed {
                r is Renew && final(self).renewed
            } else {
                r matches SyncStep::Fail(f) && refused_as(status, *e, f) && final(self).renewed
                    == old(self).renewed
            },
            old(self).renewed ==> final(self).renewed && r !is Renew,
    {
        if is_success(status) {
            return SyncStep::Read;
        }
        if status == 401 && !self.renewed {
            self.renewed = true;
            return SyncStep::Renew;
        }
        if same(e.code.as_str(), "EPOCH_CHANGED") {
            return SyncStep::Fail(
                ApiFailure::EpochChanged {
                    epoch: match e.epoch {
                        Some(n) => n,
                        None => 0,
                    },
                },
            );
        }
        SyncStep::Fail(
            ApiFailure::Refused { status, code: e.code.clone(), message: e.message.clone() },
        )
    }
}

/// What follows from a reply to a query.
#[derive(Debug)]
pub enum QueryStep {
    /// The body is the answer.
    Read,
    /// Renew the bearer and send the query again.
    Renew,
    Fail(HttpError),
}

/// A query, which is sent twice at most, and once where nothing may be renewed.
#[derive(Debug)]
pub struct QueryCall {
    pub allow_refresh: bool,
    pub renewed: bool,
}

impl QueryCall {
    pub fn new(allow_refresh: bool) -> (r: QueryCall)
        ensures
            r.allow_refresh == allow_refresh,
            !r.renewed,
    {
        QueryCall { allow_refresh, renewed: false }
    }

    /// Takes in the status of the reply. `what` names the query.
    pub fn answered(&mut self, status: u16, status_text: &str, what: &str) -> (r: QueryStep)
        ensures
            final(self).allow_refresh == old(self).allow_refresh,
            if status == 401 && !old(self).renewed && old(self).allow_refresh {
                r is Renew && final(self).renewed
            } else if succeeds(status) {
                r is Read && final(self).renewed == old(self).renewed
            } else {
                (r matches QueryStep::Fail(HttpError::Failed { what: w, status: s }) && w@ == what@
                    && s@ == status_text@) && final(self).renewed == old(self).renewed
            },
            old(self).renewed ==> final(self).renewed && r !is Renew,
    {
        if status == 401 && !self.renewed && self.allow_refresh {
            self.renewed = true;
            return QueryStep::Renew;
        }
        if !is_success(status) {
            return QueryStep::Fail(
                HttpError::Failed { what: what.to_owned(), status: status_text.to_owned() },
            );
        }
        QueryStep::Read
    }
}

/// The first error that an answer holds.
pub open spec fn first_error(v: JsonVal) -> Option<Seq<char>> {
    match as_array(member(v, "errors"@)) {
        Some(errs) => if errs.len() > 0 {
            match as_text(member(errs[0], "message"@)) {
                Some(m) => Some(m),
                None => Some("GraphQL error"@),
            }
        } else {
            None
        },
        None => None,
    }
}

/// Refuses an answer that holds an error, though its status was a success.
pub fn refuse_errors(v: &Json, what: &str) -> (r: Result<(), HttpError>)
    ensures
        match first_error(v.view()) {
            Some(m) => r matches Err(HttpError::Answered { what: w, message }) && w@ == what@
                && message@ == m,
            None => r is Ok,
        },
{
    broadcast use lemma_elements_view;

    if let Some(Json::Array(errs)) = v.get("errors") {
        if errs.len() > 0 {
            assert(elements_of(errs@)[0] == errs@[0].view());
            let told = match errs[0].get("message") {
                Some(m) => m.as_str(),
                None => None,
            };
            let message = match told {
                Some(m) => m.to_owned(),
                None => "GraphQL error".to_owned(),
            };
            return Err(HttpError::Answered { what: what.to_owned(), message });
        }
    }
    Ok(())
}

/// The account that an answer is about; nothing where it knows nobody.
pub open spec fn viewer_in(v: JsonVal) -> Option<JsonVal> {
    match member_opt(member(v, "data"@), "viewer"@) {
        Some(JsonVal::Null) => None,
        other => other,
    }
}

/// What an account goes by: its display name where it has one, else its address.
pub open spec fn label_of(name: Seq<char>, email: Seq<char>) -> Option<Seq<char>> {
    let n = trim_of(name);
    let e = trim_of(email);
    if n.len() > 0 {
        Some(n)
    } else if e.len() > 0 {
        Some(e)
    } else {
        None
    }
}

/// A text member without the blanks around it, empty where there is none.
pub open spec fn trimmed_member(v: JsonVal, key: Seq<char>) -> Seq<char> {
    match as_text(member(v, key)) {
        Some(t) => trim_of(t),
        None => Seq::empty(),
    }
}

fn member_text(v: &Json, key: &str) -> (r: String)
    ensures
        r@ == trimmed_member(v.view(), key@),
{
    let told = match v.get(key) {
        Some(m) => m.as_str(),
        None => None,
    };
    match told {
        Some(t) => trim(t),
        None => {
            let r = String::new();
            assert(r@ =~= Seq::empty());
            r
        },
    }
}

/// The display name and the address of an account.
pub fn identity_of(viewer: &Json) -> (r: (String, String))
    ensures
        r.0@ == trimmed_member(viewer.view(), "displayName"@),
        r.1@ == trimmed_member(viewer.view(), "email"@),
{
    (member_text(viewer, "displayName"), member_text(viewer, "email"))
}

/// What the account goes by, from its name and address, both fit to be shown: the name where it
/// has one, else the address.
pub fn viewer_label(name: &str, email: &str) -> (r: Result<String, HttpError>)
    ensures
        match label_of(name@, email@) {
            Some(l) => r matches Ok(s) && s@ == l,
            None => r matches Err(e) && e is NoIdentity,
        },
{
    let n = trim(name);
    let e = trim(email);
    if !n.as_str().is_empty() {
        Ok(n)
    } else if !e.as_str().is_empty() {
        Ok(e)
    } else {
        Err(HttpError::NoIdentity)
    }
}

/// The workspace that an element of the list describes, where it describes one.
pub open spec fn workspace_in(v: JsonVal) -> Option<WorkspaceVal> {
    let id = match as_text(member(v, "id"@)) {
        Some(t) => parsed_id(t),
        None => None,
    };
    let handle = as_text(member(v, "handle"@));
    let name = as_text(member(v, "name"@));
    if id is Some && handle is Some && name is Some {
        Some(WorkspaceVal { id: id->0, handle: handle->0, name: name->0 })
    } else {
        None
    }
}

/// The workspaces among the first `n` elements.
pub open spec fn workspaces_in(list: Seq<JsonVal>, n: nat) -> Seq<WorkspaceVal>
    decreases n,
{
    if n == 0 {
        Seq::empty()
    } else {
        let before = workspaces_in(list, (n - 1) as nat);
        match workspace_in(list[n - 1]) {
            Some(w) => before.push(w),
            None => before,
        }
    }
}

/// The workspaces of an account.
pub open spec fn all_workspaces(viewer: JsonVal) -> Seq<WorkspaceVal> {
    match as_array(member(viewer, "workspaces"@)) {
        Some(list) => workspaces_in(list, list.len()),
        None => Seq::empty(),
    }
}

/// A workspace of the list, from what its id was read as.
pub fn workspace_with(id: Option<u128>, v: &Json) -> (r: Option<WorkspaceInfo>)
    ensures
        match r {
            Some(w) => id == Some(w.id) && as_text(member(v.view(), "handle"@)) == Some(w.handle@)
                && as_text(member(v.view(), "name"@)) == Some(w.name@),
            None => id is None || as_text(member(v.view(), "handle"@)) is None || as_text(
                member(v.view(), "name"@),
            ) is None,
        },
{
    let id: u128 = match id {
        Some(i) => i,
        None => return None,
    };
    let handle = match v.get("handle") {
        Some(h) => h.as_str(),
        None => None,
    };
    let name = match v.get("name") {
        Some(n) => n.as_str(),
        None => None,
    };
    match (handle, name) {
        (Some(h), Some(n)) => Some(WorkspaceInfo { id, handle: h.to_owned(), name: n.to_owned() }),
        _ => None,
    }
}

/// The workspaces of an account. An element that does not describe one is passed over.
pub fn workspaces(viewer: &Json) -> (r: Vec<WorkspaceInfo>)
    ensures
        workspaces_of(r@) == all_workspaces(viewer.view()),
{
    broadcast use lemma_elements_view;

    let mut out: Vec<WorkspaceInfo> = Vec::new();
    assert(workspaces_of(out@) =~= Seq::empty());
    if let Some(Json::Array(list)) = viewer.get("workspaces") {
        let ghost all = elements_of(list@);
        for i in 0..list.len()
            invariant
                all == elements_of(list@),
                workspaces_of(out@) == workspaces_in(all, i as nat),
        {
            let ghost before = workspaces_of(out@);
            assert(all[i as int] == list@[i as int].view());
            let told = match list[i].get("id") {
                Some(t) => t.as_str(),
                None => None,
            };
            let id: Option<u128> = match told {
                Some(t) => parse_id(t),
                None => None,
            };
            if let Some(w) = workspace_with(id, &list[i]) {
                out.push(w);
                assert(workspaces_of(out@) =~= before.push(w.view()));
            }
        }
    }
    out
}

impl Api {
    pub fn new(server: &str, creds: CredsStore) -> (r: Api)
        ensures
            r.server@ == trim_end_char_of(server@, '/'),
            r.timeout_secs == REQUEST_SECS,
            r.creds == creds,
    {
        Api::with_timeout(server, creds, REQUEST_SECS)
    }

    /// For a question whose answer is a nicety: it must not hold a command up.
    pub fn with_timeout(server: &str, creds: CredsStore, timeout_secs: u64) -> (r: Api)
        ensures
            r.server@ == trim_end_char_of(server@, '/'),
            r.timeout_secs == timeout_secs,
            r.creds == creds,
    {
        Api { server: trim_end_char(server, '/'), timeout_secs, creds }
    }

    pub fn creds(&self) -> (r: &CredsStore)
        ensures
            *r == self.creds,
    {
        &self.creds
    }

    /// The address of an endpoint.
    pub fn url(&self, path: &str) -> (r: String)
        ensures
            r@ == self.server@ + path@,
    {
        cat2(self.server.as_str(), path)
    }

    /// The bearer that a query begins with. One that must not renew takes the stored token as it
    /// is, and fails where there is none.
    pub fn first_bearer(&self, allow_refresh: bool, now: i64) -> (r: Result<Bearer, HttpError>)
        requires
            self.creds.wf(),
        ensures
            match self.creds.env_v() {
                Some(b) => if misbound(self.creds.env_v(), self.server@) {
                    r matches Err(HttpError::Creds(CredsError::WrongOrigin { bound, asked }))
                        && bound@ == b.1 && asked@ == self.server@
                } else {
                    r matches Ok(Bearer::Ready(t)) && t@ == b.0
                },
                None => match held(self.creds.entries(), self.server@) {
                    None => if allow_refresh {
                        r matches Err(HttpError::Creds(CredsError::NotSignedIn { server }))
                            && server@ == self.server@
                    } else {
                        r matches Err(e) && e is NoUsableToken
                    },
                    Some(c) => if allow_refresh && due(c, now, REFRESH_SKEW_SECS) {
                        r matches Ok(Bearer::Refresh)
                    } else {
                        r matches Ok(Bearer::Ready(t)) && t@ == c.access_token
                    },
                },
            },
    {
        if allow_refresh {
            return match self.creds.bearer(self.server.as_str(), now) {
                Ok(b) => Ok(b),
                Err(e) => Err(HttpError::Creds(e)),
            };
        }
        match self.creds.stored_token(self.server.as_str()) {
            Err(e) => Err(HttpError::Creds(e)),
            Ok(Some(t)) => Ok(Bearer::Ready(t)),
            Ok(None) => Err(HttpError::NoUsableToken),
        }
    }

    /// The account that an answer is about. The server answers a request that it does not accept
    /// with a success and nobody in it.
    pub fn viewer_of<'a>(&self, v: &'a Json) -> (r: Result<&'a Json, HttpError>)
        ensures
            match viewer_in(v.view()) {
                Some(j) => r matches Ok(w) && w.view() == j,
                None => r matches Err(HttpError::Refused(c)) && c.server@ == self.server@,
            },
    {
        let viewer = match v.get("data") {
            Some(d) => d.get("viewer"),
            None => None,
        };
        match viewer {
            Some(Json::Null) | None => Err(
                HttpError::Refused(CredentialRefused { server: self.server.clone() }),
            ),
            Some(w) => Ok(w),
        }
    }
}

/// The three paths of the sync surface.
pub const PULL_PATH: &'static str = "/api/sync/pull";

pub const BOOTSTRAP_PATH: &'static str = "/api/sync/bootstrap";

pub const SEARCH_PATH: &'static str = "/api/sync/search";

pub const QUERY_PATH: &'static str = "/api/graphql";

pub const TOKEN_PATH: &'static str = "/api/oauth/token";

/// What is asked to learn who is signed in.
pub const VIEWER_QUERY: &'static str = "{ viewer { email displayName } }";

/// What is asked to learn which workspaces there are.
pub const WORKSPACES_QUERY: &'static str = "{ viewer { workspaces { id handle name } } }";

/// An answer that knows nobody is never taken for an account without workspaces.
pub proof fn a_refused_answer_lists_nothing(v: JsonVal)
    requires
        member_opt(member(v, "data"@), "viewer"@) is None || member_opt(
            member(v, "data"@),
            "viewer"@,
        ) == Some(JsonVal::Null),
    ensures
        viewer_in(v) is None,
{
}

/// A status is a success just where its first digit of three is a two.
pub proof fn a_success_begins_with_a_two(status: u16)
    ensures
        succeeds(status) <==> status / 100 == 2,
{
}

proof fn lemma_digits_are_decimal(d: Seq<char>)
    requires
        is_digits(d),
    ensures
        digits_value(d) == crate::text::decimal_value(d),
    decreases d.len(),
{
    if d.len() > 0 {
        assert forall|i: int| 0 <= i < d.drop_last().len() implies '0'
            <= #[trigger] d.drop_last()[i] && d.drop_last()[i] <= '9' by {
            assert(d[i] == d.drop_last()[i]);
        }
        lemma_digits_are_decimal(d.drop_last());
        assert('0' <= d[d.len() - 1]);
    }
}

/// A number is read back from its digits, with or without a plus sign, and a text that holds
/// anything but digits behind such a sign is no number.
pub proof fn a_number_is_read_from_its_digits(n: u64, s: Seq<char>, i: int)
    ensures
        u64_of(crate::text::decimal_of(n as nat)) == Some(n),
        u64_of(seq!['+'] + crate::text::decimal_of(n as nat)) == Some(n),
        0 < i < s.len() && !('0' <= s[i] && s[i] <= '9') ==> u64_of(s) is None,
        s.len() > 0 && s[0] != '+' && !('0' <= s[0] && s[0] <= '9') ==> u64_of(s) is None,
        s.len() == 0 ==> u64_of(s) is None,
{
    let d = crate::text::decimal_of(n as nat);
    crate::text::the_digits_of_a_number_stand_for_it(n as nat);
    lemma_digits_are_decimal(d);
    assert('0' <= d[0]);
    assert((seq!['+'] + d).drop_first() =~= d);
    let u = unsigned_digits(s);
    if 0 < i < s.len() && !('0' <= s[i] && s[i] <= '9') {
        if s[0] == '+' {
            assert(u[i - 1] == s[i]);
        } else {
            assert(u[i] == s[i]);
        }
        assert(!is_digits(u));
    }
    if s.len() > 0 && s[0] != '+' && !('0' <= s[0] && s[0] <= '9') {
        assert(u[0] == s[0]);
        assert(!is_digits(u));
    }
}

/// A renewal that succeeded hands on the tokens of the reply. One that the server puts off is put off
/// for as long as it asks, or half a minute. Only the word for a dead sign-in ends it, and any other
/// failure is told with its status and its error.
pub proof fn a_renewal_is_read_from_its_reply(
    reply: RefreshReply,
    n: u64,
    r: Result<RefreshOutcome, HttpError>,
)
    requires
        renewed(reply, r),
    ensures
        reply.status / 100 == 2 ==> {
            &&& reply.tokens matches Ok(t) ==> (r matches Ok(RefreshOutcome::Rotated {
                access_token,
                refresh_token,
                expires_in,
            }) && access_token@ == t.access_token@ && refresh_token@ == t.refresh_token@
                && expires_in == t.expires_in)
            &&& reply.tokens is Err ==> r is Err
        },
        reply.status == 503 ==> {
            &&& r matches Ok(RefreshOutcome::Suspended { retry_after_secs })
            &&& reply.retry_after is None ==> retry_after_secs == 30
            &&& reply.retry_after matches Some(h) ==> (h@ == crate::text::decimal_of(n as nat)
                ==> retry_after_secs == n)
        },
        (r matches Ok(o) && o is InvalidGrant) <==> reply.status / 100 != 2 && reply.status != 503
            && reply.error@ == "invalid_grant"@,
        reply.status / 100 != 2 && reply.status != 503 && reply.error@ != "invalid_grant"@ ==> (
        r matches Err(HttpError::RefreshFailed { status, error }) && status@ == reply.status_text@
            && error@ == reply.error@),
{
    a_success_begins_with_a_two(reply.status);
    a_number_is_read_from_its_digits(n, Seq::empty(), 0);
}

/// A refusal is told with its status, its code and its message, except that a new epoch is told by
/// its number.
pub proof fn a_refusal_is_told_as_it_came(status: u16, e: ErrBody, f: ApiFailure)
    requires
        refused_as(status, e, f),
    ensures
        e.code@ != "EPOCH_CHANGED"@ ==> (f matches ApiFailure::Refused { status: s, code, message }
            && s == status && code@ == e.code@ && message@ == e.message@),
        e.code@ == "EPOCH_CHANGED"@ ==> (f matches ApiFailure::EpochChanged { epoch } && (
        e.epoch is Some ==> epoch == e.epoch->0) && (e.epoch is None ==> epoch == 0)),
{
}

/// An answer with errors is refused by the message of the first of them, and one without passes.
pub proof fn the_first_error_is_told(
    v: JsonVal,
    errs: Seq<JsonVal>,
    message: Seq<char>,
)
    ensures
        member(v, "errors"@) == Some(JsonVal::Array(errs)) && errs.len() > 0 ==> {
            &&& member(errs[0], "message"@) == Some(JsonVal::Text(message)) ==> first_error(v)
                == Some(message)
            &&& member(errs[0], "message"@) is None ==> first_error(v) == Some("GraphQL error"@)
        },
        member(v, "errors"@) == Some(JsonVal::Array(Seq::empty())) ==> first_error(v) is None,
        member(v, "errors"@) is None || member(v, "errors"@) == Some(JsonVal::Null) ==> first_error(
            v,
        ) is None,
{
}

/// The account of an answer is the viewer in its data, where that is somebody.
pub proof fn the_account_is_the_viewer_of_the_data(v: JsonVal, data: JsonVal, viewer: JsonVal)
    requires
        member(v, "data"@) == Some(data),
        member(data, "viewer"@) == Some(viewer),
    ensures
        viewer != JsonVal::Null ==> viewer_in(v) == Some(viewer),
        viewer == JsonVal::Null ==> viewer_in(v) is None,
{
}

/// An account goes by its name, or by its address where the name is blank, and by nothing where both
/// are; the whitespace around either does not count.
pub proof fn an_account_goes_by_its_name(name: Seq<char>, email: Seq<char>)
    ensures
        trim_of(name).len() > 0 ==> label_of(name, email) == Some(trim_of(name)),
        trim_of(name).len() == 0 && trim_of(email).len() > 0 ==> label_of(name, email) == Some(
            trim_of(email),
        ),
        trim_of(name).len() == 0 && trim_of(email).len() == 0 ==> label_of(name, email) is None,
{
}

/// A text of an account is that text less the whitespace around it, and empty where there is none.
pub proof fn a_text_of_an_account_is_trimmed(v: JsonVal, key: Seq<char>, t: Seq<char>)
    ensures
        member(v, key) == Some(JsonVal::Text(t)) ==> trimmed_member(v, key) == trim_of(t),
        member(v, key) is None || !(member(v, key)->0 is Text) ==> trimmed_member(v, key).len()
            == 0,
{
}

proof fn lemma_workspaces_of_a_prefix(list: Seq<JsonVal>, x: JsonVal, n: nat)
    requires
        n <= list.len(),
    ensures
        workspaces_in(list.push(x), n) == workspaces_in(list, n),
    decreases n,
{
    if n > 0 {
        lemma_workspaces_of_a_prefix(list, x, (n - 1) as nat);
        assert(list.push(x)[n - 1] == list[n - 1]);
    }
}

/// One more element of the list adds the workspace that it describes behind the others, with its own
/// id, handle and name, and adds nothing where one of the three is missing; an empty list holds none.
pub proof fn a_list_holds_the_workspaces_that_it_describes(
    shorter: JsonVal,
    longer: JsonVal,
    list: Seq<JsonVal>,
    x: JsonVal,
    t: Seq<char>,
    handle: Seq<char>,
    name: Seq<char>,
)
    requires
        member(shorter, "workspaces"@) == Some(JsonVal::Array(list)),
        member(longer, "workspaces"@) == Some(JsonVal::Array(list.push(x))),
    ensures
        member(x, "id"@) == Some(JsonVal::Text(t)) && parsed_id(t) is Some && member(x, "handle"@)
            == Some(JsonVal::Text(handle)) && member(x, "name"@) == Some(JsonVal::Text(name))
            ==> all_workspaces(longer) == all_workspaces(shorter).push(
            WorkspaceVal { id: parsed_id(t)->0, handle, name },
        ),
        member(x, "id"@) is None || member(x, "handle"@) is None || member(x, "name"@) is None
            ==> all_workspaces(longer) == all_workspaces(shorter),
        member(x, "id"@) == Some(JsonVal::Text(t)) && parsed_id(t) is None ==> all_workspaces(longer)
            == all_workspaces(shorter),
        list.len() == 0 ==> all_workspaces(shorter).len() == 0,
{
    lemma_workspaces_of_a_prefix(list, x, list.len());
    assert(list.push(x)[list.len() as int] == x);
}

} // verus!
