//! Credentials: which bearer goes to which server, when it is renewed, and what becomes of the
//! stored sign-in for each answer of a server.
//!
//! A renewal spends the refresh token, and spending it twice loses the whole lineage. So a
//! renewal is one run: look at the store again, exchange only if that is still needed, take in
//! what came back. A store opened with a token from the environment serves that one token to the
//! one origin it is bound to, and neither shows nor changes what is stored.

use vstd::prelude::*;

use crate::ids::id_text;
use crate::ids::is_random;
use crate::ids::print_id;
use crate::text::byte_len;
use crate::text::cat2;
use crate::text::cat3;
use crate::text::cat4;
use crate::text::cat5;
use crate::text::chars_of;
use crate::text::clone_opt;
use crate::text::debug_char;
use crate::text::decimal;
use crate::text::decimal_of;
use crate::text::opt_ref;
use crate::text::opt_str;
use crate::text::same;
use crate::text::strs;
use crate::text::text_less;
use crate::text::text_lt;
use crate::text::trim;
use crate::text::trim_end_char;
use crate::text::trim_end_char_of;
use crate::text::trim_of;
use crate::text::utf8_len;

verus! {

/// How early before its expiry a token is renewed, in seconds.
pub const REFRESH_SKEW_SECS: i64 = 60;

/// How often a suspended connection is tried again.
pub const SUSPEND_RETRIES: u32 = 3;

/// How long one wait may last, in seconds.
pub const MAX_RETRY_AFTER_SECS: u64 = 120;

/// The variable that holds a token.
pub const TOKEN_VAR: &'static str = "DOCLI_TOKEN";

/// The variable that names the origin the token belongs to.
pub const TOKEN_SERVER_VAR: &'static str = "DOCLI_TOKEN_SERVER";

/// How many bytes a token may have.
pub const MAX_TOKEN_LEN: usize = 4096;

/// The sign-in to one server.
#[derive(Debug)]
pub struct ServerCreds {
    pub access_token: String,
    /// `None` for a key that the user minted, which nothing renews.
    pub refresh_token: Option<String>,
    /// Unix seconds; `None` for a minted key.
    pub expires_at: Option<i64>,
    pub install_id: String,
}

/// What [`ServerCreds`] say.
pub struct CredsVal {
    pub access_token: Seq<char>,
    pub refresh_token: Option<Seq<char>>,
    pub expires_at: Option<i64>,
    pub install_id: Seq<char>,
}

/// A sign-in is due for renewal. One without an expiry never is.
pub open spec fn due(c: CredsVal, now: i64, skew: i64) -> bool {
    match c.expires_at {
        Some(at) => at <= now + skew,
        None => false,
    }
}

/// The token by which a sign-in is told from another: the refresh token, or the access token of a
/// minted key.
pub open spec fn identity(c: CredsVal) -> Seq<char> {
    match c.refresh_token {
        Some(r) => r,
        None => c.access_token,
    }
}

impl ServerCreds {
    pub open spec fn view(&self) -> CredsVal {
        CredsVal {
            access_token: self.access_token@,
            refresh_token: opt_str(self.refresh_token),
            expires_at: self.expires_at,
            install_id: self.install_id@,
        }
    }

    pub fn copy(&self) -> (r: ServerCreds)
        ensures
            r.view() == self.view(),
    {
        ServerCreds {
            access_token: self.access_token.clone(),
            refresh_token: clone_opt(&self.refresh_token),
            expires_at: self.expires_at,
            install_id: self.install_id.clone(),
        }
    }

    /// Is this sign-in due for renewal at the time `now`?
    pub fn needs_refresh(&self, now: i64, skew: i64) -> (r: bool)
        ensures
            r == due(self.view(), now, skew),
    {
        match self.expires_at {
            Some(at) => at as i128 <= now as i128 + skew as i128,
            None => false,
        }
    }

    fn is_current(&self, token: &str) -> (r: bool)
        ensures
            r == (identity(self.view()) == token@),
    {
        match &self.refresh_token {
            Some(t) => same(t.as_str(), token),
            None => same(self.access_token.as_str(), token),
        }
    }
}

/// Why something about credentials was refused.
#[derive(Debug)]
pub enum CredsError {
    /// The home directory is not known.
    NoHome,
    /// A variable is not Unicode.
    TokenNotUnicode,
    TokenServerNotUnicode,
    /// The token has this many bytes.
    TokenTooLong(usize),
    /// A character that no token holds, as it is printed.
    BadCharacter(String),
    TokenServerEmpty,
    /// The environment's token is bound to another origin.
    WrongOrigin { bound: String, asked: String },
    /// The environment's token is in force, so nothing is stored.
    EnvInForce { bound: String },
    NotSignedIn { server: String },
    /// The server refused the environment's token.
    EnvRefused { server: String },
    /// The server refused a minted key.
    KeyRefused { server: String },
    NoLongerValid { server: String },
    Suspended { server: String },
    /// The directory cannot be written, so nothing stored can change.
    NotWritable { dir: String },
    /// The credentials are not a regular file.
    NotRegular { path: String },
    /// The file is open to others and cannot be closed to them.
    BroadMode { path: String, mode: u32, dir: String },
    /// Something else failed, in these words.
    Other(String),
}

/// The octal digits of `n`, most significant first, without leading zeros.
pub open spec fn octal_of(n: nat) -> Seq<char>
    decreases n,
{
    if n < 8 {
        seq![crate::text::digit_char(n)]
    } else {
        octal_of(n / 8).push(crate::text::digit_char(n % 8))
    }
}

pub fn octal(n: u32) -> (r: String)
    ensures
        r@ == octal_of(n as nat),
    decreases n,
{
    if n < 8 {
        let mut s = String::new();
        let d: u8 = n as u8;
        s.push((48 + d) as char);
        assert(s@ =~= octal_of(n as nat));
        s
    } else {
        let mut s = octal(n / 8);
        let d: u8 = (n % 8) as u8;
        s.push((48 + d) as char);
        s
    }
}

/// What is said of a refusal.
pub open spec fn creds_message(e: CredsError) -> Seq<char> {
    match e {
        CredsError::NoHome => "cannot determine the home directory (set DOCLI_HOME)"@,
        CredsError::TokenNotUnicode =>
            "DOCLI_TOKEN is not valid UTF-8 - it cannot be an access token"@,
        CredsError::TokenServerNotUnicode => "DOCLI_TOKEN_SERVER is not valid UTF-8"@,
        CredsError::TokenTooLong(n) => "DOCLI_TOKEN is "@ + decimal_of(n as nat)
            + " bytes long - that is not a token"@,
        CredsError::BadCharacter(c) =>
            "DOCLI_TOKEN contains a character that cannot appear in an access token ("@ + c@
            + ") - check for stray whitespace or quotes"@,
        CredsError::TokenServerEmpty =>
            "DOCLI_TOKEN_SERVER is empty - name the origin DOCLI_TOKEN belongs to, or unset it"@,
        CredsError::WrongOrigin { bound, asked } => "DOCLI_TOKEN is set for "@ + bound@
            + ", but this command is talking to "@ + asked@
            + " - unset DOCLI_TOKEN, or set DOCLI_TOKEN_SERVER to the origin the token belongs to"@,
        CredsError::EnvInForce { bound } => "DOCLI_TOKEN is set (for "@ + bound@
            + "), so this machine's stored sign-in is not the one in use - unset DOCLI_TOKEN first to store credentials here"@,
        CredsError::NotSignedIn { server } => "not signed in to "@ + server@
            + " - run `docli login`"@,
        CredsError::EnvRefused { server } => server@
            + " refused the token in DOCLI_TOKEN - it may have expired, been revoked, or be missing the `sync` scope. Mint a new one on "@
            + server@ + " and set DOCLI_TOKEN again."@,
        CredsError::KeyRefused { server } => server@
            + " refused the access token stored for this device - it may have expired, been revoked, or be missing the `sync` scope. Mint a new key on "@
            + server@ + " and run `docli login --token`, or `docli login` for a browser sign-in."@,
        CredsError::NoLongerValid { server } => "your sign-in to "@ + server@
            + " is no longer valid - run `docli login`"@,
        CredsError::Suspended { server } => server@
            + " says the connection is suspended - try again later (your credentials were kept)"@,
        CredsError::NotWritable { dir } => dir@
            + " is not writable, so the sign-in cannot be updated here - run the command where the home directory is writable (outside an agent sandbox). Nothing was lost: the stored sign-in is untouched."@,
        CredsError::NotRegular { path } => path@
            + " is not a regular file - refusing to use it for credentials"@,
        CredsError::BroadMode { path, mode, dir } => path@ + " is mode "@ + octal_of(mode as nat)
            + " and "@ + dir@
            + " is not writable, so it cannot be re-secured - tighten it with `chmod 600`, or run this where the home directory is writable"@,
        CredsError::Other(m) => m@,
    }
}

impl CredsError {
    pub fn message(&self) -> (r: String)
        ensures
            r@ == creds_message(*self),
    {
        match self {
            CredsError::NoHome => "cannot determine the home directory (set DOCLI_HOME)".to_owned(),
            CredsError::TokenNotUnicode =>
                "DOCLI_TOKEN is not valid UTF-8 - it cannot be an access token".to_owned(),
            CredsError::TokenServerNotUnicode => "DOCLI_TOKEN_SERVER is not valid UTF-8".to_owned(),
            CredsError::TokenTooLong(n) => {
                let d = decimal(*n as u64);
                cat3("DOCLI_TOKEN is ", d.as_str(), " bytes long - that is not a token")
            },
            CredsError::BadCharacter(c) => cat3(
                "DOCLI_TOKEN contains a character that cannot appear in an access token (",
                c.as_str(),
                ") - check for stray whitespace or quotes",
            ),
            CredsError::TokenServerEmpty =>
                "DOCLI_TOKEN_SERVER is empty - name the origin DOCLI_TOKEN belongs to, or unset it".to_owned(),
            CredsError::WrongOrigin { bound, asked } => cat5(
                "DOCLI_TOKEN is set for ",
                bound.as_str(),
                ", but this command is talking to ",
                asked.as_str(),
                " - unset DOCLI_TOKEN, or set DOCLI_TOKEN_SERVER to the origin the token belongs to",
            ),
            CredsError::EnvInForce { bound } => cat3(
                "DOCLI_TOKEN is set (for ",
                bound.as_str(),
                "), so this machine's stored sign-in is not the one in use - unset DOCLI_TOKEN first to store credentials here",
            ),
            CredsError::NotSignedIn { server } => cat3(
                "not signed in to ",
                server.as_str(),
                " - run `docli login`",
            ),
            CredsError::EnvRefused { server } => {
                let head = cat3(
                    server.as_str(),
                    " refused the token in DOCLI_TOKEN - it may have expired, been revoked, or be missing the `sync` scope. Mint a new one on ",
                    server.as_str(),
                );
                cat2(head.as_str(), " and set DOCLI_TOKEN again.")
            },
            CredsError::KeyRefused { server } => {
                let head = cat3(
                    server.as_str(),
                    " refused the access token stored for this device - it may have expired, been revoked, or be missing the `sync` scope. Mint a new key on ",
                    server.as_str(),
                );
                cat2(
                    head.as_str(),
                    " and run `docli login --token`, or `docli login` for a browser sign-in.",
                )
            },
            CredsError::NoLongerValid { server } => cat3(
                "your sign-in to ",
                server.as_str(),
                " is no longer valid - run `docli login`",
            ),
            CredsError::Suspended { server } => cat2(
                server.as_str(),
                " says the connection is suspended - try again later (your credentials were kept)",
            ),
            CredsError::NotWritable { dir } => cat2(
                dir.as_str(),
                " is not writable, so the sign-in cannot be updated here - run the command where the home directory is writable (outside an agent sandbox). Nothing was lost: the stored sign-in is untouched.",
            ),
            CredsError::NotRegular { path } => cat2(
                path.as_str(),
                " is not a regular file - refusing to use it for credentials",
            ),
            CredsError::BroadMode { path, mode, dir } => {
                let m = octal(*mode);
                let head = cat5(path.as_str(), " is mode ", m.as_str(), " and ", dir.as_str());
                cat2(
                    head.as_str(),
                    " is not writable, so it cannot be re-secured - tighten it with `chmod 600`, or run this where the home directory is writable",
                )
            },
            CredsError::Other(m) => m.clone(),
        }
    }
}

/// The path of `leaf` in the directory `base`.
pub open spec fn joined(base: Seq<char>, leaf: Seq<char>) -> Seq<char> {
    if base.len() == 0 || base.last() == '/' {
        base + leaf
    } else {
        base + "/"@ + leaf
    }
}

fn join_path(base: &str, leaf: &str) -> (r: String)
    ensures
        r@ == joined(base@, leaf@),
{
    let v = chars_of(base);
    let n: usize = v.len();
    if n == 0 || v[n - 1] == '/' {
        cat2(base, leaf)
    } else {
        cat3(base, "/", leaf)
    }
}

/// Where the program keeps its things on this machine: where `DOCLI_HOME` says, else `.docli` in
/// the home directory.
pub fn cli_home(docli_home: Option<&str>, home_dir: Option<&str>) -> (r: Result<String, CredsError>)
    ensures
        match docli_home {
            Some(d) => r matches Ok(p) && p@ == d@,
            None => match home_dir {
                Some(h) => r matches Ok(p) && p@ == joined(h@, ".docli"@),
                None => r matches Err(e) && e is NoHome,
            },
        },
{
    match docli_home {
        Some(d) => Ok(d.to_owned()),
        None => match home_dir {
            Some(h) => Ok(join_path(h, ".docli")),
            None => Err(CredsError::NoHome),
        },
    }
}

/// The directory that holds the credentials: `auth` in the program's own. It is a level below so
/// that a sandbox can be granted this directory and not the mirror.
pub fn auth_dir(home: &str) -> (r: String)
    ensures
        r@ == joined(home@, "auth"@),
{
    join_path(home, "auth")
}

/// A token from the environment, and the one origin that it is for.
#[derive(Debug)]
pub struct EnvToken {
    token: String,
    /// Without a trailing slash.
    server: String,
}

impl EnvToken {
    pub closed spec fn token_v(&self) -> Seq<char> {
        self.token@
    }

    pub closed spec fn server_v(&self) -> Seq<char> {
        self.server@
    }

    pub fn server(&self) -> (r: &str)
        ensures
            r@ == self.server_v(),
    {
        self.server.as_str()
    }

    pub fn token(&self) -> (r: &str)
        ensures
            r@ == self.token_v(),
    {
        self.token.as_str()
    }
}

/// A variable of the environment.
#[derive(Debug)]
pub enum RawVar {
    Unset,
    NotUnicode,
    Text(String),
}

/// A character that a token may hold: printable ASCII without the space.
pub open spec fn is_token_char(c: char) -> bool {
    '\x21' <= c && c <= '\x7e'
}

/// The first character that no token holds.
pub open spec fn is_first_bad(s: Seq<char>, i: int) -> bool {
    &&& 0 <= i < s.len()
    &&& !is_token_char(s[i])
    &&& forall|j: int| 0 <= j < i ==> is_token_char(#[trigger] s[j])
}

/// The origin that a token is for, where the variable names one.
pub open spec fn origin_of(var: RawVar) -> Seq<char> {
    match var {
        RawVar::Text(s) => trim_end_char_of(trim_of(s@), '/'),
        _ => "https://docli.ru"@,
    }
}

/// What the two variables come to. An empty token is no token.
pub open spec fn env_token_ok(
    token: RawVar,
    server: RawVar,
    r: Result<Option<EnvToken>, CredsError>,
) -> bool {
    match token {
        RawVar::Unset => r matches Ok(t) && t is None,
        RawVar::NotUnicode => r matches Err(e) && e is TokenNotUnicode,
        RawVar::Text(raw) => {
            let t = trim_of(raw@);
            if t.len() == 0 {
                r matches Ok(none) && none is None
            } else if utf8_len(t) > MAX_TOKEN_LEN {
                r matches Err(CredsError::TokenTooLong(n)) && n == utf8_len(t)
            } else if exists|i: int| is_first_bad(t, i) {
                r matches Err(CredsError::BadCharacter(c)) && exists|i: int|
                    #[trigger] is_first_bad(t, i) && c@ == debug_char(t[i])
            } else if server is NotUnicode {
                r matches Err(e) && e is TokenServerNotUnicode
            } else if origin_of(server).len() == 0 {
                r matches Err(e) && e is TokenServerEmpty
            } else {
                r matches Ok(Some(env)) && env.token_v() == t && env.server_v() == origin_of(server)
            }
        },
    }
}

/// Read the token out of the environment.
pub fn env_token(token: &RawVar, server: &RawVar) -> (r: Result<Option<EnvToken>, CredsError>)
    ensures
        env_token_ok(*token, *server, r),
{
    let raw: &str = match token {
        RawVar::Unset => {
            return Ok(None);
        },
        RawVar::NotUnicode => {
            return Err(CredsError::TokenNotUnicode);
        },
        RawVar::Text(s) => s.as_str(),
    };
    let t = trim(raw);
    if t.as_str().is_empty() {
        return Ok(None);
    }
    let n: usize = byte_len(t.as_str());
    if n > MAX_TOKEN_LEN {
        return Err(CredsError::TokenTooLong(n));
    }
    let v = chars_of(t.as_str());
    for i in 0..v.len()
        invariant
            v@ == t@,
            t@ == trim_of(raw@),
            *token matches RawVar::Text(s) && s@ == raw@,
            t@.len() > 0,
            utf8_len(t@) <= MAX_TOKEN_LEN,
            forall|j: int| 0 <= j < i ==> is_token_char(#[trigger] t@[j]),
    {
        let c: char = v[i];
        if c < '\x21' || c > '\x7e' {
            assert(is_first_bad(t@, i as int));
            return Err(CredsError::BadCharacter(crate::text::debug_of_char(c)));
        }
    }
    assert(!exists|i: int| is_first_bad(t@, i));
    let origin: String = match server {
        RawVar::NotUnicode => {
            return Err(CredsError::TokenServerNotUnicode);
        },
        RawVar::Text(s) => {
            let a = trim(s.as_str());
            trim_end_char(a.as_str(), '/')
        },
        RawVar::Unset => "https://docli.ru".to_owned(),
    };
    proof {
        reveal_strlit("https://docli.ru");
    }
    if origin.as_str().is_empty() {
        return Err(CredsError::TokenServerEmpty);
    }
    Ok(Some(EnvToken { token: t, server: origin }))
}

/// The stored sign-ins as pairs of server and sign-in.
pub open spec fn entries_of(v: Seq<(String, ServerCreds)>) -> Seq<(Seq<char>, CredsVal)> {
    Seq::new(v.len(), |i: int| (v[i].0@, v[i].1.view()))
}

/// The servers stand in order, each once.
pub open spec fn in_order(v: Seq<(Seq<char>, CredsVal)>) -> bool {
    forall|i: int, j: int| 0 <= i < j < v.len() ==> text_lt((#[trigger] v[i]).0, (#[trigger] v[j]).0)
}

/// The server stands at that place.
pub open spec fn stands(v: Seq<(Seq<char>, CredsVal)>, k: Seq<char>, i: int) -> bool {
    0 <= i < v.len() && v[i].0 == k
}

/// The sign-in to that server.
pub open spec fn held(v: Seq<(Seq<char>, CredsVal)>, k: Seq<char>) -> Option<CredsVal> {
    if exists|i: int| stands(v, k, i) {
        Some(v[choose|i: int| stands(v, k, i)].1)
    } else {
        None
    }
}

proof fn lemma_held(v: Seq<(Seq<char>, CredsVal)>, i: int)
    requires
        in_order(v),
        0 <= i < v.len(),
    ensures
        held(v, v[i].0) == Some(v[i].1),
{
    let k = v[i].0;
    assert(stands(v, k, i));
    let j = choose|j: int| stands(v, k, j);
    crate::text::lemma_text_lt_irreflexive(k);
    assert(i == j);
}

/// What is stored of the sign-ins of this machine.
#[derive(Debug)]
pub struct CredsFile {
    servers: Vec<(String, ServerCreds)>,
}

impl CredsFile {
    pub closed spec fn entries(&self) -> Seq<(Seq<char>, CredsVal)> {
        entries_of(self.servers@)
    }

    /// The servers stand in order, each once.
    pub open spec fn wf(&self) -> bool {
        in_order(self.entries())
    }

    pub fn empty() -> (r: CredsFile)
        ensures
            r.wf(),
            r.entries().len() == 0,
    {
        CredsFile { servers: Vec::new() }
    }

    /// How many sign-ins are stored.
    pub fn len(&self) -> (r: usize)
        ensures
            r == self.entries().len(),
    {
        self.servers.len()
    }

    /// The `i`th server and the sign-in to it.
    pub fn at(&self, i: usize) -> (r: (String, ServerCreds))
        requires
            i < self.entries().len(),
        ensures
            (r.0@, r.1.view()) == self.entries()[i as int],
    {
        (self.servers[i].0.clone(), self.servers[i].1.copy())
    }

    fn place(&self, server: &str) -> (r: (usize, bool))
        requires
            self.wf(),
        ensures
            r.0 <= self.entries().len(),
            forall|j: int| 0 <= j < r.0 ==> text_lt((#[trigger] self.entries()[j]).0, server@),
            r.1 ==> r.0 < self.entries().len() && self.entries()[r.0 as int].0 == server@,
            !r.1 ==> forall|j: int|
                r.0 <= j < self.entries().len() ==> text_lt(server@, (#[trigger] self.entries()[j]).0),
    {
        let ghost es = self.entries();
        for i in 0..self.servers.len()
            invariant
                es == entries_of(self.servers@),
                es == self.entries(),
                in_order(es),
                forall|j: int| 0 <= j < i ==> text_lt((#[trigger] es[j]).0, server@),
        {
            assert(es[i as int].0 == self.servers@[i as int].0@);
            let k: &str = self.servers[i].0.as_str();
            if same(k, server) {
                return (i, true);
            }
            if !text_less(k, server) {
                proof {
                    crate::text::lemma_text_lt_total(k@, server@);
                    assert forall|j: int| i <= j < es.len() implies text_lt(
                        server@,
                        (#[trigger] es[j]).0,
                    ) by {
                        if j > i {
                            assert(text_lt(es[i as int].0, es[j].0));
                            crate::text::lemma_text_lt_transitive(server@, es[i as int].0, es[j].0);
                        }
                    }
                }
                return (i, false);
            }
        }
        (self.servers.len(), false)
    }

    /// The sign-in to a server.
    pub fn get(&self, server: &str) -> (r: Option<ServerCreds>)
        requires
            self.wf(),
        ensures
            (match r {
                Some(c) => Some(c.view()),
                None => None,
            }) == held(self.entries(), server@),
    {
        let (i, found) = self.place(server);
        let ghost es = self.entries();
        if found {
            proof {
                lemma_held(es, i as int);
            }
            Some(self.servers[i].1.copy())
        } else {
            proof {
                if exists|j: int| stands(es, server@, j) {
                    let j = choose|j: int| stands(es, server@, j);
                    crate::text::lemma_text_lt_irreflexive(server@);
                    if j < i {
                        assert(text_lt(es[j].0, server@));
                    } else {
                        assert(text_lt(server@, es[j].0));
                    }
                }
            }
            None
        }
    }

    /// Store the sign-in to a server, in place of what was there.
    pub fn insert(&mut self, server: &str, creds: ServerCreds)
        requires
            old(self).wf(),
        ensures
            final(self).wf(),
            forall|k: Seq<char>| #[trigger]
                held(final(self).entries(), k) == (if k == server@ {
                    Some(creds.view())
                } else {
                    held(old(self).entries(), k)
                }),
    {
        let ghost before = self.entries();
        let ghost c = creds.view();
        let (i, found) = self.place(server);
        if found {
            self.servers.set(i, (server.to_owned(), creds));
            let ghost after = self.entries();
            assert(after =~= before.update(i as int, (server@, c)));
            proof {
                lemma_updated(before, i as int, server@, c);
            }
        } else {
            self.servers.insert(i, (server.to_owned(), creds));
            let ghost after = self.entries();
            assert(after =~= before.insert(i as int, (server@, c)));
            proof {
                lemma_inserted(before, i as int, server@, c);
            }
        }
    }

    /// Forget the sign-in to a server.
    pub fn remove(&mut self, server: &str)
        requires
            old(self).wf(),
        ensures
            final(self).wf(),
            forall|k: Seq<char>| #[trigger]
                held(final(self).entries(), k) == (if k == server@ {
                    None
                } else {
                    held(old(self).entries(), k)
                }),
    {
        let ghost before = self.entries();
        let (i, found) = self.place(server);
        if found {
            let _gone = self.servers.remove(i);
            let ghost after = self.entries();
            assert(after =~= before.remove(i as int));
            proof {
                lemma_removed(before, i as int);
            }
        } else {
            assert forall|k: Seq<char>| #[trigger] held(self.entries(), k) == (if k == server@ {
                None
            } else {
                held(before, k)
            }) by {
                if k == server@ && exists|j: int| stands(before, k, j) {
                    let j = choose|j: int| stands(before, k, j);
                    crate::text::lemma_text_lt_irreflexive(server@);
                    if j < i {
                        assert(text_lt(before[j].0, server@));
                    } else {
                        assert(text_lt(server@, before[j].0));
                    }
                }
            }
        }
    }

    /// The servers, in order.
    pub fn servers(&self) -> (r: Vec<String>)
        ensures
            strs(r@) == Seq::new(self.entries().len(), |i: int| self.entries()[i].0),
    {
        broadcast use crate::text::lemma_strs_push;

        let mut out: Vec<String> = Vec::new();
        for i in 0..self.servers.len()
            invariant
                strs(out@) == Seq::new(i as nat, |j: int| self.entries()[j].0),
        {
            broadcast use crate::text::lemma_strs_push;

            out.push(self.servers[i].0.clone());
            assert(strs(out@) =~= Seq::new((i + 1) as nat, |j: int| self.entries()[j].0));
        }
        assert(self.entries().len() == self.servers@.len());
        out
    }
}

proof fn lemma_updated(v: Seq<(Seq<char>, CredsVal)>, i: int, k: Seq<char>, c: CredsVal)
    requires
        in_order(v),
        0 <= i < v.len(),
        v[i].0 == k,
    ensures
        in_order(v.update(i, (k, c))),
        forall|q: Seq<char>| #[trigger]
            held(v.update(i, (k, c)), q) == (if q == k {
                Some(c)
            } else {
                held(v, q)
            }),
{
    let w = v.update(i, (k, c));
    assert(in_order(w));
    assert forall|q: Seq<char>| #[trigger] held(w, q) == (if q == k {
        Some(c)
    } else {
        held(v, q)
    }) by {
        if q == k {
            lemma_held(w, i);
        } else if exists|j: int| stands(v, q, j) {
            let j = choose|j: int| stands(v, q, j);
            lemma_held(v, j);
            lemma_held(w, j);
        } else if exists|j: int| stands(w, q, j) {
            let j = choose|j: int| stands(w, q, j);
            assert(stands(v, q, j));
        }
    }
}

proof fn lemma_inserted(v: Seq<(Seq<char>, CredsVal)>, i: int, k: Seq<char>, c: CredsVal)
    requires
        in_order(v),
        0 <= i <= v.len(),
        forall|j: int| 0 <= j < i ==> text_lt((#[trigger] v[j]).0, k),
        forall|j: int| i <= j < v.len() ==> text_lt(k, (#[trigger] v[j]).0),
    ensures
        in_order(v.insert(i, (k, c))),
        forall|q: Seq<char>| #[trigger]
            held(v.insert(i, (k, c)), q) == (if q == k {
                Some(c)
            } else {
                held(v, q)
            }),
{
    let w = v.insert(i, (k, c));
    assert forall|a: int, b: int| 0 <= a < b < w.len() implies text_lt(
        (#[trigger] w[a]).0,
        (#[trigger] w[b]).0,
    ) by {
        let x = if a < i {
            a
        } else {
            a - 1
        };
        let y = if b < i {
            b
        } else {
            b - 1
        };
        if a == i {
            assert(w[b] == v[y]);
            assert(text_lt(k, v[y].0));
        } else if b == i {
            assert(w[a] == v[a]);
            assert(text_lt(v[a].0, k));
        } else {
            assert(w[a] == v[x] && w[b] == v[y]);
            assert(text_lt(v[x].0, v[y].0));
        }
    }
    assert forall|q: Seq<char>| #[trigger] held(w, q) == (if q == k {
        Some(c)
    } else {
        held(v, q)
    }) by {
        if q == k {
            assert(w[i] == (k, c));
            lemma_held(w, i);
        } else if exists|j: int| stands(v, q, j) {
            let j = choose|j: int| stands(v, q, j);
            lemma_held(v, j);
            let m = if j < i {
                j
            } else {
                j + 1
            };
            assert(w[m] == v[j]);
            lemma_held(w, m);
        } else if exists|j: int| stands(w, q, j) {
            let j = choose|j: int| stands(w, q, j);
            let m = if j < i {
                j
            } else {
                j - 1
            };
            assert(w[j] == v[m]);
            assert(stands(v, q, m));
        }
    }
}

proof fn lemma_removed(v: Seq<(Seq<char>, CredsVal)>, i: int)
    requires
        in_order(v),
        0 <= i < v.len(),
    ensures
        in_order(v.remove(i)),
        forall|q: Seq<char>| #[trigger]
            held(v.remove(i), q) == (if q == v[i].0 {
                None
            } else {
                held(v, q)
            }),
{
    let w = v.remove(i);
    assert forall|a: int, b: int| 0 <= a < b < w.len() implies text_lt(
        (#[trigger] w[a]).0,
        (#[trigger] w[b]).0,
    ) by {
        let x = if a < i {
            a
        } else {
            a + 1
        };
        let y = if b < i {
            b
        } else {
            b + 1
        };
        assert(w[a] == v[x] && w[b] == v[y]);
    }
    assert forall|q: Seq<char>| #[trigger] held(w, q) == (if q == v[i].0 {
        None
    } else {
        held(v, q)
    }) by {
        if exists|j: int| stands(w, q, j) {
            let j = choose|j: int| stands(w, q, j);
            let m = if j < i {
                j
            } else {
                j + 1
            };
            assert(w[j] == v[m]);
            assert(m != i);
            crate::text::lemma_text_lt_irreflexive(q);
            if m < i {
                assert(text_lt(v[m].0, v[i].0));
            } else {
                assert(text_lt(v[i].0, v[m].0));
            }
            lemma_held(v, m);
            lemma_held(w, j);
        } else if exists|j: int| stands(v, q, j) {
            let j = choose|j: int| stands(v, q, j);
            if j != i {
                let m = if j < i {
                    j
                } else {
                    j - 1
                };
                assert(w[m] == v[j]);
                assert(stands(w, q, m));
            }
        }
    }
}

/// The credentials that a command works with.
#[derive(Debug)]
pub struct CredsStore {
    env: Option<EnvToken>,
    file: CredsFile,
}

/// The environment's token and its origin, where there is one.
pub open spec fn bound_token(env: Option<EnvToken>) -> Option<(Seq<char>, Seq<char>)> {
    match env {
        Some(e) => Some((e.token_v(), e.server_v())),
        None => None,
    }
}

pub open spec fn opt_creds(o: Option<ServerCreds>) -> Option<CredsVal> {
    match o {
        Some(c) => Some(c.view()),
        None => None,
    }
}

/// What a renewal brought.
#[derive(Debug)]
pub enum RefreshOutcome {
    Rotated { access_token: String, refresh_token: String, expires_in: i64 },
    /// The sign-in is dead.
    InvalidGrant,
    /// The connection is suspended; wait, and keep the sign-in.
    Suspended { retry_after_secs: u64 },
}

/// How a bearer is to be had.
#[derive(Debug)]
pub enum Bearer {
    Ready(String),
    /// The sign-in has to be renewed first.
    Refresh,
}

/// What the environment's token means for a command that talks to `server`.
pub open spec fn env_meets(
    env: Option<(Seq<char>, Seq<char>)>,
    server: Seq<char>,
    r: Result<Option<&str>, CredsError>,
) -> bool {
    match env {
        None => r matches Ok(t) && t is None,
        Some(b) => if trim_end_char_of(server, '/') == b.1 {
            r matches Ok(Some(t)) && t@ == b.0
        } else {
            wrong_origin(r, b.1, server)
        },
    }
}

/// The refusal of a command that talks to another origin than the token is bound to.
pub open spec fn wrong_origin<T>(
    r: Result<T, CredsError>,
    bound: Seq<char>,
    asked: Seq<char>,
) -> bool {
    r matches Err(CredsError::WrongOrigin { bound: b, asked: a }) && b@ == bound && a@ == asked
}

/// The origin that the environment's token is bound to.
pub open spec fn bound_origin(env: Option<(Seq<char>, Seq<char>)>) -> Seq<char> {
    match env {
        Some(b) => b.1,
        None => Seq::empty(),
    }
}

/// The environment's token is for another origin than `server`.
pub open spec fn misbound(env: Option<(Seq<char>, Seq<char>)>, server: Seq<char>) -> bool {
    env is Some && trim_end_char_of(server, '/') != bound_origin(env)
}

impl CredsStore {
    /// The environment's token and its origin.
    pub closed spec fn env_v(&self) -> Option<(Seq<char>, Seq<char>)> {
        bound_token(self.env)
    }

    /// The stored sign-ins that can be seen through the store.
    pub closed spec fn entries(&self) -> Seq<(Seq<char>, CredsVal)> {
        self.file.entries()
    }

    /// The servers stand in order, and a token from the environment hides what is stored.
    pub open spec fn wf(&self) -> bool {
        in_order(self.entries()) && (self.env_v() is Some ==> self.entries().len() == 0)
    }

    /// The credentials of a command: the environment's token where there is one, else what is
    /// stored.
    pub fn open_default(env: Option<EnvToken>, stored: CredsFile) -> (r: CredsStore)
        requires
            stored.wf(),
        ensures
            r.wf(),
            r.env_v() == bound_token(env),
            env is None ==> r.entries() == stored.entries(),
    {
        match env {
            Some(e) => CredsStore { env: Some(e), file: CredsFile::empty() },
            None => CredsStore::open_stored(stored),
        }
    }

    /// What is stored, whatever the environment says: for commands that manage what is on this
    /// machine.
    pub fn open_stored(stored: CredsFile) -> (r: CredsStore)
        requires
            stored.wf(),
        ensures
            r.wf(),
            r.env_v() is None,
            r.entries() == stored.entries(),
    {
        CredsStore { env: None, file: stored }
    }

    /// One bearer for one origin, and no file at all.
    pub fn in_memory(server: &str, token: &str) -> (r: CredsStore)
        ensures
            r.wf(),
            r.env_v() == Some((token@, trim_end_char_of(server@, '/'))),
    {
        CredsStore {
            env: Some(
                EnvToken { token: token.to_owned(), server: trim_end_char(server, '/') },
            ),
            file: CredsFile::empty(),
        }
    }

    /// What is to be written back.
    pub fn into_file(self) -> (r: CredsFile)
        requires
            self.wf(),
        ensures
            r.wf(),
            r.entries() == self.entries(),
    {
        self.file
    }

    /// The environment's token, whatever origin it is bound to.
    pub fn env_source(&self) -> (r: Option<&EnvToken>)
        ensures
            match r {
                Some(e) => self.env_v() == Some((e.token_v(), e.server_v())),
                None => self.env_v() is None,
            },
    {
        self.env.as_ref()
    }

    /// The environment's token, where it is the credential for `server`. Another origin is an
    /// error and never a silent turn to what is stored.
    pub fn env_for(&self, server: &str) -> (r: Result<Option<&str>, CredsError>)
        ensures
            env_meets(self.env_v(), server@, r),
    {
        match &self.env {
            None => Ok(None),
            Some(e) => {
                let s = trim_end_char(server, '/');
                if same(s.as_str(), e.server.as_str()) {
                    Ok(Some(e.token.as_str()))
                } else {
                    Err(
                        CredsError::WrongOrigin {
                            bound: e.server.clone(),
                            asked: server.to_owned(),
                        },
                    )
                }
            },
        }
    }

    /// The stored sign-in to a server.
    pub fn get(&self, server: &str) -> (r: Option<ServerCreds>)
        requires
            self.wf(),
        ensures
            opt_creds(r) == held(self.entries(), server@),
    {
        self.file.get(server)
    }

    /// Is there a credential for `server` at all?
    pub fn signed_in(&self, server: &str) -> (r: Result<bool, CredsError>)
        requires
            self.wf(),
        ensures
            if misbound(self.env_v(), server@) {
                wrong_origin(r, bound_origin(self.env_v()), server@)
            } else {
                r == Ok::<bool, CredsError>(
                    self.env_v() is Some || held(self.entries(), server@) is Some,
                )
            },
    {
        match self.env_for(server) {
            Err(e) => Err(e),
            Ok(Some(_)) => Ok(true),
            Ok(None) => Ok(self.get(server).is_some()),
        }
    }

    /// Can this sign-in lapse? Only a stored one that can be renewed.
    pub fn can_lapse(&self, server: &str) -> (r: bool)
        requires
            self.wf(),
        ensures
            r == (self.env_v() is None && match held(self.entries(), server@) {
                Some(c) => c.refresh_token is Some,
                None => false,
            }),
    {
        if self.env.is_some() {
            return false;
        }
        match self.get(server) {
            Some(c) => c.refresh_token.is_some(),
            None => false,
        }
    }

    /// Refuse to change what is stored while a token from the environment is in force.
    pub fn refuse_if_env(&self) -> (r: Result<(), CredsError>)
        ensures
            match self.env_v() {
                Some(b) => r matches Err(CredsError::EnvInForce { bound }) && bound@ == b.1,
                None => r is Ok,
            },
    {
        match &self.env {
            Some(e) => Err(CredsError::EnvInForce { bound: e.server.clone() }),
            None => Ok(()),
        }
    }

    /// Store the sign-in to a server.
    pub fn put(&mut self, server: &str, creds: ServerCreds) -> (r: Result<(), CredsError>)
        requires
            old(self).wf(),
        ensures
            final(self).wf(),
            final(self).env_v() == old(self).env_v(),
            match old(self).env_v() {
                Some(b) => (r matches Err(CredsError::EnvInForce { bound }) && bound@ == b.1)
                    && final(self).entries() == old(self).entries(),
                None => r is Ok && forall|k: Seq<char>| #[trigger]
                    held(final(self).entries(), k) == (if k == server@ {
                        Some(creds.view())
                    } else {
                        held(old(self).entries(), k)
                    }),
            },
    {
        match self.refuse_if_env() {
            Err(e) => Err(e),
            Ok(_) => {
                self.file.insert(server, creds);
                Ok(())
            },
        }
    }

    /// The servers that this machine holds a sign-in for.
    pub fn servers(&self) -> (r: Vec<String>)
        ensures
            strs(r@) == Seq::new(self.entries().len(), |i: int| self.entries()[i].0),
    {
        self.file.servers()
    }

    /// Forget the sign-in to a server.
    pub fn remove(&mut self, server: &str) -> (r: Result<(), CredsError>)
        requires
            old(self).wf(),
        ensures
            final(self).wf(),
            final(self).env_v() == old(self).env_v(),
            match old(self).env_v() {
                Some(b) => (r matches Err(CredsError::EnvInForce { bound }) && bound@ == b.1)
                    && final(self).entries() == old(self).entries(),
                None => r is Ok && forall|k: Seq<char>| #[trigger]
                    held(final(self).entries(), k) == (if k == server@ {
                        None
                    } else {
                        held(old(self).entries(), k)
                    }),
            },
    {
        match self.refuse_if_env() {
            Err(e) => Err(e),
            Ok(_) => {
                self.file.remove(server);
                Ok(())
            },
        }
    }

    /// Forget the sign-in to a server while it is still the one that `token` belongs to. One that
    /// was replaced meanwhile stays.
    pub fn remove_if_current(&mut self, server: &str, token: &str) -> (r: Result<bool, CredsError>)
        requires
            old(self).wf(),
        ensures
            final(self).wf(),
            final(self).env_v() == old(self).env_v(),
            match old(self).env_v() {
                Some(b) => (r matches Err(CredsError::EnvInForce { bound }) && bound@ == b.1)
                    && final(self).entries() == old(self).entries(),
                None => {
                    let current = held(old(self).entries(), server@);
                    if current is Some && identity(current->0) == token@ {
                        r == Ok::<bool, CredsError>(true) && forall|k: Seq<char>| #[trigger]
                            held(final(self).entries(), k) == (if k == server@ {
                                None
                            } else {
                                held(old(self).entries(), k)
                            })
                    } else {
                        r == Ok::<bool, CredsError>(false) && final(self).entries() == old(
                            self,
                        ).entries()
                    }
                },
            },
    {
        match self.refuse_if_env() {
            Err(e) => Err(e),
            Ok(_) => {
                let matches_now: bool = match self.get(server) {
                    Some(c) => c.is_current(token),
                    None => false,
                };
                if matches_now {
                    self.file.remove(server);
                }
                Ok(matches_now)
            },
        }
    }

    /// The access token as it is stored: no renewal, no request.
    pub fn stored_token(&self, server: &str) -> (r: Result<Option<String>, CredsError>)
        requires
            self.wf(),
        ensures
            match self.env_v() {
                Some(b) => if misbound(self.env_v(), server@) {
                    wrong_origin(r, b.1, server@)
                } else {
                    r matches Ok(Some(t)) && t@ == b.0
                },
                None => r matches Ok(t) && opt_str(t) == (match held(self.entries(), server@) {
                    Some(c) => Some(c.access_token),
                    None => None,
                }),
            },
    {
        match self.env_for(server) {
            Err(e) => Err(e),
            Ok(Some(t)) => Ok(Some(t.to_owned())),
            Ok(None) => match self.get(server) {
                Some(c) => Ok(Some(c.access_token)),
                None => Ok(None),
            },
        }
    }

    /// How a valid bearer for `server` is to be had. The environment's token is used as it is.
    pub fn bearer(&self, server: &str, now: i64) -> (r: Result<Bearer, CredsError>)
        requires
            self.wf(),
        ensures
            match self.env_v() {
                Some(b) => if misbound(self.env_v(), server@) {
                    wrong_origin(r, b.1, server@)
                } else {
                    r matches Ok(Bearer::Ready(t)) && t@ == b.0
                },
                None => match held(self.entries(), server@) {
                    None => r matches Err(CredsError::NotSignedIn { server: s }) && s@ == server@,
                    Some(c) => if due(c, now, REFRESH_SKEW_SECS) {
                        r matches Ok(Bearer::Refresh)
                    } else {
                        r matches Ok(Bearer::Ready(t)) && t@ == c.access_token
                    },
                },
            },
    {
        match self.env_for(server) {
            Err(e) => Err(e),
            Ok(Some(t)) => Ok(Bearer::Ready(t.to_owned())),
            Ok(None) => match self.get(server) {
                None => Err(CredsError::NotSignedIn { server: server.to_owned() }),
                Some(c) => if c.needs_refresh(now, REFRESH_SKEW_SECS) {
                    Ok(Bearer::Refresh)
                } else {
                    Ok(Bearer::Ready(c.access_token))
                },
            },
        }
    }

    /// Begin a renewal, of which only one may run at a time. `rejected` is the token that the
    /// server just refused, where that is the reason. There is nothing to renew about the
    /// environment's token.
    pub fn refresh_single_flight(&self, server: &str, rejected: Option<&str>) -> (r: Result<
        Renewal,
        CredsError,
    >)
        ensures
            match self.env_v() {
                Some(b) => if misbound(self.env_v(), server@) {
                    wrong_origin(r, b.1, server@)
                } else {
                    r matches Err(CredsError::EnvRefused { server: s }) && s@ == server@
                },
                None => r matches Ok(run) && run.view() == (RenewalVal {
                    server: server@,
                    rejected: opt_ref(rejected),
                    attempts: 0,
                }),
            },
    {
        match self.env_for(server) {
            Err(e) => Err(e),
            Ok(Some(_)) => Err(CredsError::EnvRefused { server: server.to_owned() }),
            Ok(None) => Ok(
                Renewal {
                    server: server.to_owned(),
                    rejected: match rejected {
                        Some(t) => Some(t.to_owned()),
                        None => None,
                    },
                    attempts: 0,
                },
            ),
        }
    }

    /// The install id that is known for a server: the one of its sign-in, else the one that was
    /// persisted. `None` where one has to be minted.
    pub fn known_install_id(&self, server: &str, persisted: Option<&str>) -> (r: Result<
        Option<String>,
        CredsError,
    >)
        requires
            self.wf(),
        ensures
            match self.env_v() {
                Some(b) => r matches Err(CredsError::EnvInForce { bound }) && bound@ == b.1,
                None => r matches Ok(id) && opt_str(id) == known_id(
                    held(self.entries(), server@),
                    opt_ref(persisted),
                ),
            },
    {
        match self.refuse_if_env() {
            Err(e) => Err(e),
            Ok(_) => match self.get(server) {
                Some(c) => Ok(Some(c.install_id)),
                None => match persisted {
                    Some(p) => {
                        let t = trim(p);
                        if t.as_str().is_empty() {
                            Ok(None)
                        } else {
                            Ok(Some(t))
                        }
                    },
                    None => Ok(None),
                },
            },
        }
    }

    /// The install id for a server, minted where none is known. With it comes whether it is new
    /// and has to be persisted.
    pub fn install_id(&self, server: &str, persisted: Option<&str>) -> (r: Result<
        (String, bool),
        CredsError,
    >)
        requires
            self.wf(),
        ensures
            match self.env_v() {
                Some(b) => r matches Err(CredsError::EnvInForce { bound }) && bound@ == b.1,
                None => r matches Ok(p) && match known_id(
                    held(self.entries(), server@),
                    opt_ref(persisted),
                ) {
                    Some(id) => p.0@ == id && !p.1,
                    None => p.1 && exists|id: u128| is_random(id) && p.0@ == #[trigger] id_text(id),
                },
            },
    {
        match self.known_install_id(server, persisted) {
            Err(e) => Err(e),
            Ok(Some(id)) => Ok((id, false)),
            Ok(None) => {
                let id: u128 = crate::ids::random_id();
                Ok((print_id(id), true))
            },
        }
    }

    /// Forget the sign-ins whose revocation the server confirmed, and name the servers whose
    /// sign-ins stay. Where none stays, the file itself can go.
    pub fn revoke_all_and_clear(&mut self, confirmed: &Vec<String>) -> (r: Result<
        Vec<String>,
        CredsError,
    >)
        requires
            old(self).wf(),
        ensures
            final(self).wf(),
            final(self).env_v() == old(self).env_v(),
            match old(self).env_v() {
                Some(b) => (r matches Err(CredsError::EnvInForce { bound }) && bound@ == b.1)
                    && final(self).entries() == old(self).entries(),
                None => (r matches Ok(left) && strs(left@) == Seq::new(
                    final(self).entries().len(),
                    |i: int| final(self).entries()[i].0,
                )) && forall|k: Seq<char>| #[trigger]
                    held(final(self).entries(), k) == (if strs(confirmed@).contains(k) {
                        None
                    } else {
                        held(old(self).entries(), k)
                    }),
            },
    {
        match self.refuse_if_env() {
            Err(e) => {
                return Err(e);
            },
            Ok(_) => {},
        }
        let ghost start = self.entries();
        let n: usize = confirmed.len();
        for i in 0..n
            invariant
                n == confirmed@.len(),
                start == old(self).entries(),
                self.wf(),
                self.env_v() is None,
                old(self).env_v() is None,
                forall|k: Seq<char>| #[trigger]
                    held(self.entries(), k) == (if strs(confirmed@).take(i as int).contains(k) {
                        None
                    } else {
                        held(start, k)
                    }),
        {
            let ghost before = self.entries();
            let ghost done = strs(confirmed@).take(i as int);
            let ghost next = strs(confirmed@).take(i + 1);
            let ghost here = confirmed@[i as int]@;
            self.file.remove(confirmed[i].as_str());
            assert(next =~= done.push(here));
            assert forall|k: Seq<char>| #[trigger] held(self.entries(), k) == (if next.contains(k) {
                None
            } else {
                held(start, k)
            }) by {
                assert(held(before, k) == (if done.contains(k) {
                    None
                } else {
                    held(start, k)
                }));
                if k == here {
                    assert(next[i as int] == k);
                } else if done.contains(k) {
                    let j = choose|j: int| 0 <= j < done.len() && done[j] == k;
                    assert(next[j] == k);
                } else if next.contains(k) {
                    let j = choose|j: int| 0 <= j < next.len() && next[j] == k;
                    assert(done[j] == k);
                }
            }
        }
        assert(strs(confirmed@).take(n as int) =~= strs(confirmed@));
        Ok(self.file.servers())
    }
}

/// The install id that is known.
pub open spec fn known_id(current: Option<CredsVal>, persisted: Option<Seq<char>>) -> Option<
    Seq<char>,
> {
    match current {
        Some(c) => Some(c.install_id),
        None => match persisted {
            Some(p) => if trim_of(p).len() == 0 {
                None
            } else {
                Some(trim_of(p))
            },
            None => None,
        },
    }
}

/// A renewal that is under way.
#[derive(Debug)]
pub struct Renewal {
    pub server: String,
    pub rejected: Option<String>,
    /// How often the connection was suspended.
    pub attempts: u32,
}

/// What a [`Renewal`] says.
pub struct RenewalVal {
    pub server: Seq<char>,
    pub rejected: Option<Seq<char>>,
    pub attempts: u32,
}

/// What a look at the store comes to.
#[derive(Debug)]
pub enum Look {
    /// The stored token can be used: somebody renewed it meanwhile.
    Usable(String),
    /// This refresh token is to be exchanged; the new sign-in keeps this install id.
    Exchange { refresh_token: String, install_id: String },
    Fail(CredsError),
}

/// How a renewal goes on after an exchange.
#[derive(Debug)]
pub enum After {
    Usable(String),
    Fail(CredsError),
    /// Wait so many seconds, then look again.
    Wait(u64),
}

/// The stored token can be used as it is: it is not due, and it is not the one that the server
/// refused.
pub open spec fn usable(c: CredsVal, now: i64, rejected: Option<Seq<char>>) -> bool {
    !due(c, now, REFRESH_SKEW_SECS) && rejected != Some(c.access_token)
}

/// What a look at the store comes to.
pub open spec fn look_is(
    current: Option<CredsVal>,
    server: Seq<char>,
    now: i64,
    rejected: Option<Seq<char>>,
    r: Look,
) -> bool {
    match current {
        None => r matches Look::Fail(CredsError::NotSignedIn { server: s }) && s@ == server,
        Some(c) => if usable(c, now, rejected) {
            r matches Look::Usable(t) && t@ == c.access_token
        } else {
            match c.refresh_token {
                None => r matches Look::Fail(CredsError::KeyRefused { server: s }) && s@ == server,
                Some(token) => r matches Look::Exchange { refresh_token, install_id }
                    && refresh_token@ == token && install_id@ == c.install_id,
            }
        },
    }
}

/// The sign-in after a rotation.
pub open spec fn rotated(
    access_token: Seq<char>,
    refresh_token: Seq<char>,
    expires_at: i64,
    install_id: Seq<char>,
) -> CredsVal {
    CredsVal {
        access_token,
        refresh_token: Some(refresh_token),
        expires_at: Some(expires_at),
        install_id,
    }
}

impl Renewal {
    pub open spec fn view(&self) -> RenewalVal {
        RenewalVal {
            server: self.server@,
            rejected: opt_str(self.rejected),
            attempts: self.attempts,
        }
    }

    /// Look at the store, as it is now that the lock is held.
    pub fn look(&self, store: &CredsStore, now: i64) -> (r: Look)
        requires
            store.wf(),
        ensures
            look_is(
                held(store.entries(), self.server@),
                self.server@,
                now,
                self.view().rejected,
                r,
            ),
    {
        match store.get(self.server.as_str()) {
            None => Look::Fail(CredsError::NotSignedIn { server: self.server.clone() }),
            Some(c) => {
                let refused: bool = match &self.rejected {
                    Some(t) => same(t.as_str(), c.access_token.as_str()),
                    None => false,
                };
                if !c.needs_refresh(now, REFRESH_SKEW_SECS) && !refused {
                    return Look::Usable(c.access_token);
                }
                match c.refresh_token {
                    None => Look::Fail(CredsError::KeyRefused { server: self.server.clone() }),
                    Some(t) => Look::Exchange { refresh_token: t, install_id: c.install_id },
                }
            },
        }
    }

    /// Take in what an exchange brought. A rotation is stored at once, a dead sign-in is forgotten,
    /// and a suspended connection keeps what is stored.
    pub fn exchanged(
        &mut self,
        store: &mut CredsStore,
        install_id: &str,
        outcome: RefreshOutcome,
        now: i64,
    ) -> (r: After)
        requires
            old(store).wf(),
            old(store).env_v() is None,
            old(self).attempts < u32::MAX,
            outcome matches RefreshOutcome::Rotated { expires_in, .. } ==> i64::MIN <= now
                + expires_in <= i64::MAX,
        ensures
            final(store).wf(),
            final(store).env_v() is None,
            final(self).server == old(self).server,
            final(self).rejected == old(self).rejected,
            match outcome {
                RefreshOutcome::Rotated { access_token, refresh_token, expires_in } => {
                    &&& r matches After::Usable(t) && t@ == access_token@
                    &&& final(self).attempts == old(self).attempts
                    &&& forall|k: Seq<char>| #[trigger]
                        held(final(store).entries(), k) == (if k == old(self).server@ {
                            Some(
                                rotated(
                                    access_token@,
                                    refresh_token@,
                                    (now + expires_in) as i64,
                                    install_id@,
                                ),
                            )
                        } else {
                            held(old(store).entries(), k)
                        })
                },
                RefreshOutcome::InvalidGrant => {
                    &&& r matches After::Fail(CredsError::NoLongerValid { server }) && server@
                        == old(self).server@
                    &&& final(self).attempts == old(self).attempts
                    &&& forall|k: Seq<char>| #[trigger]
                        held(final(store).entries(), k) == (if k == old(self).server@ {
                            None
                        } else {
                            held(old(store).entries(), k)
                        })
                },
                RefreshOutcome::Suspended { retry_after_secs } => {
                    &&& final(store).entries() == old(store).entries()
                    &&& final(self).attempts == old(self).attempts + 1
                    &&& if old(self).attempts + 1 > SUSPEND_RETRIES {
                        r matches After::Fail(CredsError::Suspended { server }) && server@ == old(
                            self,
                        ).server@
                    } else {
                        r matches After::Wait(secs) && secs == (if retry_after_secs
                            <= MAX_RETRY_AFTER_SECS {
                            retry_after_secs
                        } else {
                            MAX_RETRY_AFTER_SECS
                        })
                    }
                },
            },
    {
        match outcome {
            RefreshOutcome::Rotated { access_token, refresh_token, expires_in } => {
                let fresh = ServerCreds {
                    access_token: access_token.clone(),
                    refresh_token: Some(refresh_token),
                    expires_at: Some(now + expires_in),
                    install_id: install_id.to_owned(),
                };
                store.file.insert(self.server.as_str(), fresh);
                After::Usable(access_token)
            },
            RefreshOutcome::InvalidGrant => {
                store.file.remove(self.server.as_str());
                After::Fail(CredsError::NoLongerValid { server: self.server.clone() })
            },
            RefreshOutcome::Suspended { retry_after_secs } => {
                self.attempts = self.attempts + 1;
                if self.attempts > SUSPEND_RETRIES {
                    After::Fail(CredsError::Suspended { server: self.server.clone() })
                } else if retry_after_secs <= MAX_RETRY_AFTER_SECS {
                    After::Wait(retry_after_secs)
                } else {
                    After::Wait(MAX_RETRY_AFTER_SECS)
                }
            },
        }
    }
}

/// A rotation is not repeated: whoever looks next finds the rotated token and uses it, as long as
/// it is not due and is not itself the token that the server refused.
pub proof fn a_rotation_serves_the_next_look(
    access_token: Seq<char>,
    refresh_token: Seq<char>,
    install_id: Seq<char>,
    now: i64,
    expires_in: i64,
    rejected: Option<Seq<char>>,
)
    requires
        expires_in > REFRESH_SKEW_SECS,
        now + expires_in <= i64::MAX,
        rejected != Some(access_token),
    ensures
        usable(
            rotated(access_token, refresh_token, (now + expires_in) as i64, install_id),
            now,
            rejected,
        ),
{
}

/// A token that the server refused is never handed back.
pub proof fn a_refused_token_is_never_usable(c: CredsVal, now: i64)
    ensures
        !usable(c, now, Some(c.access_token)),
{
}

/// A minted key is never due, at any time and with any skew.
pub proof fn a_minted_key_is_never_due(c: CredsVal, now: i64, skew: i64)
    requires
        c.expires_at is None,
    ensures
        !due(c, now, skew),
{
}

/// A failure of the filesystem.
#[derive(Debug)]
pub struct IoFault {
    /// Permission was denied.
    pub denied: bool,
    /// The system's own code, where there is one.
    pub code: Option<i32>,
    pub text: String,
}

/// The filesystem refuses to be written: permission is denied, or it is mounted read-only.
pub open spec fn refuses_writes(denied: bool, code: Option<i32>) -> bool {
    denied || code == Some(30i32)
}

/// Was write access refused, as opposed to any other failure?
pub fn is_write_refusal(e: &IoFault) -> (r: bool)
    ensures
        r == refuses_writes(e.denied, e.code),
{
    e.denied || match e.code {
        Some(c) => c == 30,
        None => false,
    }
}

/// What stands where the credentials should.
#[derive(Debug, Clone, Copy, PartialEq, Eq, Structural)]
pub enum EntryKind {
    Missing,
    Regular,
    Other,
}

/// What is known of the mode of the credentials file.
#[derive(Debug)]
pub enum ModeSeen {
    /// The platform has no such mode.
    NotApplicable,
    Mode(u32),
    /// It could not be read, for this reason.
    Unknown(String),
}

/// What came of the last step of opening the store.
#[derive(Debug)]
pub enum OpenEvent {
    Found(EntryKind),
    Restricted,
    RestrictFailed(IoFault, ModeSeen),
    LockOpened,
    LockNotOpened(IoFault, ModeSeen),
    Locked,
    /// Another command holds the lock.
    Contended,
    NotLocked(String),
    FoundAgain(EntryKind),
    Rewritten,
    RewriteFailed(String),
}

/// The next step of opening the store.
#[derive(Debug)]
pub enum OpenStep {
    /// Close the directory to others.
    RestrictDir,
    OpenLock,
    /// Take the lock if it is free; do not wait for it.
    TryLock,
    /// Look again what stands there, now that the lock is held.
    LookAgain,
    /// Write the file anew, closed to others from its first byte.
    Rewrite,
    Done,
    Fail(CredsError),
}

/// What a [`OpenStep`] says.
pub enum OpenVal {
    RestrictDir,
    OpenLock,
    TryLock,
    LookAgain,
    Rewrite,
    Done,
    Fail(Seq<char>),
}

impl OpenStep {
    pub open spec fn view(&self) -> OpenVal {
        match self {
            OpenStep::RestrictDir => OpenVal::RestrictDir,
            OpenStep::OpenLock => OpenVal::OpenLock,
            OpenStep::TryLock => OpenVal::TryLock,
            OpenStep::LookAgain => OpenVal::LookAgain,
            OpenStep::Rewrite => OpenVal::Rewrite,
            OpenStep::Done => OpenVal::Done,
            OpenStep::Fail(e) => OpenVal::Fail(creds_message(*e)),
        }
    }
}

/// The paths that opening the store speaks of.
#[derive(Debug)]
pub struct StorePaths {
    pub dir: String,
    pub file: String,
    pub lock: String,
}

pub open spec fn not_regular_text(file: Seq<char>) -> Seq<char> {
    file + " is not a regular file - refusing to use it for credentials"@
}

/// A home that cannot be written is checked instead of mended: the file may be used unless it is
/// open to others. Any other failure stands.
pub open spec fn unwritable(f: IoFault, mode: ModeSeen, p: StorePaths) -> OpenVal {
    if !refuses_writes(f.denied, f.code) {
        OpenVal::Fail(f.text@)
    } else {
        match mode {
            ModeSeen::NotApplicable => OpenVal::Done,
            ModeSeen::Unknown(why) => OpenVal::Fail("stat "@ + p.file@ + ": "@ + why@),
            ModeSeen::Mode(m) => if m & 0o077 != 0 {
                OpenVal::Fail(
                    p.file@ + " is mode "@ + octal_of((m & 0o777) as nat) + " and "@ + p.dir@
                        + " is not writable, so it cannot be re-secured - tighten it with `chmod 600`, or run this where the home directory is writable"@,
                )
            } else {
                OpenVal::Done
            },
        }
    }
}

/// The next step of opening the store.
pub open spec fn opening(ev: OpenEvent, p: StorePaths) -> OpenVal {
    match ev {
        OpenEvent::Found(EntryKind::Missing) => OpenVal::Done,
        OpenEvent::Found(EntryKind::Regular) => OpenVal::RestrictDir,
        OpenEvent::Found(EntryKind::Other) => OpenVal::Fail(not_regular_text(p.file@)),
        OpenEvent::Restricted => OpenVal::OpenLock,
        OpenEvent::RestrictFailed(f, mode) => unwritable(f, mode, p),
        OpenEvent::LockOpened => OpenVal::TryLock,
        OpenEvent::LockNotOpened(f, mode) => if refuses_writes(f.denied, f.code) {
            unwritable(f, mode, p)
        } else {
            OpenVal::Fail(
                "opening "@ + p.lock@ + " to verify the credential file's permissions: "@ + f.text@,
            )
        },
        OpenEvent::Locked => OpenVal::LookAgain,
        OpenEvent::Contended => OpenVal::Done,
        OpenEvent::NotLocked(why) => OpenVal::Fail(
            "cannot lock "@ + p.lock@ + " to verify the credential file's permissions: "@ + why@,
        ),
        OpenEvent::FoundAgain(EntryKind::Missing) => OpenVal::Done,
        OpenEvent::FoundAgain(EntryKind::Regular) => OpenVal::Rewrite,
        OpenEvent::FoundAgain(EntryKind::Other) => OpenVal::Fail(not_regular_text(p.file@)),
        OpenEvent::Rewritten => OpenVal::Done,
        OpenEvent::RewriteFailed(why) => OpenVal::Fail(why@),
    }
}

fn refuse_irregular(p: &StorePaths) -> (r: OpenStep)
    ensures
        r.view() == OpenVal::Fail(not_regular_text(p.file@)),
{
    OpenStep::Fail(CredsError::NotRegular { path: p.file.clone() })
}

/// Decide about a home that cannot be written.
pub fn finish_unwritable(cause: &IoFault, mode: &ModeSeen, p: &StorePaths) -> (r: OpenStep)
    ensures
        r.view() == unwritable(*cause, *mode, *p),
{
    if !is_write_refusal(cause) {
        return OpenStep::Fail(CredsError::Other(cause.text.clone()));
    }
    match mode {
        ModeSeen::NotApplicable => OpenStep::Done,
        ModeSeen::Unknown(why) => OpenStep::Fail(
            CredsError::Other(cat4("stat ", p.file.as_str(), ": ", why.as_str())),
        ),
        ModeSeen::Mode(m) => {
            let bits: u32 = *m;
            if bits & 0o077 != 0 {
                OpenStep::Fail(
                    CredsError::BroadMode {
                        path: p.file.clone(),
                        mode: bits & 0o777,
                        dir: p.dir.clone(),
                    },
                )
            } else {
                OpenStep::Done
            }
        },
    }
}

impl CredsStore {
    /// Decide how opening the store goes on. The refusal of what is not a regular file comes
    /// first and needs no lock; all that follows is hardening, which a home that cannot be
    /// written turns into a check.
    pub fn open(ev: &OpenEvent, p: &StorePaths) -> (r: OpenStep)
        ensures
            r.view() == opening(*ev, *p),
    {
        match ev {
            OpenEvent::Found(EntryKind::Missing) => OpenStep::Done,
            OpenEvent::Found(EntryKind::Regular) => OpenStep::RestrictDir,
            OpenEvent::Found(EntryKind::Other) => refuse_irregular(p),
            OpenEvent::Restricted => OpenStep::OpenLock,
            OpenEvent::RestrictFailed(f, mode) => finish_unwritable(f, mode, p),
            OpenEvent::LockOpened => OpenStep::TryLock,
            OpenEvent::LockNotOpened(f, mode) => if is_write_refusal(f) {
                finish_unwritable(f, mode, p)
            } else {
                OpenStep::Fail(
                    CredsError::Other(
                        cat4(
                            "opening ",
                            p.lock.as_str(),
                            " to verify the credential file's permissions: ",
                            f.text.as_str(),
                        ),
                    ),
                )
            },
            OpenEvent::Locked => OpenStep::LookAgain,
            OpenEvent::Contended => OpenStep::Done,
            OpenEvent::NotLocked(why) => OpenStep::Fail(
                CredsError::Other(
                    cat4(
                        "cannot lock ",
                        p.lock.as_str(),
                        " to verify the credential file's permissions: ",
                        why.as_str(),
                    ),
                ),
            ),
            OpenEvent::FoundAgain(EntryKind::Missing) => OpenStep::Done,
            OpenEvent::FoundAgain(EntryKind::Regular) => OpenStep::Rewrite,
            OpenEvent::FoundAgain(EntryKind::Other) => refuse_irregular(p),
            OpenEvent::Rewritten => OpenStep::Done,
            OpenEvent::RewriteFailed(why) => OpenStep::Fail(CredsError::Other(why.clone())),
        }
    }
}

/// What is said where the lock for a write could not be opened.
pub fn lock_for_write(f: &IoFault, dir: &str) -> (r: CredsError)
    ensures
        creds_message(r) == (if refuses_writes(f.denied, f.code) {
            dir@
                + " is not writable, so the sign-in cannot be updated here - run the command where the home directory is writable (outside an agent sandbox). Nothing was lost: the stored sign-in is untouched."@
        } else {
            "opening the credentials lock: "@ + f.text@
        }),
{
    if is_write_refusal(f) {
        CredsError::NotWritable { dir: dir.to_owned() }
    } else {
        CredsError::Other(cat2("opening the credentials lock: ", f.text.as_str()))
    }
}

/// However the store is opened, it is never used while something other than a regular file
/// stands for the credentials, nor, where it cannot be mended, while it is open to others.
pub proof fn an_unsafe_file_is_never_used(ev: OpenEvent, p: StorePaths)
    requires
        opening(ev, p) is Done,
    ensures
        !(ev matches OpenEvent::Found(EntryKind::Other)),
        !(ev matches OpenEvent::FoundAgain(EntryKind::Other)),
        ev matches OpenEvent::RestrictFailed(_, ModeSeen::Mode(m)) ==> m & 0o077 == 0,
        ev matches OpenEvent::LockNotOpened(_, ModeSeen::Mode(m)) ==> m & 0o077 == 0,
{
}

/// A sign-in is due for renewal from so many seconds before its expiry on, and not a second before.
pub proof fn a_sign_in_is_due_ahead_of_its_expiry(c: CredsVal, now: i64, skew: i64, left: int)
    requires
        c.expires_at is Some,
        left == c.expires_at->0 - now,
    ensures
        left <= skew ==> due(c, now, skew),
        left > skew ==> !due(c, now, skew),
{
}

/// A sign-in is told from another by what renews it, and a key that nothing renews by itself.
pub proof fn a_sign_in_is_told_by_what_renews_it(c: CredsVal)
    ensures
        c.refresh_token is Some ==> identity(c) == c.refresh_token->0,
        c.refresh_token is None ==> identity(c) == c.access_token,
{
}

/// A token in the environment is taken, less the whitespace around it, where it is not longer than
/// allowed and printable throughout, for the origin of the other variable, or for the default one
/// where that is not set.
pub proof fn a_printable_token_of_the_environment_is_taken(
    raw: String,
    server: RawVar,
    r: Result<Option<EnvToken>, CredsError>,
)
    requires
        env_token_ok(RawVar::Text(raw), server, r),
        trim_of(raw@).len() > 0,
        utf8_len(trim_of(raw@)) <= MAX_TOKEN_LEN,
        forall|i: int|
            0 <= i < trim_of(raw@).len() ==> '\x21' <= #[trigger] trim_of(raw@)[i] && trim_of(
                raw@,
            )[i] <= '\x7e',
        server is Unset || (server matches RawVar::Text(s) && trim_of(s@).len() > 0 && trim_of(
            s@,
        ).last() != '/'),
    ensures
        r matches Ok(Some(env)) && env.token_v() == trim_of(raw@) && (server is Unset
            ==> env.server_v() == "https://docli.ru"@) && (server matches RawVar::Text(s)
            ==> env.server_v() == trim_of(s@)),
{
    let t = trim_of(raw@);
    reveal_strlit("https://docli.ru");
    assert(!exists|i: int| is_first_bad(t, i)) by {
        if exists|i: int| is_first_bad(t, i) {
            let i = choose|i: int| is_first_bad(t, i);
            assert('\x21' <= t[i] && t[i] <= '\x7e');
        }
    }
    if let RawVar::Text(s) = server {
        assert(trim_end_char_of(trim_of(s@), '/') == trim_of(s@));
    }
}

proof fn lemma_first_bad(t: Seq<char>, i: int) -> (first: int)
    requires
        0 <= i < t.len(),
        !is_token_char(t[i]),
    ensures
        is_first_bad(t, first),
        first <= i,
    decreases i,
{
    if exists|j: int| 0 <= j < i && !is_token_char(#[trigger] t[j]) {
        let j = choose|j: int| 0 <= j < i && !is_token_char(#[trigger] t[j]);
        lemma_first_bad(t, j)
    } else {
        i
    }
}

/// A token in the environment that is too long, or holds a character that is not printable, is
/// refused and never used; a blank one is no token.
pub proof fn an_unprintable_token_of_the_environment_is_refused(
    raw: String,
    server: RawVar,
    r: Result<Option<EnvToken>, CredsError>,
    i: int,
)
    requires
        env_token_ok(RawVar::Text(raw), server, r),
    ensures
        trim_of(raw@).len() == 0 ==> (r matches Ok(t) && t is None),
        utf8_len(trim_of(raw@)) > MAX_TOKEN_LEN && trim_of(raw@).len() > 0 ==> r is Err,
        0 <= i < trim_of(raw@).len() && !('\x21' <= trim_of(raw@)[i] && trim_of(raw@)[i] <= '\x7e')
            ==> r is Err,
{
    let t = trim_of(raw@);
    if 0 <= i < t.len() && !('\x21' <= t[i] && t[i] <= '\x7e') {
        let first = lemma_first_bad(t, i);
        assert(is_first_bad(t, first));
    }
}

/// A token of the environment serves the origin that it is bound to, with or without slashes behind
/// it, and no other.
pub proof fn a_bound_token_serves_its_own_origin(
    token: Seq<char>,
    origin: Seq<char>,
    server: Seq<char>,
    r: Result<Option<&str>, CredsError>,
)
    requires
        env_meets(Some((token, origin)), server, r),
        origin.len() > 0,
        origin.last() != '/',
    ensures
        server == origin || server == origin + seq!['/'] ==> (r matches Ok(Some(t)) && t@ == token)
            && !misbound(Some((token, origin)), server),
        server.len() > 0 && server.last() != '/' && server != origin ==> r is Err && misbound(
            Some((token, origin)),
            server,
        ),
{
    assert(trim_end_char_of(origin, '/') == origin);
    if server == origin + seq!['/'] {
        assert(server.drop_last() =~= origin);
        assert(trim_end_char_of(server, '/') == trim_end_char_of(origin, '/'));
    }
    if server.len() > 0 && server.last() != '/' {
        assert(trim_end_char_of(server, '/') == server);
    }
}

/// A look at the store hands out the stored token where it has more than the margin left and is not
/// the one that the server refused; else the stored refresh token is exchanged, and the install id
/// kept; a key that nothing renews fails then, and so does a server without a sign-in.
pub proof fn a_look_hands_out_what_still_serves(
    current: Option<CredsVal>,
    server: Seq<char>,
    now: i64,
    rejected: Option<Seq<char>>,
    r: Look,
)
    requires
        look_is(current, server, now, rejected, r),
    ensures
        current is None ==> r is Fail,
        current matches Some(c) ==> {
            let lapsing = c.expires_at is Some && c.expires_at->0 - now <= REFRESH_SKEW_SECS;
            let refused = rejected is Some && rejected->0 == c.access_token;
            &&& !lapsing && !refused ==> (r matches Look::Usable(t) && t@ == c.access_token)
            &&& (lapsing || refused) && c.refresh_token is Some ==> (r matches Look::Exchange {
                refresh_token,
                install_id,
            } && refresh_token@ == c.refresh_token->0 && install_id@ == c.install_id)
            &&& (lapsing || refused) && c.refresh_token is None ==> r is Fail
        },
{
}

/// The sign-in to a server is the one that stands beside its name.
pub proof fn a_sign_in_stands_beside_its_server(
    v: Seq<(Seq<char>, CredsVal)>,
    k: Seq<char>,
    c: CredsVal,
)
    requires
        in_order(v),
    ensures
        held(v, k) == Some(c) <==> exists|i: int| 0 <= i < v.len() && #[trigger] v[i] == (k, c),
        held(v, k) is None <==> forall|i: int| 0 <= i < v.len() ==> (#[trigger] v[i]).0 != k,
{
    if exists|i: int| stands(v, k, i) {
        let i = choose|i: int| stands(v, k, i);
        assert(v[i] == (k, v[i].1));
        assert forall|j: int| 0 <= j < v.len() && (#[trigger] v[j]).0 == k implies j == i by {
            if i < j {
                assert(text_lt(v[i].0, v[j].0));
                crate::text::lemma_text_lt_irreflexive(k);
            } else if j < i {
                assert(text_lt(v[j].0, v[i].0));
                crate::text::lemma_text_lt_irreflexive(k);
            }
        }
    } else {
        assert forall|j: int| 0 <= j < v.len() implies (#[trigger] v[j]).0 != k by {
            assert(!stands(v, k, j));
        }
    }
}

/// The install id is that of the sign-in, else the one that was persisted, less the whitespace around
/// it; a blank one is none.
pub proof fn the_install_id_of_the_sign_in_comes_first(
    c: CredsVal,
    persisted: Option<Seq<char>>,
    id: Seq<char>,
)
    ensures
        known_id(Some(c), persisted) == Some(c.install_id),
        persisted is None ==> known_id(None, persisted) is None,
        persisted == Some(id) && trim_of(id).len() > 0 ==> known_id(None, persisted) == Some(
            trim_of(id),
        ),
        persisted == Some(id) && trim_of(id).len() == 0 ==> known_id(None, persisted) is None,
{
}

/// The file is rewritten only once the lock is held and a regular file still stands there; a regular
/// file is never used before its directory was closed to others, or could not be written at all;
/// and what cannot be verified fails.
pub proof fn a_store_is_opened_in_steps(ev: OpenEvent, p: StorePaths)
    ensures
        opening(ev, p) is Rewrite <==> (ev matches OpenEvent::FoundAgain(k)
            && k == EntryKind::Regular),
        opening(ev, p) is RestrictDir <==> (ev matches OpenEvent::Found(k)
            && k == EntryKind::Regular),
        opening(ev, p) is OpenLock <==> ev is Restricted,
        opening(ev, p) is TryLock <==> ev is LockOpened,
        opening(ev, p) is LookAgain <==> ev is Locked,
        ev is NotLocked || ev is RewriteFailed ==> opening(ev, p) is Fail,
        ev is Rewritten || ev is Contended ==> opening(ev, p) is Done,
        ev matches OpenEvent::Found(k) && k == EntryKind::Missing ==> opening(ev, p) is Done,
        ev matches OpenEvent::FoundAgain(k) && k == EntryKind::Missing ==> opening(ev, p) is Done,
        ev matches OpenEvent::RestrictFailed(f, _) && !f.denied && f.code != Some(30i32)
            ==> opening(ev, p) is Fail,
        ev matches OpenEvent::LockNotOpened(f, _) && !f.denied && f.code != Some(30i32)
            ==> opening(ev, p) is Fail,
        ev matches OpenEvent::RestrictFailed(f, m) ==> (f.denied || f.code == Some(30i32)) ==> (
        opening(ev, p) is Done <==> (m is NotApplicable || (m matches ModeSeen::Mode(bits)
            && bits & 0o077 == 0))),
        ev matches OpenEvent::LockNotOpened(f, m) ==> (f.denied || f.code == Some(30i32)) ==> (
        opening(ev, p) is Done <==> (m is NotApplicable || (m matches ModeSeen::Mode(bits)
            && bits & 0o077 == 0))),
{
}

/// What a rotation brought is what is stored, with the install id kept.
pub proof fn a_rotation_keeps_the_install_id(
    access_token: Seq<char>,
    refresh_token: Seq<char>,
    expires_at: i64,
    install_id: Seq<char>,
)
    ensures
        ({
            let c = rotated(access_token, refresh_token, expires_at, install_id);
            &&& c.access_token == access_token
            &&& c.refresh_token == Some(refresh_token)
            &&& c.expires_at == Some(expires_at)
            &&& c.install_id == install_id
        }),
{
}

/// A name is joined to its directory by one slash, and the root has its own.
pub proof fn a_name_is_joined_by_one_slash(base: Seq<char>, leaf: Seq<char>)
    ensures
        base.len() > 0 && base.last() != '/' ==> joined(base, leaf) == base + seq!['/'] + leaf,
        joined(base + seq!['/'], leaf) == base + seq!['/'] + leaf,
        joined(Seq::empty(), leaf) == leaf,
{
    reveal_strlit("/");
    assert("/"@ =~= seq!['/']);
    assert((base + seq!['/']).last() == '/');
    assert(Seq::<char>::empty() + leaf =~= leaf);
}

} // verus!
