//! `docli login`: the round through the browser, and a key that the user minted.
//!
//! The round names the sync plane as its resource. Without it the server would grant the other
//! plane, and refuse every sync.

use vstd::prelude::*;

use vstd::utf8::decode_utf8;
use vstd::utf8::encode_utf8;
use vstd::utf8::is_ascii_chars;
use vstd::utf8::is_ascii_chars_encode_utf8;
use vstd::utf8::valid_utf8;

use crate::creds::creds_message;
use crate::creds::held;
use crate::creds::is_first_bad;
use crate::creds::is_token_char;
use crate::creds::known_id;
use crate::creds::rotated;
use crate::creds::CredsError;
use crate::creds::CredsStore;
use crate::creds::CredsVal;
use crate::creds::ServerCreds;
use crate::creds::TOKEN_VAR;
use crate::digest::sha256;
use crate::digest::sha256_of;
use crate::http::TokenReply;
use crate::http::CLI_CLIENT_ID;
use crate::ids::id_text;
use crate::report::notices;
use crate::report::Notice;
use crate::report::NoticeVal;
use crate::text::after_prefix;
use crate::text::begins;
use crate::text::byte_len;
use crate::text::cat2;
use crate::text::cat3;
use crate::text::cat4;
use crate::text::cat5;
use crate::text::chars_of;
use crate::text::debug_char;
use crate::text::debug_of_char;
use crate::text::decimal;
use crate::text::decimal_of;
use crate::text::is_white;
use crate::text::is_whitespace;
use crate::text::opt_ref;
use crate::text::opt_str;
use crate::text::pairs;
use crate::text::same;
use crate::text::split;
use crate::text::split_of;
use crate::text::split_once;
use crate::text::split_once_of;
use crate::text::starts_with;
use crate::text::string_between;
use crate::text::strip_prefix;
use crate::text::strs;
use crate::text::trim;
use crate::text::trim_end;
use crate::text::trim_end_of;
use crate::text::trim_of;
use crate::text::utf8_len;

verus! {

/// The digit of the URL alphabet for a number below sixty-four.
pub open spec fn url64_char(v: int) -> char {
    if v < 26 {
        (65 + v) as u8 as char
    } else if v < 52 {
        (71 + v) as u8 as char
    } else if v < 62 {
        (v - 4) as u8 as char
    } else if v == 62 {
        '-'
    } else {
        '_'
    }
}

/// The `i`-th group of six bits of a byte sequence, zeros behind its end.
pub open spec fn sextet(b: Seq<u8>, i: int) -> int {
    let k = i * 6 / 8;
    let next = if k + 1 < b.len() {
        b[k + 1] as int
    } else {
        0
    };
    let window = b[k] as int * 256 + next;
    if i % 4 == 0 {
        window / 1024
    } else if i % 4 == 1 {
        (window / 16) % 64
    } else if i % 4 == 2 {
        (window / 64) % 64
    } else {
        (window / 256) % 64
    }
}

/// The base64 form of bytes in the URL alphabet, without padding.
pub open spec fn url64_of(b: Seq<u8>) -> Seq<char> {
    Seq::new((4 * b.len() + 2) / 3, |i: int| url64_char(sextet(b, i)))
}

/// `base64`'s `URL_SAFE_NO_PAD.encode`. Claimed: one character of the URL alphabet for each six
/// bits, zeros filling up the last, and no padding.
#[verifier::external_body]
pub(crate) fn b64url(bytes: &[u8]) -> (r: String)
    ensures
        r@ == url64_of(bytes@),
{
    base64::Engine::encode(&base64::engine::general_purpose::URL_SAFE_NO_PAD, bytes)
}

/// `rand::RngCore::fill_bytes` of the thread's generator. Claimed: that many bytes, any.
#[verifier::external_body]
pub(crate) fn random_bytes(n: usize) -> (r: Vec<u8>)
    ensures
        r@.len() == n,
{
    let mut v = vec![0u8; n];
    rand::RngCore::fill_bytes(&mut rand::thread_rng(), &mut v);
    v
}

/// The text that `String::from_utf8_lossy` makes of bytes.
pub uninterp spec fn lossy_text(bytes: Seq<u8>) -> Seq<char>;

/// `String::from_utf8_lossy`. Claimed: what it gives depends on the bytes alone, and is the text
/// that they encode where they are UTF-8.
#[verifier::external_body]
pub(crate) fn from_utf8_lossy(bytes: &[u8]) -> (r: String)
    ensures
        r@ == lossy_text(bytes@),
        valid_utf8(bytes@) ==> r@ == decode_utf8(bytes@),
{
    String::from_utf8_lossy(bytes).into_owned()
}

/// A byte that stands for itself in an address.
pub open spec fn is_unreserved(b: u8) -> bool {
    ||| 65 <= b && b <= 90
    ||| 97 <= b && b <= 122
    ||| 48 <= b && b <= 57
    ||| b == 45
    ||| b == 46
    ||| b == 95
    ||| b == 126
}

/// The uppercase hexadecimal digit of a number below sixteen.
pub open spec fn upper_hex(d: u8) -> char {
    if d < 10 {
        (48 + d) as u8 as char
    } else {
        (55 + d) as u8 as char
    }
}

/// What a byte becomes in an address.
pub open spec fn url_piece(b: u8) -> Seq<char> {
    if is_unreserved(b) {
        seq![b as char]
    } else {
        seq!['%', upper_hex(b / 16), upper_hex(b % 16)]
    }
}

/// What bytes become in an address.
pub open spec fn url_bytes(b: Seq<u8>) -> Seq<char>
    decreases b.len(),
{
    if b.len() == 0 {
        Seq::empty()
    } else {
        url_piece(b[0]) + url_bytes(b.drop_first())
    }
}

/// What a text becomes in an address.
pub open spec fn url_encoded(s: Seq<char>) -> Seq<char> {
    url_bytes(encode_utf8(s))
}

fn hex_upper(d: u8) -> (r: char)
    requires
        d < 16,
    ensures
        r == upper_hex(d),
{
    if d < 10 {
        (48 + d) as char
    } else {
        (55 + d) as char
    }
}

/// What a text becomes in an address.
pub fn urlencode(s: &str) -> (r: String)
    ensures
        r@ == url_encoded(s@),
{
    let b = s.as_bytes();
    let mut out = String::new();
    let ghost all = encode_utf8(s@);
    assert(b@ =~= all);
    assert(all.skip(0) =~= all);
    assert(out@ + url_bytes(all) =~= url_bytes(all));
    for i in 0..b.len()
        invariant
            b@ == all,
            out@ + url_bytes(all.skip(i as int)) == url_bytes(all),
    {
        let ghost before = out@;
        let rest = Ghost(all.skip(i as int));
        assert(rest@[0] == b@[i as int]);
        assert(rest@.drop_first() =~= all.skip(i + 1));
        let c: u8 = b[i];
        let plain: bool = (65 <= c && c <= 90) || (97 <= c && c <= 122) || (48 <= c && c <= 57) || c
            == 45 || c == 46 || c == 95 || c == 126;
        if plain {
            out.push(c as char);
        } else {
            out.push('%');
            out.push(hex_upper(c / 16));
            out.push(hex_upper(c % 16));
        }
        assert(out@ =~= before + url_piece(c));
        assert(out@ + url_bytes(all.skip(i + 1)) =~= before + (url_piece(c) + url_bytes(
            all.skip(i + 1),
        )));
    }
    assert(all.skip(b@.len() as int) =~= Seq::empty());
    assert(out@ + url_bytes(Seq::<u8>::empty()) =~= out@);
    out
}

/// The value of a hexadecimal digit, in either case.
pub open spec fn hex_value(b: u8) -> Option<u8> {
    if 48 <= b && b <= 57 {
        Some((b - 48) as u8)
    } else if 97 <= b && b <= 102 {
        Some((b - 87) as u8)
    } else if 65 <= b && b <= 70 {
        Some((b - 55) as u8)
    } else {
        None
    }
}

/// A percent sign and two hexadecimal digits stand at `i`.
pub open spec fn escape_at(b: Seq<u8>, i: int) -> bool {
    0 <= i && i + 2 < b.len() && b[i] == 37 && hex_value(b[i + 1]) is Some && hex_value(b[i + 2]) is Some
}

/// The bytes from `i` on with each escape resolved and each plus sign a space. A percent sign
/// without two digits behind it stands for itself.
pub open spec fn url_decoded(b: Seq<u8>, i: int) -> Seq<u8>
    decreases b.len() - i,
{
    if i < 0 || i >= b.len() {
        Seq::empty()
    } else if escape_at(b, i) {
        seq![(hex_value(b[i + 1])->0 * 16 + hex_value(b[i + 2])->0) as u8] + url_decoded(b, i + 3)
    } else if b[i] == 43 {
        seq![32u8] + url_decoded(b, i + 1)
    } else {
        seq![b[i]] + url_decoded(b, i + 1)
    }
}

fn digit_of(b: u8) -> (r: Option<u8>)
    ensures
        r == hex_value(b),
        r matches Some(d) ==> d < 16,
{
    if 48 <= b && b <= 57 {
        Some(b - 48)
    } else if 97 <= b && b <= 102 {
        Some(b - 87)
    } else if 65 <= b && b <= 70 {
        Some(b - 55)
    } else {
        None
    }
}

/// The bytes that a value in an address stands for.
pub fn percent_bytes(b: &[u8]) -> (r: Vec<u8>)
    ensures
        r@ == url_decoded(b@, 0),
{
    let n: usize = b.len();
    let mut out: Vec<u8> = Vec::new();
    let mut i: usize = 0;
    assert(out@ + url_decoded(b@, 0) =~= url_decoded(b@, 0));
    while i < n
        invariant
            n == b@.len(),
            i <= n,
            out@ + url_decoded(b@, i as int) == url_decoded(b@, 0),
        decreases n - i,
    {
        let ghost before = out@;
        if b[i] == 37 && n - i > 2 {
            if let Some(high) = digit_of(b[i + 1]) {
                if let Some(low) = digit_of(b[i + 2]) {
                    assert(escape_at(b@, i as int));
                    let byte: u8 = high * 16 + low;
                    out.push(byte);
                    assert(out@ + url_decoded(b@, i + 3) =~= before + (seq![byte] + url_decoded(
                        b@,
                        i + 3,
                    )));
                    i += 3;
                    continue;
                }
            }
        }
        assert(!escape_at(b@, i as int));
        let byte: u8 = if b[i] == 43 {
            32
        } else {
            b[i]
        };
        out.push(byte);
        assert(out@ + url_decoded(b@, i + 1) =~= before + (seq![byte] + url_decoded(b@, i + 1)));
        i += 1;
    }
    assert(out@ + url_decoded(b@, n as int) =~= out@);
    out
}

/// The text that a value in an address stands for.
pub open spec fn decoded_text(s: Seq<char>) -> Seq<char> {
    lossy_text(url_decoded(encode_utf8(s), 0))
}

/// The text that a value in an address stands for.
pub fn percent_decode(s: &str) -> (r: String)
    ensures
        r@ == decoded_text(s@),
        valid_utf8(url_decoded(encode_utf8(s@), 0)) ==> r@ == decode_utf8(
            url_decoded(encode_utf8(s@), 0),
        ),
{
    let bytes = percent_bytes(s.as_bytes());
    from_utf8_lossy(&bytes)
}

proof fn lemma_hex(d: u8)
    requires
        d < 16,
    ensures
        hex_value(upper_hex(d) as u8) == Some(d),
        (upper_hex(d) as u32) < 128,
{
}

proof fn lemma_url_bytes_ascii(b: Seq<u8>)
    ensures
        is_ascii_chars(url_bytes(b)),
    decreases b.len(),
{
    if b.len() > 0 {
        lemma_url_bytes_ascii(b.drop_first());
        let c = b[0];
        lemma_hex(c / 16);
        lemma_hex(c % 16);
        let piece = url_piece(c);
        let rest = url_bytes(b.drop_first());
        assert forall|i: int| 0 <= i < (piece + rest).len() implies '\0' <= #[trigger] (piece + rest)[i]
            <= '\u{7f}' by {
            if i >= piece.len() {
                assert((piece + rest)[i] == rest[i - piece.len()]);
            }
        }
    }
}

/// The bytes of an ASCII text.
spec fn ascii_bytes(s: Seq<char>) -> Seq<u8> {
    Seq::new(s.len(), |i: int| s[i] as u8)
}

proof fn lemma_decode_from(p: Seq<u8>, b: Seq<u8>)
    ensures
        url_decoded(p + ascii_bytes(url_bytes(b)), p.len() as int) == b,
    decreases b.len(),
{
    let all = p + ascii_bytes(url_bytes(b));
    let n = p.len() as int;
    if b.len() == 0 {
        assert(all.len() == n);
        assert(b =~= Seq::empty());
    } else {
        let c = b[0];
        let rest = b.drop_first();
        let piece = url_piece(c);
        let q = p + ascii_bytes(piece);
        assert(all =~= q + ascii_bytes(url_bytes(rest)));
        lemma_decode_from(q, rest);
        assert(b =~= seq![c] + rest);
        if is_unreserved(c) {
            assert(all[n] == c);
            assert(!escape_at(all, n));
        } else {
            lemma_hex(c / 16);
            lemma_hex(c % 16);
            assert(all[n] == 37 && all[n + 1] == upper_hex(c / 16) as u8 && all[n + 2] == upper_hex(
                c % 16,
            ) as u8);
            assert(escape_at(all, n));
            assert((c / 16) * 16 + c % 16 == c);
        }
    }
}

/// Decoding undoes encoding: a text that was put into an address is read back as it was.
pub proof fn decoding_undoes_encoding(s: Seq<char>)
    ensures
        url_decoded(encode_utf8(url_encoded(s)), 0) == encode_utf8(s),
        valid_utf8(url_decoded(encode_utf8(url_encoded(s)), 0)),
        decode_utf8(url_decoded(encode_utf8(url_encoded(s)), 0)) == s,
{
    let b = encode_utf8(s);
    let e = url_bytes(b);
    lemma_url_bytes_ascii(b);
    is_ascii_chars_encode_utf8(e);
    assert(encode_utf8(e) =~= ascii_bytes(e));
    lemma_decode_from(Seq::empty(), b);
    assert(Seq::<u8>::empty() + ascii_bytes(e) =~= ascii_bytes(e));
    vstd::utf8::encode_utf8_valid_utf8(s);
    vstd::utf8::encode_utf8_decode_utf8(s);
}

/// A round through the browser.
#[derive(Debug)]
pub struct AuthorizeRound {
    pub url: String,
    pub redirect_uri: String,
    pub state: String,
    pub verifier: String,
}

/// What an [`AuthorizeRound`] says.
pub struct RoundVal {
    pub url: Seq<char>,
    pub redirect_uri: Seq<char>,
    pub state: Seq<char>,
    pub verifier: Seq<char>,
}

impl AuthorizeRound {
    pub open spec fn view(&self) -> RoundVal {
        RoundVal {
            url: self.url@,
            redirect_uri: self.redirect_uri@,
            state: self.state@,
            verifier: self.verifier@,
        }
    }
}

/// Where the browser is sent back to.
pub open spec fn redirect_of(port: u16) -> Seq<char> {
    "http://127.0.0.1:"@ + decimal_of(port as nat) + "/callback"@
}

/// The challenge for a verifier: its digest.
pub open spec fn challenge_of(verifier: Seq<char>) -> Seq<char> {
    url64_of(sha256_of(encode_utf8(verifier)))
}

/// The address that the browser is sent to.
pub open spec fn authorize_url(
    server: Seq<char>,
    redirect_uri: Seq<char>,
    state: Seq<char>,
    challenge: Seq<char>,
    install_id: Seq<char>,
) -> Seq<char> {
    server + "/api/oauth/authorize?response_type=code&client_id="@ + url_encoded(CLI_CLIENT_ID@)
        + "&redirect_uri="@ + url_encoded(redirect_uri) + "&state="@ + url_encoded(state)
        + "&code_challenge="@ + url_encoded(challenge)
        + "&code_challenge_method=S256&scope=sync&resource="@ + url_encoded(server + "/api/sync"@)
        + "&install_id="@ + url_encoded(install_id)
}

/// The round that comes of these bytes.
pub open spec fn round_of(
    server: Seq<char>,
    port: u16,
    install_id: Seq<char>,
    verifier_bytes: Seq<u8>,
    state_bytes: Seq<u8>,
) -> RoundVal {
    let verifier = url64_of(verifier_bytes);
    let state = url64_of(state_bytes);
    RoundVal {
        url: authorize_url(
            server,
            redirect_of(port),
            state,
            challenge_of(verifier),
            install_id,
        ),
        redirect_uri: redirect_of(port),
        state,
        verifier,
    }
}

/// The round that comes of these bytes.
pub fn round_from(
    server: &str,
    port: u16,
    install_id: &str,
    verifier_bytes: &[u8],
    state_bytes: &[u8],
) -> (r: AuthorizeRound)
    ensures
        r.view() == round_of(server@, port, install_id@, verifier_bytes@, state_bytes@),
{
    let verifier = b64url(verifier_bytes);
    let digest = sha256(verifier.as_str().as_bytes());
    let challenge = b64url(&digest);
    let state = b64url(state_bytes);
    let p = decimal(port as u64);
    let redirect_uri = cat3("http://127.0.0.1:", p.as_str(), "/callback");
    let client = urlencode(CLI_CLIENT_ID);
    let redirect = urlencode(redirect_uri.as_str());
    let shown_state = urlencode(state.as_str());
    let shown_challenge = urlencode(challenge.as_str());
    let plane = cat2(server, "/api/sync");
    let resource = urlencode(plane.as_str());
    let install = urlencode(install_id);
    let mut url = server.to_owned();
    url.push_str("/api/oauth/authorize?response_type=code&client_id=");
    url.push_str(client.as_str());
    url.push_str("&redirect_uri=");
    url.push_str(redirect.as_str());
    url.push_str("&state=");
    url.push_str(shown_state.as_str());
    url.push_str("&code_challenge=");
    url.push_str(shown_challenge.as_str());
    url.push_str("&code_challenge_method=S256&scope=sync&resource=");
    url.push_str(resource.as_str());
    url.push_str("&install_id=");
    url.push_str(install.as_str());
    AuthorizeRound { url, redirect_uri, state, verifier }
}

/// The bytes that a verifier and a state are made of.
pub const VERIFIER_BYTES: usize = 48;

pub const STATE_BYTES: usize = 24;

/// A round with a verifier and a state of its own, for a browser that is sent back to `port`.
pub fn authorize_round(server: &str, port: u16, install_id: &str) -> (r: AuthorizeRound)
    ensures
        exists|v: Seq<u8>, s: Seq<u8>|
            v.len() == VERIFIER_BYTES && s.len() == STATE_BYTES && r.view() == #[trigger] round_of(
                server@,
                port,
                install_id@,
                v,
                s,
            ),
{
    let v = random_bytes(VERIFIER_BYTES);
    let s = random_bytes(STATE_BYTES);
    round_from(server, port, install_id, &v, &s)
}

/// The first character from `i` on that is no blank, or the end.
pub open spec fn ink_from(s: Seq<char>, i: int) -> int
    decreases s.len() - i,
{
    if i >= s.len() || !is_white(s[i]) {
        i
    } else {
        ink_from(s, i + 1)
    }
}

/// The first blank from `i` on, or the end.
pub open spec fn blank_from(s: Seq<char>, i: int) -> int
    decreases s.len() - i,
{
    if i >= s.len() || is_white(s[i]) {
        i
    } else {
        blank_from(s, i + 1)
    }
}

/// The first word of a text.
pub open spec fn first_word_of(s: Seq<char>) -> Option<Seq<char>> {
    let a = ink_from(s, 0);
    if a < s.len() {
        Some(s.subrange(a, blank_from(s, a)))
    } else {
        None
    }
}

/// The second word of a text.
pub open spec fn second_word_of(s: Seq<char>) -> Option<Seq<char>> {
    let a = ink_from(s, 0);
    let b = blank_from(s, a);
    let c = ink_from(s, b);
    let d = blank_from(s, c);
    if c < s.len() {
        Some(s.subrange(c, d))
    } else {
        None
    }
}

fn ink_at(v: &[char], start: usize) -> (r: usize)
    requires
        start <= v@.len(),
    ensures
        r == ink_from(v@, start as int),
        start <= r <= v@.len(),
{
    let mut i: usize = start;
    while i < v.len() && is_whitespace(v[i])
        invariant
            start <= i <= v@.len(),
            ink_from(v@, start as int) == ink_from(v@, i as int),
        decreases v@.len() - i,
    {
        i += 1;
    }
    i
}

fn blank_at(v: &[char], start: usize) -> (r: usize)
    requires
        start <= v@.len(),
    ensures
        r == blank_from(v@, start as int),
        start <= r <= v@.len(),
{
    let mut i: usize = start;
    while i < v.len() && !is_whitespace(v[i])
        invariant
            start <= i <= v@.len(),
            blank_from(v@, start as int) == blank_from(v@, i as int),
        decreases v@.len() - i,
    {
        i += 1;
    }
    i
}

/// The first word of a text.
pub fn first_word(s: &str) -> (r: Option<String>)
    ensures
        opt_str(r) == first_word_of(s@),
{
    let v = chars_of(s);
    let a: usize = ink_at(&v, 0);
    let b: usize = blank_at(&v, a);
    if a < v.len() {
        Some(string_between(&v, a, b))
    } else {
        None
    }
}

/// The second word of a text.
pub fn second_word(s: &str) -> (r: Option<String>)
    ensures
        opt_str(r) == second_word_of(s@),
{
    let v = chars_of(s);
    let a: usize = ink_at(&v, 0);
    let b: usize = blank_at(&v, a);
    let c: usize = ink_at(&v, b);
    let d: usize = blank_at(&v, c);
    if c < v.len() {
        Some(string_between(&v, c, d))
    } else {
        None
    }
}

/// Why a callback was refused.
#[derive(Debug)]
pub enum CallbackError {
    Malformed,
    /// The request is no `GET`, but this.
    UnexpectedMethod(String),
    UnexpectedPath(String),
    /// The authorization was refused, for this reason.
    Refused(String),
    NoCode,
    NoState,
}

pub open spec fn callback_message(e: CallbackError) -> Seq<char> {
    match e {
        CallbackError::Malformed => "malformed callback request"@,
        CallbackError::UnexpectedMethod(m) => "unexpected callback method: "@ + m@,
        CallbackError::UnexpectedPath(p) => "unexpected callback path: "@ + p@,
        CallbackError::Refused(why) => "the authorization was refused: "@ + why@,
        CallbackError::NoCode => "no code in the callback"@,
        CallbackError::NoState => "no state in the callback"@,
    }
}

impl CallbackError {
    pub fn message(&self) -> (r: String)
        ensures
            r@ == callback_message(*self),
    {
        match self {
            CallbackError::Malformed => "malformed callback request".to_owned(),
            CallbackError::UnexpectedMethod(m) => cat2("unexpected callback method: ", m.as_str()),
            CallbackError::UnexpectedPath(p) => cat2("unexpected callback path: ", p.as_str()),
            CallbackError::Refused(why) => cat2("the authorization was refused: ", why.as_str()),
            CallbackError::NoCode => "no code in the callback".to_owned(),
            CallbackError::NoState => "no state in the callback".to_owned(),
        }
    }
}

/// The name and the value of a pair; without an equals sign the value is empty.
pub open spec fn field_of(pair: Seq<char>) -> (Seq<char>, Seq<char>) {
    match split_once_of(pair, '=') {
        Some(f) => f,
        None => (pair, Seq::empty()),
    }
}

/// The value of the last field of that name among the first `n`.
pub open spec fn last_value(fields: Seq<Seq<char>>, name: Seq<char>, n: nat) -> Option<Seq<char>>
    decreases n,
{
    if n == 0 {
        None
    } else if field_of(fields[n - 1]).0 == name {
        Some(decoded_text(field_of(fields[n - 1]).1))
    } else {
        last_value(fields, name, (n - 1) as nat)
    }
}

/// What a query says of a field.
pub open spec fn query_value(query: Seq<char>, name: Seq<char>) -> Option<Seq<char>> {
    last_value(split_of(query, '&'), name, split_of(query, '&').len())
}

/// What a callback comes to. Anything but `GET /callback?...` is refused.
pub open spec fn called_back(
    line: Seq<char>,
    r: Result<(String, String), CallbackError>,
) -> bool {
    match (first_word_of(line), second_word_of(line)) {
        (Some(method), Some(path)) => if method != "GET"@ {
            r matches Err(CallbackError::UnexpectedMethod(m)) && m@ == method
        } else {
            match after_prefix(path, "/callback?"@) {
                None => r matches Err(CallbackError::UnexpectedPath(p)) && p@ == path,
                Some(query) => match query_value(query, "error"@) {
                    Some(why) => r matches Err(CallbackError::Refused(w)) && w@ == why,
                    None => match (query_value(query, "code"@), query_value(query, "state"@)) {
                        (Some(code), Some(state)) => r matches Ok(p) && p.0@ == code && p.1@
                            == state,
                        (None, _) => r matches Err(e) && e is NoCode,
                        (_, None) => r matches Err(e) && e is NoState,
                    },
                },
            }
        },
        _ => r matches Err(e) && e is Malformed,
    }
}

fn find_value(fields: &Vec<String>, name: &str) -> (r: Option<String>)
    ensures
        opt_str(r) == last_value(strs(fields@), name@, fields@.len()),
{
    let ghost fs = strs(fields@);
    let mut i: usize = fields.len();
    while i > 0
        invariant
            fs == strs(fields@),
            i <= fields@.len(),
            last_value(fs, name@, fields@.len()) == last_value(fs, name@, i as nat),
        decreases i,
    {
        assert(fs[i - 1] == fields@[i - 1]@);
        let (k, v) = match split_once(fields[i - 1].as_str(), '=') {
            Some(f) => f,
            None => {
                let none = String::new();
                assert(none@ =~= Seq::empty());
                (fields[i - 1].clone(), none)
            },
        };
        assert((k@, v@) == field_of(fs[i - 1]));
        if same(k.as_str(), name) {
            return Some(percent_decode(v.as_str()));
        }
        i = i - 1;
    }
    None
}

/// The code and the state of a callback, from its request line. Anything but
/// `GET /callback?...` is refused.
pub fn parse_callback(request_line: &str) -> (r: Result<(String, String), CallbackError>)
    ensures
        called_back(request_line@, r),
{
    let method = match first_word(request_line) {
        Some(m) => m,
        None => return Err(CallbackError::Malformed),
    };
    let path = match second_word(request_line) {
        Some(p) => p,
        None => return Err(CallbackError::Malformed),
    };
    if !same(method.as_str(), "GET") {
        return Err(CallbackError::UnexpectedMethod(method));
    }
    let query = match strip_prefix(path.as_str(), "/callback?") {
        Some(q) => q,
        None => return Err(CallbackError::UnexpectedPath(path)),
    };
    let fields = split(query.as_str(), '&');
    if let Some(why) = find_value(&fields, "error") {
        return Err(CallbackError::Refused(why));
    }
    let code = match find_value(&fields, "code") {
        Some(c) => c,
        None => return Err(CallbackError::NoCode),
    };
    match find_value(&fields, "state") {
        Some(state) => Ok((code, state)),
        None => Err(CallbackError::NoState),
    }
}

/// Why a sign-in was refused.
#[derive(Debug)]
pub enum LoginError {
    /// The environment's token signs in, to this origin.
    EnvSignsIn { bound: String },
    NoToken,
    /// A character that no token holds, as it is printed.
    BadCharacter(String),
    NothingOnStdin,
    /// The server refused the token, in these words.
    TokenRefused(String),
    Callback(CallbackError),
    StateMismatch,
    /// The code was not redeemed.
    ExchangeFailed { status: String, text: String },
    /// The tokens could not be read.
    TokensUnreadable(String),
    Creds(CredsError),
}

pub open spec fn login_message(e: LoginError) -> Seq<char> {
    match e {
        LoginError::EnvSignsIn { bound } => TOKEN_VAR@ + " is set (for "@ + bound@
            + ") and is what signs this device in, so storing a second credential here would have no effect - unset "@
            + TOKEN_VAR@ + " first if you want a stored sign-in instead"@,
        LoginError::NoToken => "no token was given"@,
        LoginError::BadCharacter(c) =>
            "that does not look like an access token (it contains "@ + c@
            + ") - check for stray whitespace or quotes"@,
        LoginError::NothingOnStdin => "no token arrived on stdin"@,
        LoginError::TokenRefused(why) => "the token was refused: "@ + why@,
        LoginError::Callback(c) => callback_message(c),
        LoginError::StateMismatch => "state mismatch in the callback - refusing the code"@,
        LoginError::ExchangeFailed { status, text } => "the token exchange failed ("@ + status@
            + "): "@ + text@,
        LoginError::TokensUnreadable(why) => "parsing the token response: "@ + why@,
        LoginError::Creds(c) => creds_message(c),
    }
}

impl LoginError {
    pub fn message(&self) -> (r: String)
        ensures
            r@ == login_message(*self),
    {
        match self {
            LoginError::EnvSignsIn { bound } => {
                let head = cat4(
                    TOKEN_VAR,
                    " is set (for ",
                    bound.as_str(),
                    ") and is what signs this device in, so storing a second credential here would have no effect - unset ",
                );
                cat3(
                    head.as_str(),
                    TOKEN_VAR,
                    " first if you want a stored sign-in instead",
                )
            },
            LoginError::NoToken => "no token was given".to_owned(),
            LoginError::BadCharacter(c) => cat3(
                "that does not look like an access token (it contains ",
                c.as_str(),
                ") - check for stray whitespace or quotes",
            ),
            LoginError::NothingOnStdin => "no token arrived on stdin".to_owned(),
            LoginError::TokenRefused(why) => cat2("the token was refused: ", why.as_str()),
            LoginError::Callback(c) => c.message(),
            LoginError::StateMismatch =>
                "state mismatch in the callback - refusing the code".to_owned(),
            LoginError::ExchangeFailed { status, text } => cat4(
                "the token exchange failed (",
                status.as_str(),
                "): ",
                text.as_str(),
            ),
            LoginError::TokensUnreadable(why) => cat2(
                "parsing the token response: ",
                why.as_str(),
            ),
            LoginError::Creds(c) => c.message(),
        }
    }
}

/// Where a token comes from.
#[derive(Debug)]
pub enum TokenSource {
    Given(String),
    /// Ask for it, unechoed.
    Prompt,
    /// Read one line.
    Line,
}

/// Where the token of `--token` comes from: `-` asks at a terminal and reads a line elsewhere.
pub fn read_token_arg(arg: &str, interactive: bool) -> (r: TokenSource)
    ensures
        if arg@ != "-"@ {
            r matches TokenSource::Given(t) && t@ == arg@
        } else if interactive {
            r is Prompt
        } else {
            r is Line
        },
{
    if !same(arg, "-") {
        return TokenSource::Given(arg.to_owned());
    }
    if interactive {
        TokenSource::Prompt
    } else {
        TokenSource::Line
    }
}

/// The token on a line that was read.
pub fn token_line(line: &str) -> (r: Result<String, LoginError>)
    ensures
        if trim_of(line@).len() == 0 {
            r matches Err(e) && e is NothingOnStdin
        } else {
            r matches Ok(t) && t@ == trim_of(line@)
        },
{
    let t = trim(line);
    if t.as_str().is_empty() {
        Err(LoginError::NothingOnStdin)
    } else {
        Ok(t)
    }
}

/// The refusal while the environment's token signs in.
pub open spec fn env_refuses<T>(bound: Seq<char>, r: Result<T, LoginError>) -> bool {
    r matches Err(LoginError::EnvSignsIn { bound: b }) && b@ == bound
}

/// Refuses a sign-in while the environment's token is what signs in: what would be granted or
/// stored would never be used.
pub fn refuse_while_env_signs_us_in(store: &CredsStore) -> (r: Result<(), LoginError>)
    ensures
        match store.env_v() {
            Some(b) => env_refuses(b.1, r),
            None => r is Ok,
        },
{
    match store.env_source() {
        Some(env) => Err(LoginError::EnvSignsIn { bound: env.server().to_owned() }),
        None => Ok(()),
    }
}

/// The install id of the sign-in: the one that is known, else one that was minted and has to be
/// persisted.
pub open spec fn install_id_ok(
    store: CredsStore,
    server: Seq<char>,
    persisted: Option<Seq<char>>,
    id: Seq<char>,
    minted: bool,
) -> bool {
    match known_id(held(store.entries(), server), persisted) {
        Some(known) => id == known && !minted,
        None => minted && exists|n: u128| id == #[trigger] id_text(n),
    }
}

/// A key that the user minted, as it would be stored.
pub open spec fn minted_key(token: Seq<char>, install_id: Seq<char>) -> CredsVal {
    CredsVal {
        access_token: token,
        refresh_token: None,
        expires_at: None,
        install_id,
    }
}

/// What is to be checked with the server before a minted key is stored, and whether its install
/// id is new.
pub fn store_token(
    store: &CredsStore,
    server: &str,
    token: &str,
    persisted: Option<&str>,
) -> (r: Result<(ServerCreds, bool), LoginError>)
    requires
        store.wf(),
    ensures
        match store.env_v() {
            Some(b) => env_refuses(b.1, r),
            None => {
                let t = trim_of(token@);
                if t.len() == 0 {
                    r matches Err(e) && e is NoToken
                } else if exists|i: int| is_first_bad(t, i) {
                    r matches Err(LoginError::BadCharacter(c)) && exists|i: int| #[trigger]
                        is_first_bad(t, i) && c@ == debug_char(t[i])
                } else {
                    r matches Ok(p) && p.0.view() == minted_key(t, p.0.install_id@)
                        && install_id_ok(
                        *store,
                        server@,
                        opt_ref(persisted),
                        p.0.install_id@,
                        p.1,
                    )
                }
            },
        },
{
    match refuse_while_env_signs_us_in(store) {
        Err(e) => return Err(e),
        Ok(_) => {},
    }
    let t = trim(token);
    if t.as_str().is_empty() {
        return Err(LoginError::NoToken);
    }
    let v = chars_of(t.as_str());
    for i in 0..v.len()
        invariant
            store.env_v() is None,
            v@ == t@,
            t@ == trim_of(token@),
            t@.len() > 0,
            forall|j: int| 0 <= j < i ==> is_token_char(#[trigger] t@[j]),
    {
        let c: char = v[i];
        if c < '\x21' || c > '\x7e' {
            assert(is_first_bad(t@, i as int));
            return Err(LoginError::BadCharacter(debug_of_char(c)));
        }
    }
    assert(!exists|i: int| is_first_bad(t@, i));
    match store.install_id(server, persisted) {
        Err(e) => Err(LoginError::Creds(e)),
        Ok(p) => {
            let (install_id, minted) = p;
            Ok(
                (
                    ServerCreds {
                        access_token: t,
                        refresh_token: None,
                        expires_at: None,
                        install_id,
                    },
                    minted,
                ),
            )
        },
    }
}

/// What is said once a minted key is stored.
pub open spec fn key_stored(server: Seq<char>, who: Seq<char>) -> Seq<NoticeVal> {
    seq![
        NoticeVal::Done("Signed in to "@ + server + " as "@ + who + "."@),
        NoticeVal::Detail(
            "The key is stored on this machine and is never refreshed: it works until you revoke it on the server."@,
        ),
    ]
}

/// Stores a minted key once the server has said whose it is. A key that it refuses is not stored.
pub fn token_checked(
    store: &mut CredsStore,
    server: &str,
    probe: ServerCreds,
    who: Result<&str, &str>,
) -> (r: Result<Vec<Notice>, LoginError>)
    requires
        old(store).wf(),
        old(store).env_v() is None,
    ensures
        final(store).wf(),
        final(store).env_v() is None,
        match who {
            Err(why) => (r matches Err(LoginError::TokenRefused(w)) && w@ == why@) && final(store).entries() == old(store).entries(),
            Ok(name) => (r matches Ok(n) && notices(n@) == key_stored(server@, name@)) && forall|
                k: Seq<char>,
            | #[trigger]
                held(final(store).entries(), k) == (if k == server@ {
                    Some(probe.view())
                } else {
                    held(old(store).entries(), k)
                }),
        },
{
    let name = match who {
        Ok(n) => n,
        Err(why) => return Err(LoginError::TokenRefused(why.to_owned())),
    };
    match store.put(server, probe) {
        Err(e) => return Err(LoginError::Creds(e)),
        Ok(_) => {},
    }
    let mut out: Vec<Notice> = Vec::new();
    out.push(Notice::Done(cat5("Signed in to ", server, " as ", name, ".")));
    out.push(
        Notice::Detail(
            "The key is stored on this machine and is never refreshed: it works until you revoke it on the server.".to_owned(),
        ),
    );
    assert(notices(out@) =~= key_stored(server@, name@));
    Ok(out)
}

/// A sign-in through the browser that has begun.
#[derive(Debug)]
pub struct Login {
    pub server: String,
    pub install_id: String,
    /// The install id is new and has to be persisted.
    pub minted: bool,
    pub round: AuthorizeRound,
}

/// Begins a sign-in through the browser, which is sent back to `port`. It is refused before
/// anything is opened where it would have no effect.
pub fn begin_login(store: &CredsStore, server: &str, port: u16, persisted: Option<&str>) -> (r:
    Result<Login, LoginError>)
    requires
        store.wf(),
    ensures
        match store.env_v() {
            Some(b) => env_refuses(b.1, r),
            None => r matches Ok(login) && {
                &&& login.server@ == server@
                &&& install_id_ok(
                    *store,
                    server@,
                    opt_ref(persisted),
                    login.install_id@,
                    login.minted,
                )
                &&& exists|v: Seq<u8>, s: Seq<u8>|
                    v.len() == VERIFIER_BYTES && s.len() == STATE_BYTES && login.round.view()
                        == #[trigger] round_of(server@, port, login.install_id@, v, s)
            },
        },
{
    match refuse_while_env_signs_us_in(store) {
        Err(e) => return Err(e),
        Ok(_) => {},
    }
    match store.install_id(server, persisted) {
        Err(e) => Err(LoginError::Creds(e)),
        Ok(p) => {
            let (install_id, minted) = p;
            let round = authorize_round(server, port, install_id.as_str());
            Ok(Login { server: server.to_owned(), install_id, minted, round })
        },
    }
}

/// What is said while the browser opens.
pub fn login_notices(round: &AuthorizeRound) -> (r: (Vec<Notice>, String))
    ensures
        notices(r.0@) == seq![
            NoticeVal::Heading("Sign in to docli"@),
            NoticeVal::Detail("Opening your browser..."@),
        ],
        r.1@ == "If it did not open, follow this link by hand:\n\n  "@ + round.url@ + "\n"@,
{
    let mut out: Vec<Notice> = Vec::new();
    out.push(Notice::Heading("Sign in to docli".to_owned()));
    out.push(Notice::Detail("Opening your browser...".to_owned()));
    assert(notices(out@) =~= seq![
        NoticeVal::Heading("Sign in to docli"@),
        NoticeVal::Detail("Opening your browser..."@),
    ]);
    let link = cat3(
        "If it did not open, follow this link by hand:\n\n  ",
        round.url.as_str(),
        "\n",
    );
    (out, link)
}

/// The answer to a connection that is not the callback.
pub const NOT_FOUND: &'static str =
    "HTTP/1.1 404 Not Found\r\nContent-Length: 0\r\nConnection: close\r\n\r\n";

/// The page after a callback that went well.
pub const CONNECTED_PAGE: &'static str =
    "<html><body><p>docli is connected - you can close this window.</p></body></html>";

/// The page after a callback that did not.
pub const FAILED_PAGE: &'static str =
    "<html><body><p>Sign-in failed - return to the terminal.</p></body></html>";

/// The answer that shows a page.
pub open spec fn page_reply(body: Seq<char>) -> Seq<char> {
    "HTTP/1.1 200 OK\r\nContent-Type: text/html; charset=utf-8\r\nContent-Length: "@ + decimal_of(
        utf8_len(body),
    ) + "\r\nConnection: close\r\n\r\n"@ + body
}

fn page_answer(body: &str) -> (r: String)
    ensures
        r@ == page_reply(body@),
{
    let n: usize = byte_len(body);
    let len = decimal(n as u64);
    cat4(
        "HTTP/1.1 200 OK\r\nContent-Type: text/html; charset=utf-8\r\nContent-Length: ",
        len.as_str(),
        "\r\nConnection: close\r\n\r\n",
        body,
    )
}

/// What becomes of a connection.
#[derive(Debug)]
pub enum Route {
    /// Nothing could be read: go on listening.
    Ignored,
    /// Not the callback: answer this, and go on listening.
    Stray(String),
    /// The callback: answer this, and stop listening.
    Callback { outcome: Result<(String, String), CallbackError>, reply: String },
}

/// The path of a request is exactly that of the callback.
pub open spec fn is_callback(path: Seq<char>) -> bool {
    path == "/callback"@ || begins(path, "/callback?"@)
}

/// The path that a request line asks for, empty where there is none.
pub open spec fn asked_path(line: Seq<char>) -> Seq<char> {
    match second_word_of(line) {
        Some(p) => p,
        None => Seq::empty(),
    }
}

/// What becomes of a connection whose request line was read, or could not be. A browser connects
/// ahead of time and asks for other things too: only the callback ends the wait.
pub fn route(line: Option<&str>) -> (r: Route)
    ensures
        match line {
            None => r is Ignored,
            Some(raw) => {
                let l = trim_end_of(raw@);
                if !is_callback(asked_path(l)) {
                    r matches Route::Stray(reply) && reply@ == NOT_FOUND@
                } else {
                    r matches Route::Callback { outcome, reply } && called_back(l, outcome)
                        && reply@ == page_reply(
                        if outcome is Ok {
                            CONNECTED_PAGE@
                        } else {
                            FAILED_PAGE@
                        },
                    )
                }
            },
        },
{
    let raw = match line {
        Some(l) => l,
        None => return Route::Ignored,
    };
    let l = trim_end(raw);
    let path = match second_word(l.as_str()) {
        Some(p) => p,
        None => {
            let none = String::new();
            assert(none@ =~= Seq::empty());
            none
        },
    };
    if !same(path.as_str(), "/callback") && !starts_with(path.as_str(), "/callback?") {
        return Route::Stray(NOT_FOUND.to_owned());
    }
    let outcome = parse_callback(l.as_str());
    let reply = match &outcome {
        Ok(_) => page_answer(CONNECTED_PAGE),
        Err(_) => page_answer(FAILED_PAGE),
    };
    Route::Callback { outcome, reply }
}

/// The code of a callback, where the callback belongs to this round.
pub fn accept(outcome: Result<(String, String), CallbackError>, round: &AuthorizeRound) -> (r:
    Result<String, LoginError>)
    ensures
        match outcome {
            Err(e) => r matches Err(LoginError::Callback(c)) && c == e,
            Ok(p) => if p.1@ == round.state@ {
                r matches Ok(code) && code@ == p.0@
            } else {
                r matches Err(e) && e is StateMismatch
            },
        },
{
    match outcome {
        Err(e) => Err(LoginError::Callback(e)),
        Ok(p) => {
            let (code, state) = p;
            if !same(state.as_str(), round.state.as_str()) {
                return Err(LoginError::StateMismatch);
            }
            Ok(code)
        },
    }
}

/// The form that redeems a code.
pub fn exchange_form(code: &str, round: &AuthorizeRound) -> (r: Vec<(String, String)>)
    ensures
        pairs(r@) == seq![
            ("grant_type"@, "authorization_code"@),
            ("code"@, code@),
            ("redirect_uri"@, round.redirect_uri@),
            ("client_id"@, CLI_CLIENT_ID@),
            ("code_verifier"@, round.verifier@),
        ],
{
    let mut form: Vec<(String, String)> = Vec::new();
    form.push(("grant_type".to_owned(), "authorization_code".to_owned()));
    form.push(("code".to_owned(), code.to_owned()));
    form.push(("redirect_uri".to_owned(), round.redirect_uri.clone()));
    form.push(("client_id".to_owned(), CLI_CLIENT_ID.to_owned()));
    form.push(("code_verifier".to_owned(), round.verifier.clone()));
    assert(pairs(form@) =~= seq![
        ("grant_type"@, "authorization_code"@),
        ("code"@, code@),
        ("redirect_uri"@, round.redirect_uri@),
        ("client_id"@, CLI_CLIENT_ID@),
        ("code_verifier"@, round.verifier@),
    ]);
    form
}

/// The reply to the redemption of a code.
#[derive(Debug)]
pub enum ExchangeReply {
    Refused { status: String, text: String },
    /// The tokens could not be read, and why.
    Unreadable(String),
    Tokens(TokenReply),
}

/// Stores what the redemption of a code brought.
pub fn run_login(store: &mut CredsStore, login: &Login, reply: ExchangeReply, now: i64) -> (r:
    Result<Notice, LoginError>)
    requires
        old(store).wf(),
        old(store).env_v() is None,
        reply matches ExchangeReply::Tokens(t) ==> i64::MIN <= now + t.expires_in <= i64::MAX,
    ensures
        final(store).wf(),
        final(store).env_v() is None,
        match reply {
            ExchangeReply::Refused { status, text } => {
                &&& r matches Err(LoginError::ExchangeFailed { status: s, text: t }) && s@
                    == status@ && t@ == text@
                &&& final(store).entries() == old(store).entries()
            },
            ExchangeReply::Unreadable(why) => {
                &&& r matches Err(LoginError::TokensUnreadable(w)) && w@ == why@
                &&& final(store).entries() == old(store).entries()
            },
            ExchangeReply::Tokens(t) => {
                &&& r matches Ok(n) && n.view() == NoticeVal::Done(
                    "Signed in - this device is connected to "@ + login.server@ + "."@,
                )
                &&& forall|k: Seq<char>| #[trigger]
                    held(final(store).entries(), k) == (if k == login.server@ {
                        Some(
                            rotated(
                                t.access_token@,
                                t.refresh_token@,
                                (now + t.expires_in) as i64,
                                login.install_id@,
                            ),
                        )
                    } else {
                        held(old(store).entries(), k)
                    })
            },
        },
{
    let t = match reply {
        ExchangeReply::Refused { status, text } => {
            return Err(LoginError::ExchangeFailed { status, text });
        },
        ExchangeReply::Unreadable(why) => {
            return Err(LoginError::TokensUnreadable(why));
        },
        ExchangeReply::Tokens(t) => t,
    };
    let fresh = ServerCreds {
        access_token: t.access_token,
        refresh_token: Some(t.refresh_token),
        expires_at: Some(now + t.expires_in),
        install_id: login.install_id.clone(),
    };
    match store.put(login.server.as_str(), fresh) {
        Err(e) => return Err(LoginError::Creds(e)),
        Ok(_) => {},
    }
    Ok(
        Notice::Done(
            cat3("Signed in - this device is connected to ", login.server.as_str(), "."),
        ),
    )
}

proof fn lemma_ink(s: Seq<char>, i: int, j: int)
    requires
        0 <= i <= j <= s.len(),
        forall|k: int| i <= k < j ==> is_white(#[trigger] s[k]),
        j < s.len() ==> !is_white(s[j]),
    ensures
        ink_from(s, i) == j,
    decreases j - i,
{
    if i < j {
        assert(is_white(s[i]));
        lemma_ink(s, i + 1, j);
    }
}

proof fn lemma_blank(s: Seq<char>, i: int, j: int)
    requires
        0 <= i <= j <= s.len(),
        forall|k: int| i <= k < j ==> !is_white(#[trigger] s[k]),
        j < s.len() ==> is_white(s[j]),
    ensures
        blank_from(s, i) == j,
    decreases j - i,
{
    if i < j {
        assert(!is_white(s[i]));
        lemma_blank(s, i + 1, j);
    }
}

/// The words of a line are what stands between its blanks: the first two of them are read, whatever
/// follows.
pub proof fn words_stand_between_blanks(
    first: Seq<char>,
    second: Seq<char>,
    gap: char,
    rest: Seq<char>,
)
    requires
        first.len() > 0,
        second.len() > 0,
        is_white(gap),
        forall|i: int| 0 <= i < first.len() ==> !is_white(#[trigger] first[i]),
        forall|i: int| 0 <= i < second.len() ==> !is_white(#[trigger] second[i]),
        rest.len() > 0 ==> is_white(rest[0]),
    ensures
        first_word_of(first + seq![gap] + second + rest) == Some(first),
        second_word_of(first + seq![gap] + second + rest) == Some(second),
        first_word_of(first) == Some(first),
        second_word_of(first) is None,
{
    let s = first + seq![gap] + second + rest;
    let a = first.len() as int;
    let c = a + 1;
    let d = c + second.len();
    assert forall|k: int| 0 <= k < a implies !is_white(#[trigger] s[k]) by {
        assert(s[k] == first[k]);
    }
    assert forall|k: int| c <= k < d implies !is_white(#[trigger] s[k]) by {
        assert(s[k] == second[k - c]);
    }
    assert(s[a] == gap);
    assert(s[0] == first[0] && s[c] == second[0]);
    assert(d < s.len() ==> s[d] == rest[0]);
    lemma_ink(s, 0, 0);
    lemma_blank(s, 0, a);
    lemma_ink(s, a, c);
    lemma_blank(s, c, d);
    assert(s.subrange(0, a) =~= first);
    assert(s.subrange(c, d) =~= second);
    assert(first[0] == first[0]);
    lemma_ink(first, 0, 0);
    lemma_blank(first, 0, a);
    lemma_ink(first, a, a);
    assert(first.subrange(0, a) =~= first);
}

proof fn lemma_field(name: Seq<char>, value: Seq<char>)
    requires
        !name.contains('='),
    ensures
        field_of(name + "="@ + value) == (name, value),
        field_of(name) == (name, Seq::<char>::empty()),
{
    reveal_strlit("=");
    let pair = name + "="@ + value;
    let at = name.len() as int;
    assert(pair.subrange(at, at + 1) =~= seq!['=']);
    assert(crate::text::occurs_at(pair, seq!['='], at));
    assert forall|j: int| 0 <= j < at implies !crate::text::occurs_at(pair, seq!['='], j) by {
        if crate::text::occurs_at(pair, seq!['='], j) {
            assert(pair.subrange(j, j + 1)[0] == name[j]);
        }
    }
    crate::text::lemma_first_is_found(pair, seq!['='], at);
    assert(pair.subrange(0, at) =~= name);
    assert(pair.subrange(at + 1, pair.len() as int) =~= value);
    if let Some(f) = crate::text::find_sub(name, seq!['=']) {
        crate::text::lemma_found_is_first(name, seq!['=']);
        assert(name.subrange(f, f + 1)[0] == name[f]);
        assert(name[f] == '=');
    }
}

proof fn lemma_last_value(fields: Seq<Seq<char>>, name: Seq<char>, n: nat, i: int)
    requires
        0 <= i < n <= fields.len(),
        field_of(fields[i]).0 == name,
        forall|j: int| i < j < n ==> field_of(#[trigger] fields[j]).0 != name,
    ensures
        last_value(fields, name, n) == Some(decoded_text(field_of(fields[i]).1)),
    decreases n,
{
    if i < n - 1 {
        assert(field_of(fields[n - 1]).0 != name);
        lemma_last_value(fields, name, (n - 1) as nat, i);
    }
}

proof fn lemma_no_value(fields: Seq<Seq<char>>, name: Seq<char>, n: nat)
    requires
        n <= fields.len(),
        forall|j: int| 0 <= j < n ==> field_of(#[trigger] fields[j]).0 != name,
    ensures
        last_value(fields, name, n) is None,
    decreases n,
{
    if n > 0 {
        assert(field_of(fields[n - 1]).0 != name);
        lemma_no_value(fields, name, (n - 1) as nat);
    }
}

/// A field of a query has the value that stands behind its name and the equals sign, decoded, where
/// no later field has the name; a query without a field of the name has none.
pub proof fn a_query_says_what_stands_behind_the_name(
    query: Seq<char>,
    name: Seq<char>,
    value: Seq<char>,
    i: int,
)
    requires
        !name.contains('='),
        -1 <= i < split_of(query, '&').len(),
        i >= 0 ==> split_of(query, '&')[i] == name + "="@ + value,
        forall|j: int|
            i < j < split_of(query, '&').len() ==> (#[trigger] split_of(query, '&')[j]) != name
                && !(name + "="@).is_prefix_of(split_of(query, '&')[j]),
    ensures
        i >= 0 ==> query_value(query, name) == Some(decoded_text(value)),
        i < 0 ==> query_value(query, name) is None,
{
    reveal_strlit("=");
    let fields = split_of(query, '&');
    lemma_field(name, value);
    assert forall|j: int| i < j < fields.len() implies field_of(#[trigger] fields[j]).0 != name by {
        let f = fields[j];
        if field_of(f).0 == name {
            if let Some(at) = crate::text::find_sub(f, seq!['=']) {
                crate::text::lemma_found_is_first(f, seq!['=']);
                assert(f.subrange(0, at) =~= name);
                assert(f.subrange(at, at + 1) =~= seq!['=']);
                assert(at == name.len());
                assert(f.subrange(at, at + 1)[0] == f[at]);
                assert(f[at] == '=');
                assert forall|k: int| 0 <= k < at implies f[k] == name[k] by {
                    assert(f.subrange(0, at)[k] == f[k]);
                }
                assert(f.subrange(0, (name + "="@).len() as int) =~= name + "="@);
                assert((name + "="@).is_prefix_of(f));
            }
        }
    }
    if i >= 0 {
        lemma_last_value(fields, name, fields.len(), i);
    } else {
        lemma_no_value(fields, name, fields.len());
    }
}

proof fn lemma_piece_chars(b: u8)
    ensures
        forall|i: int|
            0 <= i < url_piece(b).len() ==> {
                let c = #[trigger] url_piece(b)[i];
                c != '&' && c != '=' && !is_white(c)
            },
{
    let hi: u8 = (b / 16) as u8;
    let lo: u8 = (b % 16) as u8;
    assert(hi < 16 && lo < 16);
}

proof fn lemma_encoded_chars(b: Seq<u8>)
    ensures
        forall|i: int|
            0 <= i < url_bytes(b).len() ==> {
                let c = #[trigger] url_bytes(b)[i];
                c != '&' && c != '=' && !is_white(c)
            },
    decreases b.len(),
{
    if b.len() > 0 {
        let p = url_piece(b[0]);
        let r = url_bytes(b.drop_first());
        lemma_piece_chars(b[0]);
        lemma_encoded_chars(b.drop_first());
        assert forall|i: int| 0 <= i < url_bytes(b).len() implies {
            let c = #[trigger] url_bytes(b)[i];
            c != '&' && c != '=' && !is_white(c)
        } by {
            if i < p.len() {
                assert(url_bytes(b)[i] == p[i]);
            } else {
                assert(url_bytes(b)[i] == r[i - p.len()]);
            }
        }
    }
}

/// What a browser brings back comes out as it went in: of a callback that carries a code and a state,
/// each encoded as addresses are, the code and the state are read from exactly the bytes of each.
pub proof fn a_callback_gives_back_its_code_and_state(
    code: Seq<char>,
    state: Seq<char>,
    rest: Seq<char>,
    r: Result<(String, String), CallbackError>,
)
    requires
        rest.len() > 0 ==> is_white(rest[0]),
        called_back(
            "GET"@ + seq![' '] + ("/callback?code="@ + url_encoded(code) + "&state="@
                + url_encoded(state)) + rest,
            r,
        ),
    ensures
        r matches Ok(p) && p.0@ == lossy_text(encode_utf8(code)) && p.1@ == lossy_text(
            encode_utf8(state),
        ),
{
    reveal_strlit("GET");
    reveal_strlit("/callback?code=");
    reveal_strlit("/callback?");
    reveal_strlit("&state=");
    reveal_strlit("code");
    reveal_strlit("state");
    reveal_strlit("error");
    reveal_strlit("=");
    let c = url_encoded(code);
    let s = url_encoded(state);
    lemma_encoded_chars(encode_utf8(code));
    lemma_encoded_chars(encode_utf8(state));
    let path = "/callback?code="@ + c + "&state="@ + s;
    let a = "code"@ + "="@ + c;
    let b = "state"@ + "="@ + s;
    let query = a + seq!['&'] + b;
    assert(path =~= "/callback?"@ + query);
    assert forall|i: int| 0 <= i < path.len() implies !is_white(#[trigger] path[i]) by {
        let n = "/callback?code="@.len() as int;
        let m = n + c.len();
        let k = m + "&state="@.len();
        if i < n {
            assert(path[i] == "/callback?code="@[i]);
        } else if i < m {
            assert(path[i] == c[i - n]);
        } else if i < k {
            assert(path[i] == "&state="@[i - m]);
        } else {
            assert(path[i] == s[i - k]);
        }
    }
    words_stand_between_blanks("GET"@, path, ' ', rest);
    crate::text::a_prefix_comes_off_where_it_stands(path, "/callback?"@, query);
    assert(!a.contains('&')) by {
        if a.contains('&') {
            let i = choose|i: int| 0 <= i < a.len() && a[i] == '&';
            if i >= 5 {
                assert(a[i] == c[i - 5]);
            }
        }
    }
    assert(!b.contains('&')) by {
        if b.contains('&') {
            let i = choose|i: int| 0 <= i < b.len() && b[i] == '&';
            if i >= 6 {
                assert(b[i] == s[i - 6]);
            }
        }
    }
    crate::text::the_first_piece_stands_before_the_separator(a, '&', b);
    crate::text::the_first_piece_stands_before_the_separator(b, '&', Seq::empty());
    let fields = split_of(query, '&');
    assert(fields =~= seq![a, b]);
    assert(a[0] == 'c' && b[0] == 's');
    assert forall|name: Seq<char>, j: int|
        0 <= j < fields.len() && name.len() > 0 && (#[trigger] fields[j])[0]
            != name[0] implies fields[j] != name && !(#[trigger] (name + "="@)).is_prefix_of(
        fields[j],
    ) by {
        if (name + "="@).is_prefix_of(fields[j]) {
            assert(fields[j][0] == (name + "="@)[0]);
        }
    }
    assert("error"@[0] == 'e' && "code"@[0] == 'c' && "state"@[0] == 's');
    assert forall|j: int| -1 < j < fields.len() implies (#[trigger] fields[j]) != "error"@
        && !("error"@ + "="@).is_prefix_of(fields[j]) by {
        assert(fields[j][0] != "error"@[0]);
    }
    a_query_says_what_stands_behind_the_name(query, "error"@, Seq::empty(), -1);
    assert forall|j: int| 0 < j < fields.len() implies (#[trigger] fields[j]) != "code"@ && !(
    "code"@ + "="@).is_prefix_of(fields[j]) by {
        assert(fields[j][0] != "code"@[0]);
    }
    a_query_says_what_stands_behind_the_name(query, "code"@, c, 0);
    a_query_says_what_stands_behind_the_name(query, "state"@, s, 1);
    decoding_undoes_encoding(code);
    decoding_undoes_encoding(state);
}

/// Only a request for the callback, with or without a query, ends the wait.
pub proof fn only_a_request_for_the_callback_counts(method: Seq<char>, path: Seq<char>, rest: Seq<char>)
    requires
        method.len() > 0,
        path.len() > 0,
        forall|i: int| 0 <= i < method.len() ==> !is_white(#[trigger] method[i]),
        forall|i: int| 0 <= i < path.len() ==> !is_white(#[trigger] path[i]),
        rest.len() > 0 ==> is_white(rest[0]),
    ensures
        is_callback(asked_path(method + seq![' '] + path + rest)) <==> path == "/callback"@ || (
        "/callback?"@).is_prefix_of(path),
        !is_callback(asked_path(method)),
{
    reveal_strlit("/callback");
    words_stand_between_blanks(method, path, ' ', rest);
    if ("/callback?"@).is_prefix_of(path) {
        assert(path.subrange(0, "/callback?"@.len() as int) =~= "/callback?"@);
    }
    if begins(path, "/callback?"@) {
        assert(path.subrange(0, "/callback?"@.len() as int) =~= "/callback?"@);
    }
    reveal_strlit("/callback?");
}

/// The page that the browser is shown comes with the number of its bytes.
pub proof fn a_page_comes_with_its_length(body: Seq<char>)
    ensures
        page_reply(body)
            == "HTTP/1.1 200 OK\r\nContent-Type: text/html; charset=utf-8\r\nContent-Length: "@
            + decimal_of(vstd::utf8::encode_utf8(body).len()) + "\r\nConnection: close\r\n\r\n"@
            + body,
{
}

/// A sign-in round asks for a code for this program, to be sent back to its own port, under the state
/// that it will compare and the digest of the verifier that it will show.
pub proof fn a_round_asks_for_what_it_will_compare(
    server: Seq<char>,
    port: u16,
    install_id: Seq<char>,
    verifier_bytes: Seq<u8>,
    state_bytes: Seq<u8>,
)
    ensures
        ({
            let r = round_of(server, port, install_id, verifier_bytes, state_bytes);
            &&& r.verifier == url64_of(verifier_bytes)
            &&& r.state == url64_of(state_bytes)
            &&& r.redirect_uri == "http://127.0.0.1:"@ + decimal_of(port as nat) + "/callback"@
            &&& r.url == server + "/api/oauth/authorize?response_type=code&client_id="@
                + url_encoded("docli-cli"@) + "&redirect_uri="@ + url_encoded(r.redirect_uri)
                + "&state="@ + url_encoded(r.state) + "&code_challenge="@ + url_encoded(
                url64_of(sha256_of(encode_utf8(r.verifier))),
            ) + "&code_challenge_method=S256&scope=sync&resource="@ + url_encoded(
                server + "/api/sync"@,
            ) + "&install_id="@ + url_encoded(install_id)
        }),
{
}

/// A key that the user minted is stored as it is, without anything to renew it by and without an
/// expiry.
pub proof fn a_minted_key_is_stored_as_it_is(token: Seq<char>, install_id: Seq<char>)
    ensures
        ({
            let c = minted_key(token, install_id);
            &&& c.access_token == token
            &&& c.refresh_token is None
            &&& c.expires_at is None
            &&& c.install_id == install_id
        }),
{
}

/// A sign-in keeps the install id of the one before it, else the persisted one; only where there is
/// neither is one minted, and then it is to be persisted.
pub proof fn an_install_id_is_kept(
    store: CredsStore,
    server: Seq<char>,
    persisted: Option<Seq<char>>,
    id: Seq<char>,
    minted: bool,
)
    requires
        install_id_ok(store, server, persisted, id, minted),
    ensures
        held(store.entries(), server) matches Some(c) ==> id == c.install_id && !minted,
        held(store.entries(), server) is None && persisted is Some && trim_of(persisted->0).len()
            > 0 ==> id == trim_of(persisted->0) && !minted,
        held(store.entries(), server) is None && (persisted is None || trim_of(persisted->0).len()
            == 0) ==> minted,
{
}

/// A callback that does not come by `GET`, or asks for another path, or says an error, or lacks the
/// code or the state, is refused for just that.
pub proof fn a_callback_is_refused_for_what_is_wrong_with_it(
    method: Seq<char>,
    path: Seq<char>,
    query: Seq<char>,
    rest: Seq<char>,
    r: Result<(String, String), CallbackError>,
)
    requires
        method.len() > 0,
        path.len() > 0,
        forall|i: int| 0 <= i < method.len() ==> !is_white(#[trigger] method[i]),
        forall|i: int| 0 <= i < path.len() ==> !is_white(#[trigger] path[i]),
        rest.len() > 0 ==> is_white(rest[0]),
        called_back(method + seq![' '] + path + rest, r),
    ensures
        method != "GET"@ ==> (r matches Err(CallbackError::UnexpectedMethod(m)) && m@ == method),
        method == "GET"@ && !("/callback?"@).is_prefix_of(path) ==> (r matches Err(
            CallbackError::UnexpectedPath(p),
        ) && p@ == path),
        method == "GET"@ && path == "/callback?"@ + query ==> {
            &&& query_value(query, "error"@) matches Some(why) ==> (r matches Err(
                CallbackError::Refused(w),
            ) && w@ == why)
            &&& query_value(query, "error"@) is None && query_value(query, "code"@) is None ==> (
            r matches Err(e) && e is NoCode)
            &&& query_value(query, "error"@) is None && query_value(query, "code"@) is Some
                && query_value(query, "state"@) is None ==> (r matches Err(e) && e is NoState)
        },
{
    words_stand_between_blanks(method, path, ' ', rest);
    let pre = "/callback?"@;
    if pre.is_prefix_of(path) {
        assert(path.subrange(0, pre.len() as int) =~= pre);
    }
    if after_prefix(path, pre) is Some {
        assert(path.subrange(0, pre.len() as int) =~= pre);
    }
    if path == pre + query {
        assert(path.subrange(0, pre.len() as int) =~= pre);
        assert(path.subrange(pre.len() as int, path.len() as int) =~= query);
    }
}

/// In an address a letter, a digit and each of `-._~` stands for itself, and any other byte is a
/// percent sign with its two digits, the higher first.
pub proof fn an_address_escapes_all_but_plain_characters(b: u8, rest: Seq<u8>)
    ensures
        (65 <= b && b <= 90) || (97 <= b && b <= 122) || (48 <= b && b <= 57) || b == 45 || b == 46
            || b == 95 || b == 126 ==> url_bytes(seq![b] + rest) == seq![b as char] + url_bytes(
            rest,
        ),
        !((65 <= b && b <= 90) || (97 <= b && b <= 122) || (48 <= b && b <= 57) || b == 45 || b == 46
            || b == 95 || b == 126) ==> url_bytes(seq![b] + rest).len() == 3 + url_bytes(rest).len()
            && url_bytes(seq![b] + rest)[0] == '%' && hex_value(
            url_bytes(seq![b] + rest)[1] as u8,
        ) == Some((b / 16) as u8) && hex_value(url_bytes(seq![b] + rest)[2] as u8) == Some(
            (b % 16) as u8,
        ),
{
    let s = seq![b] + rest;
    assert(s[0] == b);
    assert(s.drop_first() =~= rest);
}

} // verus!
