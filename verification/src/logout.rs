//! `docli logout`: hand the sign-in back to the server, then forget it here whatever the server
//! said.
//!
//! A sign-in that appeared in the meantime stays. What was minted by hand is not ours to revoke:
//! it is forgotten, and the user is told that it still works. The install id survives.

use vstd::prelude::*;

use crate::creds::held;
use crate::creds::identity;
use crate::creds::opt_creds;
use crate::creds::CredsError;
use crate::creds::CredsStore;
use crate::creds::CredsVal;
use crate::creds::EnvToken;
use crate::creds::ServerCreds;
use crate::creds::TOKEN_VAR;
use crate::http::CLI_CLIENT_ID;
use crate::report::notices;
use crate::report::Notice;
use crate::report::NoticeVal;
use crate::text::cat2;
use crate::text::cat3;
use crate::text::opt_str;
use crate::text::pairs;
use crate::text::same;
use crate::text::strs;

verus! {

/// What became of the sign-in to one server.
#[derive(Clone, Copy, Debug, PartialEq, Eq, Structural)]
pub enum Fate {
    /// There was none.
    NotSignedIn,
    /// Another one appeared while the server was asked, and was kept.
    Superseded { minted: bool, revoked: bool },
    /// A minted key was forgotten. It still works.
    KeyRemoved,
    /// The server confirmed, and it was forgotten.
    Revoked,
    /// It was forgotten, and the server did not confirm.
    Unconfirmed,
}

/// The token that is offered to the server, which a minted key has none of.
pub fn offered(creds: &ServerCreds) -> (r: Option<String>)
    ensures
        opt_str(r) == creds.view().refresh_token,
{
    crate::text::clone_opt(&creds.refresh_token)
}

/// The path that tokens are revoked at.
pub const REVOKE_PATH: &'static str = "/api/oauth/revoke";

/// The form that revokes a token.
pub fn revoke_form(refresh_token: &str) -> (r: Vec<(String, String)>)
    ensures
        pairs(r@) == seq![
            ("token"@, refresh_token@),
            ("token_type_hint"@, "refresh_token"@),
            ("client_id"@, CLI_CLIENT_ID@),
        ],
{
    let mut form: Vec<(String, String)> = Vec::new();
    form.push(("token".to_owned(), refresh_token.to_owned()));
    form.push(("token_type_hint".to_owned(), "refresh_token".to_owned()));
    form.push(("client_id".to_owned(), CLI_CLIENT_ID.to_owned()));
    assert(pairs(form@) =~= seq![
        ("token"@, refresh_token@),
        ("token_type_hint"@, "refresh_token"@),
        ("client_id"@, CLI_CLIENT_ID@),
    ]);
    form
}

/// The servers to sign out of: the one that is named, or all.
pub fn targets(store: &CredsStore, server: &str, all: bool) -> (r: Vec<String>)
    ensures
        strs(r@) == if all {
            Seq::new(store.entries().len(), |i: int| store.entries()[i].0)
        } else {
            seq![server@]
        },
{
    if all {
        return store.servers();
    }
    let mut one: Vec<String> = Vec::new();
    one.push(server.to_owned());
    assert(strs(one@) =~= seq![server@]);
    one
}

/// What becomes of a sign-in: `found` was there before the server was asked, `confirmed` says
/// what it answered, and `removed` whether `found` was still there afterwards.
pub open spec fn fate_of(found: Option<CredsVal>, confirmed: bool, removed: bool) -> Fate {
    match found {
        None => Fate::NotSignedIn,
        Some(c) => {
            let minted = c.refresh_token is None;
            let revoked = confirmed && !minted;
            if !removed {
                Fate::Superseded { minted, revoked }
            } else if minted {
                Fate::KeyRemoved
            } else if revoked {
                Fate::Revoked
            } else {
                Fate::Unconfirmed
            }
        },
    }
}

/// The store still holds the sign-in that was found.
pub open spec fn still_held(store: CredsStore, target: Seq<char>, found: Option<CredsVal>) -> bool {
    found is Some && held(store.entries(), target) is Some && identity(
        held(store.entries(), target)->0,
    ) == identity(found->0)
}

/// Forgets the sign-in that was found, unless another has taken its place, and says what became
/// of it. What the server answered decides nothing here but the words.
pub fn sign_out(
    store: &mut CredsStore,
    target: &str,
    found: &Option<ServerCreds>,
    confirmed: bool,
) -> (r: Result<Fate, CredsError>)
    requires
        old(store).wf(),
        old(store).env_v() is None,
    ensures
        final(store).wf(),
        final(store).env_v() is None,
        r matches Ok(f) && f == fate_of(
            opt_creds(*found),
            confirmed,
            still_held(*old(store), target@, opt_creds(*found)),
        ),
        forall|k: Seq<char>| #[trigger]
            held(final(store).entries(), k) == (if k == target@ && still_held(
                *old(store),
                target@,
                opt_creds(*found),
            ) {
                None
            } else {
                held(old(store).entries(), k)
            }),
{
    let creds = match found {
        Some(c) => c,
        None => return Ok(Fate::NotSignedIn),
    };
    let (token, minted) = match &creds.refresh_token {
        Some(t) => (t.clone(), false),
        None => (creds.access_token.clone(), true),
    };
    let revoked: bool = confirmed && !minted;
    match store.remove_if_current(target, token.as_str()) {
        Err(e) => Err(e),
        Ok(removed) => {
            if !removed {
                Ok(Fate::Superseded { minted, revoked })
            } else if minted {
                Ok(Fate::KeyRemoved)
            } else if revoked {
                Ok(Fate::Revoked)
            } else {
                Ok(Fate::Unconfirmed)
            }
        },
    }
}

/// What is said where the environment's token still signs in.
pub open spec fn env_notice(env: Option<EnvToken>) -> Seq<NoticeVal> {
    match env {
        Some(e) => seq![
            NoticeVal::Warn(
                TOKEN_VAR@ + " is still set in this environment and still signs you in to "@
                    + e.server_v()
                    + ". Unset it to finish signing out; revoke the token itself in the access list on "@
                    + e.server_v() + "."@,
            ),
        ],
        None => Seq::empty(),
    }
}

/// What is said where the environment's token still signs in: forgetting what is stored does not
/// touch it.
pub fn warn_env_token_still_in_force(env: &Option<EnvToken>) -> (r: Vec<Notice>)
    ensures
        notices(r@) == env_notice(*env),
{
    let mut out: Vec<Notice> = Vec::new();
    if let Some(e) = env {
        let head = cat3(
            TOKEN_VAR,
            " is still set in this environment and still signs you in to ",
            e.server(),
        );
        let tail = cat3(
            ". Unset it to finish signing out; revoke the token itself in the access list on ",
            e.server(),
            ".",
        );
        let text = cat2(head.as_str(), tail.as_str());
        assert(text@ =~= env_notice(*env)[0]->Warn_0);
        out.push(Notice::Warn(text));
    }
    assert(notices(out@) =~= env_notice(*env));
    out
}

/// What is said of the sign-in to one server.
pub open spec fn fate_notices(target: Seq<char>, all: bool, fate: Fate) -> Seq<NoticeVal> {
    match fate {
        Fate::NotSignedIn => if all {
            Seq::empty()
        } else {
            seq![NoticeVal::Done("This device was not signed in to "@ + target + "."@)]
        },
        Fate::Superseded { minted, revoked } => seq![
            NoticeVal::Warn(
                target + ": a new sign-in appeared while this one was running - "@ + if revoked {
                    "the previous token was revoked"@
                } else {
                    "the previous token could NOT be revoked and may still be live"@
                }
                    + ", and the new one was kept. Run the command again to drop that one too."@,
            ),
        ],
        Fate::KeyRemoved => seq![
            NoticeVal::Done(
                "Signed out of "@ + target + " - the stored key was removed from this device."@,
            ),
            NoticeVal::Warn(
                "That key is still live on the server. Revoke it in the access list on "@ + target
                    + " if you no longer want it to work."@,
            ),
        ],
        Fate::Revoked => seq![
            NoticeVal::Done("Signed out of "@ + target + " - tokens revoked."@),
        ],
        Fate::Unconfirmed => seq![
            NoticeVal::Done("Signed out of "@ + target + " - credentials removed."@),
            NoticeVal::Warn(
                "The server did not confirm the revocation. If this device is lost, disconnect it in the access list on "@
                    + target + "."@,
            ),
        ],
    }
}

fn fate_lines(target: &str, all: bool, fate: Fate) -> (r: Vec<Notice>)
    ensures
        notices(r@) == fate_notices(target@, all, fate),
{
    let mut out: Vec<Notice> = Vec::new();
    match fate {
        Fate::NotSignedIn => {
            if !all {
                out.push(Notice::Done(cat3("This device was not signed in to ", target, ".")));
            }
        },
        Fate::Superseded { minted: _, revoked } => {
            let what = if revoked {
                "the previous token was revoked"
            } else {
                "the previous token could NOT be revoked and may still be live"
            };
            let head = cat3(
                target,
                ": a new sign-in appeared while this one was running - ",
                what,
            );
            out.push(
                Notice::Warn(
                    cat2(
                        head.as_str(),
                        ", and the new one was kept. Run the command again to drop that one too.",
                    ),
                ),
            );
        },
        Fate::KeyRemoved => {
            out.push(
                Notice::Done(
                    cat3(
                        "Signed out of ",
                        target,
                        " - the stored key was removed from this device.",
                    ),
                ),
            );
            out.push(
                Notice::Warn(
                    cat3(
                        "That key is still live on the server. Revoke it in the access list on ",
                        target,
                        " if you no longer want it to work.",
                    ),
                ),
            );
        },
        Fate::Revoked => {
            out.push(Notice::Done(cat3("Signed out of ", target, " - tokens revoked.")));
        },
        Fate::Unconfirmed => {
            out.push(Notice::Done(cat3("Signed out of ", target, " - credentials removed.")));
            out.push(
                Notice::Warn(
                    cat3(
                        "The server did not confirm the revocation. If this device is lost, disconnect it in the access list on ",
                        target,
                        ".",
                    ),
                ),
            );
        },
    }
    assert(notices(out@) =~= fate_notices(target@, all, fate));
    out
}

/// What became of each server.
pub open spec fn outcomes_of(v: Seq<(String, Fate)>) -> Seq<(Seq<char>, Fate)> {
    Seq::new(v.len(), |i: int| (v[i].0@, v[i].1))
}

/// What is said of the first `n` servers.
pub open spec fn said_of(outcomes: Seq<(Seq<char>, Fate)>, all: bool, n: nat) -> Seq<NoticeVal>
    decreases n,
{
    if n == 0 {
        Seq::empty()
    } else {
        said_of(outcomes, all, (n - 1) as nat) + fate_notices(
            outcomes[n - 1].0,
            all,
            outcomes[n - 1].1,
        )
    }
}

/// The first `n` servers that there was a sign-in to.
pub open spec fn signed_out(outcomes: Seq<(Seq<char>, Fate)>, n: nat) -> Seq<Seq<char>>
    decreases n,
{
    if n == 0 {
        Seq::empty()
    } else {
        let before = signed_out(outcomes, (n - 1) as nat);
        if outcomes[n - 1].1 is NotSignedIn {
            before
        } else {
            before.push(outcomes[n - 1].0)
        }
    }
}

/// The sign-in was a connection that the server lists.
pub open spec fn was_grant(fate: Fate) -> bool {
    match fate {
        Fate::NotSignedIn => false,
        Fate::Superseded { minted, revoked } => !minted,
        Fate::KeyRemoved => false,
        Fate::Revoked => true,
        Fate::Unconfirmed => true,
    }
}

/// A token may still be live that should not be.
pub open spec fn is_unconfirmed(fate: Fate) -> bool {
    match fate {
        Fate::Superseded { minted, revoked } => !revoked,
        Fate::Unconfirmed => true,
        _ => false,
    }
}

pub open spec fn any_grant(outcomes: Seq<(Seq<char>, Fate)>) -> bool {
    exists|i: int| 0 <= i < outcomes.len() && was_grant((#[trigger] outcomes[i]).1)
}

pub open spec fn any_unconfirmed(outcomes: Seq<(Seq<char>, Fate)>) -> bool {
    exists|i: int| 0 <= i < outcomes.len() && is_unconfirmed((#[trigger] outcomes[i]).1)
}

/// The command that signs in again. The origin is named where it is known and is not the default.
pub open spec fn again(
    server: Seq<char>,
    all: bool,
    gone: Seq<Seq<char>>,
) -> Seq<char> {
    let origin = if !all {
        Some(server)
    } else if gone.len() == 1 {
        Some(gone[0])
    } else {
        None
    };
    match origin {
        Some(o) => if o != "https://docli.ru"@ {
            "docli login --server "@ + o
        } else {
            "docli login"@
        },
        None => "docli login"@,
    }
}

/// All that is said.
pub open spec fn said(
    server: Seq<char>,
    all: bool,
    suggest_next: bool,
    outcomes: Seq<(Seq<char>, Fate)>,
    env: Option<EnvToken>,
) -> Seq<NoticeVal> {
    let gone = signed_out(outcomes, outcomes.len());
    if outcomes.len() == 0 {
        seq![NoticeVal::Done("No active connections."@)] + env_notice(env)
    } else if gone.len() == 0 {
        said_of(outcomes, all, outcomes.len())
    } else {
        said_of(outcomes, all, outcomes.len()) + (if any_grant(outcomes) {
            seq![
                NoticeVal::Detail(
                    "The connection stays listed in the access list until you disconnect it there."@,
                ),
            ]
        } else {
            Seq::empty()
        }) + env_notice(env) + (if suggest_next {
            seq![NoticeVal::Next("Sign in again: "@ + again(server, all, gone))]
        } else {
            Seq::empty()
        })
    }
}

fn grant(fate: Fate) -> (r: bool)
    ensures
        r == was_grant(fate),
{
    match fate {
        Fate::NotSignedIn => false,
        Fate::Superseded { minted, revoked: _ } => !minted,
        Fate::KeyRemoved => false,
        Fate::Revoked => true,
        Fate::Unconfirmed => true,
    }
}

fn doubtful(fate: Fate) -> (r: bool)
    ensures
        r == is_unconfirmed(fate),
{
    match fate {
        Fate::Superseded { minted: _, revoked } => !revoked,
        Fate::Unconfirmed => true,
        _ => false,
    }
}

fn login_again(server: &str, all: bool, gone: &Vec<String>) -> (r: String)
    ensures
        r@ == again(server@, all, strs(gone@)),
{
    let origin: Option<&str> = if !all {
        Some(server)
    } else if gone.len() == 1 {
        assert(strs(gone@)[0] == gone@[0]@);
        Some(gone[0].as_str())
    } else {
        None
    };
    match origin {
        Some(o) => if !same(o, "https://docli.ru") {
            cat2("docli login --server ", o)
        } else {
            "docli login".to_owned()
        },
        None => "docli login".to_owned(),
    }
}

/// All that is said, and the exit code: 1 where a token may still be live that should not be.
/// `suggest_next` is off where the program itself is about to go.
pub fn run(
    server: &str,
    all: bool,
    suggest_next: bool,
    outcomes: &Vec<(String, Fate)>,
    env: &Option<EnvToken>,
) -> (r: (Vec<Notice>, i32))
    ensures
        notices(r.0@) == said(server@, all, suggest_next, outcomes_of(outcomes@), *env),
        r.1 == (if any_unconfirmed(outcomes_of(outcomes@)) {
            1i32
        } else {
            0i32
        }),
{
    let ghost os = outcomes_of(outcomes@);
    let mut out: Vec<Notice> = Vec::new();
    assert(notices(out@) =~= Seq::empty());
    let mut warning = warn_env_token_still_in_force(env);
    let ghost warned = notices(warning@);
    if outcomes.len() == 0 {
        out.push(Notice::Done("No active connections.".to_owned()));
        out.append(&mut warning);
        assert(notices(out@) =~= seq![NoticeVal::Done("No active connections."@)] + warned);
        return (out, 0);
    }
    let mut gone: Vec<String> = Vec::new();
    assert(strs(gone@) =~= Seq::empty());
    let mut listed: bool = false;
    let mut doubt: bool = false;
    for i in 0..outcomes.len()
        invariant
            os == outcomes_of(outcomes@),
            notices(out@) == said_of(os, all, i as nat),
            strs(gone@) == signed_out(os, i as nat),
            listed <==> exists|k: int| 0 <= k < i && was_grant((#[trigger] os[k]).1),
            doubt <==> exists|k: int| 0 <= k < i && is_unconfirmed((#[trigger] os[k]).1),
            forall|k: int|
                0 <= k < i && (was_grant((#[trigger] os[k]).1) || is_unconfirmed(os[k].1))
                    ==> gone@.len() > 0,
    {
        let ghost before = notices(out@);
        let ghost left = strs(gone@);
        let fate: Fate = outcomes[i].1;
        assert(os[i as int] == (outcomes@[i as int].0@, fate));
        let mut lines = fate_lines(outcomes[i].0.as_str(), all, fate);
        let ghost told = notices(lines@);
        out.append(&mut lines);
        assert(notices(out@) =~= before + told);
        let none: bool = match fate {
            Fate::NotSignedIn => true,
            _ => false,
        };
        if !none {
            gone.push(outcomes[i].0.clone());
            assert(strs(gone@) =~= left.push(os[i as int].0));
        }
        if grant(fate) {
            assert(was_grant(os[i as int].1));
            listed = true;
        }
        if doubtful(fate) {
            assert(is_unconfirmed(os[i as int].1));
            doubt = true;
        }
    }
    if gone.len() == 0 {
        assert(!any_unconfirmed(os));
        return (out, 0);
    }
    let ghost before = notices(out@);
    if listed {
        out.push(
            Notice::Detail(
                "The connection stays listed in the access list until you disconnect it there.".to_owned(),
            ),
        );
    }
    let ghost closing = if any_grant(os) {
        seq![
            NoticeVal::Detail(
                "The connection stays listed in the access list until you disconnect it there."@,
            ),
        ]
    } else {
        Seq::empty()
    };
    assert(notices(out@) =~= before + closing);
    out.append(&mut warning);
    assert(notices(out@) =~= before + closing + warned);
    if suggest_next {
        let command = login_again(server, all, &gone);
        out.push(Notice::Next(cat2("Sign in again: ", command.as_str())));
    }
    assert(notices(out@) =~= said(server@, all, suggest_next, os, *env));
    let code: i32 = if doubt {
        1
    } else {
        0
    };
    (out, code)
}

/// Signing out of every server this machine holds a sign-in for.
pub fn all(outcomes: &Vec<(String, Fate)>, env: &Option<EnvToken>) -> (r: (Vec<Notice>, i32))
    ensures
        notices(r.0@) == said(Seq::empty(), true, true, outcomes_of(outcomes@), *env),
        r.1 == (if any_unconfirmed(outcomes_of(outcomes@)) {
            1i32
        } else {
            0i32
        }),
{
    proof {
        reveal_strlit("");
        assert(""@ =~= Seq::empty());
    }
    run("", true, true, outcomes, env)
}

/// The same, without a word on how to sign in again: for the removal of the program itself.
pub fn all_quiet(outcomes: &Vec<(String, Fate)>, env: &Option<EnvToken>) -> (r: (
    Vec<Notice>,
    i32,
))
    ensures
        notices(r.0@) == said(Seq::empty(), true, false, outcomes_of(outcomes@), *env),
        r.1 == (if any_unconfirmed(outcomes_of(outcomes@)) {
            1i32
        } else {
            0i32
        }),
{
    proof {
        reveal_strlit("");
        assert(""@ =~= Seq::empty());
    }
    run("", true, false, outcomes, env)
}

/// What becomes of a sign-in follows from what it was, what the server answered and whether it was
/// still there.
pub proof fn a_fate_says_what_happened(found: Option<CredsVal>, confirmed: bool, removed: bool)
    ensures
        ({
            let f = fate_of(found, confirmed, removed);
            let key = found is Some && found->0.refresh_token is None;
            let tokens = found is Some && found->0.refresh_token is Some;
            &&& f is NotSignedIn <==> found is None
            &&& f is Superseded <==> found is Some && !removed
            &&& f is KeyRemoved <==> key && removed
            &&& f is Revoked <==> tokens && confirmed && removed
            &&& f is Unconfirmed <==> tokens && !confirmed && removed
            &&& f matches Fate::Superseded { minted, revoked } ==> (minted <==> key) && (revoked
                <==> tokens && confirmed)
        }),
{
}

/// A sign-in is still the one that was found where what renews it is the same, or, of two keys that
/// nothing renews, the key; a server that nothing is held for holds none.
pub proof fn a_sign_in_is_still_held_under_the_same_token(
    store: CredsStore,
    target: Seq<char>,
    was: CredsVal,
)
    ensures
        held(store.entries(), target) is None ==> !still_held(store, target, Some(was)),
        held(store.entries(), target) matches Some(now) ==> {
            &&& now.refresh_token is Some && was.refresh_token is Some ==> (still_held(
                store,
                target,
                Some(was),
            ) <==> now.refresh_token->0 == was.refresh_token->0)
            &&& now.refresh_token is None && was.refresh_token is None ==> (still_held(
                store,
                target,
                Some(was),
            ) <==> now.access_token == was.access_token)
        },
        !still_held(store, target, None),
{
}

proof fn lemma_said_of(
    outcomes: Seq<(Seq<char>, Fate)>,
    all: bool,
    n: nat,
    k: int,
    x: NoticeVal,
)
    requires
        0 <= k < n <= outcomes.len(),
        fate_notices(outcomes[k].0, all, outcomes[k].1).contains(x),
    ensures
        said_of(outcomes, all, n).contains(x),
    decreases n,
{
    let before = said_of(outcomes, all, (n - 1) as nat);
    let told = fate_notices(outcomes[n - 1].0, all, outcomes[n - 1].1);
    if k < n - 1 {
        lemma_said_of(outcomes, all, (n - 1) as nat, k, x);
        let i = choose|i: int| 0 <= i < before.len() && before[i] == x;
        assert((before + told)[i] == x);
    } else {
        let i = choose|i: int| 0 <= i < told.len() && told[i] == x;
        assert((before + told)[before.len() + i] == x);
    }
}

proof fn lemma_signed_out(outcomes: Seq<(Seq<char>, Fate)>, n: nat)
    requires
        n <= outcomes.len(),
    ensures
        signed_out(outcomes, n).len() == 0 <==> forall|k: int|
            0 <= k < n ==> (#[trigger] outcomes[k]).1 is NotSignedIn,
    decreases n,
{
    if n > 0 {
        lemma_signed_out(outcomes, (n - 1) as nat);
        assert(outcomes[n - 1].1 is NotSignedIn || !(outcomes[n - 1].1 is NotSignedIn));
    }
}

/// Each server is spoken of by its name, and a key or a token that still works is warned of.
pub proof fn every_sign_out_is_told(
    server: Seq<char>,
    all: bool,
    suggest_next: bool,
    outcomes: Seq<(Seq<char>, Fate)>,
    env: Option<EnvToken>,
    k: int,
)
    requires
        0 <= k < outcomes.len(),
    ensures
        ({
            let out = said(server, all, suggest_next, outcomes, env);
            let target = outcomes[k].0;
            let fate = outcomes[k].1;
            &&& fate is NotSignedIn && !all ==> out.contains(
                NoticeVal::Done("This device was not signed in to "@ + target + "."@),
            )
            &&& fate is Revoked ==> out.contains(
                NoticeVal::Done("Signed out of "@ + target + " - tokens revoked."@),
            )
            &&& fate is Unconfirmed ==> out.contains(
                NoticeVal::Done("Signed out of "@ + target + " - credentials removed."@),
            ) && out.contains(
                NoticeVal::Warn(
                    "The server did not confirm the revocation. If this device is lost, disconnect it in the access list on "@
                        + target + "."@,
                ),
            )
            &&& fate is KeyRemoved ==> out.contains(
                NoticeVal::Done(
                    "Signed out of "@ + target + " - the stored key was removed from this device."@,
                ),
            ) && out.contains(
                NoticeVal::Warn(
                    "That key is still live on the server. Revoke it in the access list on "@
                        + target + " if you no longer want it to work."@,
                ),
            )
            &&& fate matches Fate::Superseded { minted, revoked } ==> out.contains(
                NoticeVal::Warn(
                    target + ": a new sign-in appeared while this one was running - "@ + (
                    if revoked {
                        "the previous token was revoked"@
                    } else {
                        "the previous token could NOT be revoked and may still be live"@
                    })
                        + ", and the new one was kept. Run the command again to drop that one too."@,
                ),
            )
        }),
{
    let out = said(server, all, suggest_next, outcomes, env);
    let n = outcomes.len();
    let told = fate_notices(outcomes[k].0, all, outcomes[k].1);
    assert forall|i: int| 0 <= i < told.len() implies out.contains(#[trigger] told[i]) by {
        assert(told.contains(told[i]));
        lemma_said_of(outcomes, all, n, k, told[i]);
        let body = said_of(outcomes, all, n);
        let j = choose|j: int| 0 <= j < body.len() && body[j] == told[i];
        assert(out[j] == told[i]);
    }
    match outcomes[k].1 {
        Fate::NotSignedIn => {
            if !all {
                assert(out.contains(told[0]));
            }
        },
        Fate::Superseded { minted, revoked } => {
            assert(out.contains(told[0]));
        },
        Fate::Revoked => {
            assert(out.contains(told[0]));
        },
        Fate::KeyRemoved => {
            assert(out.contains(told[0]));
            assert(out.contains(told[1]));
        },
        Fate::Unconfirmed => {
            assert(out.contains(told[0]));
            assert(out.contains(told[1]));
        },
    }
}

/// The run fails just where the server did not confirm that a token is dead which it was asked about,
/// or where a sign-in was replaced whose token it did not confirm.
pub proof fn a_token_in_doubt_fails_the_run(outcomes: Seq<(Seq<char>, Fate)>)
    ensures
        any_unconfirmed(outcomes) <==> exists|k: int|
            0 <= k < outcomes.len() && ((#[trigger] outcomes[k]).1 is Unconfirmed
                || outcomes[k].1 == (Fate::Superseded { minted: false, revoked: false })
                || outcomes[k].1 == (Fate::Superseded { minted: true, revoked: false })),
{
    if any_unconfirmed(outcomes) {
        let k = choose|k: int| 0 <= k < outcomes.len() && is_unconfirmed((#[trigger] outcomes[k]).1);
        assert(outcomes[k].1 is Unconfirmed || outcomes[k].1 == (Fate::Superseded {
            minted: false,
            revoked: false,
        }) || outcomes[k].1 == (Fate::Superseded { minted: true, revoked: false }));
    }
    if exists|k: int|
        0 <= k < outcomes.len() && ((#[trigger] outcomes[k]).1 is Unconfirmed || outcomes[k].1 == (
        Fate::Superseded { minted: false, revoked: false }) || outcomes[k].1 == (Fate::Superseded {
            minted: true,
            revoked: false,
        })) {
        let k = choose|k: int|
            0 <= k < outcomes.len() && ((#[trigger] outcomes[k]).1 is Unconfirmed || outcomes[k].1
                == (Fate::Superseded { minted: false, revoked: false }) || outcomes[k].1 == (
            Fate::Superseded { minted: true, revoked: false }));
        assert(is_unconfirmed(outcomes[k].1));
    }
}

/// A token of the environment is warned of by the variable and by the server that it still signs in
/// to, where anything was signed out of or nothing was asked about.
pub proof fn a_token_that_still_signs_in_is_warned_of(
    server: Seq<char>,
    all: bool,
    suggest_next: bool,
    outcomes: Seq<(Seq<char>, Fate)>,
    env: EnvToken,
)
    requires
        outcomes.len() == 0 || exists|k: int|
            0 <= k < outcomes.len() && !((#[trigger] outcomes[k]).1 is NotSignedIn),
    ensures
        said(server, all, suggest_next, outcomes, Some(env)).contains(
            NoticeVal::Warn(
                "DOCLI_TOKEN"@ + " is still set in this environment and still signs you in to "@
                    + env.server_v()
                    + ". Unset it to finish signing out; revoke the token itself in the access list on "@
                    + env.server_v() + "."@,
            ),
        ),
{
    let out = said(server, all, suggest_next, outcomes, Some(env));
    let told = env_notice(Some(env));
    lemma_signed_out(outcomes, outcomes.len());
    if outcomes.len() == 0 {
        assert(out[1] == told[0]);
    } else {
        let body = said_of(outcomes, all, outcomes.len());
        let at = body.len() + (if any_grant(outcomes) {
            1int
        } else {
            0int
        });
        assert(out[at] == told[0]);
    }
}

/// The last word names the server to sign in to again, where it is known and is not the default, and
/// comes only where it is asked for and something was signed out of.
pub proof fn the_last_word_is_how_to_sign_in_again(
    server: Seq<char>,
    outcomes: Seq<(Seq<char>, Fate)>,
    env: Option<EnvToken>,
)
    requires
        outcomes.len() == 1,
        !(outcomes[0].1 is NotSignedIn),
    ensures
        server != "https://docli.ru"@ ==> said(server, false, true, outcomes, env).last()
            == NoticeVal::Next("Sign in again: "@ + ("docli login --server "@ + server)),
        server == "https://docli.ru"@ ==> said(server, false, true, outcomes, env).last()
            == NoticeVal::Next("Sign in again: "@ + "docli login"@),
        outcomes[0].0 != "https://docli.ru"@ ==> said(server, true, true, outcomes, env).last()
            == NoticeVal::Next("Sign in again: "@ + ("docli login --server "@ + outcomes[0].0)),
        !(said(server, false, false, outcomes, env).last() is Next),
{
    reveal_with_fuel(signed_out, 2);
    reveal_with_fuel(said_of, 2);
}

/// Signing out of what was not signed in to says that alone.
pub proof fn nothing_is_said_of_what_was_not_there(
    server: Seq<char>,
    suggest_next: bool,
    outcomes: Seq<(Seq<char>, Fate)>,
    env: Option<EnvToken>,
)
    requires
        outcomes.len() > 0,
        forall|k: int| 0 <= k < outcomes.len() ==> (#[trigger] outcomes[k]).1 is NotSignedIn,
    ensures
        said(server, true, suggest_next, outcomes, env).len() == 0,
        said(server, false, suggest_next, outcomes, env).len() == outcomes.len(),
{
    lemma_signed_out(outcomes, outcomes.len());
    lemma_silent(outcomes, outcomes.len());
}

proof fn lemma_silent(outcomes: Seq<(Seq<char>, Fate)>, n: nat)
    requires
        n <= outcomes.len(),
        forall|k: int| 0 <= k < outcomes.len() ==> (#[trigger] outcomes[k]).1 is NotSignedIn,
    ensures
        said_of(outcomes, true, n).len() == 0,
        said_of(outcomes, false, n).len() == n,
    decreases n,
{
    if n > 0 {
        lemma_silent(outcomes, (n - 1) as nat);
        assert(outcomes[n - 1].1 is NotSignedIn);
    }
}

} // verus!
