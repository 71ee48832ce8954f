//! What an edit of a hook configuration leaves to its owner, as it reads back.

use vstd::prelude::*;

use crate::agents::led_item;
use crate::hooks::a_rendered_entry_is_ours_and_works;
use crate::hooks::array_spliced;
use crate::hooks::block_laid;
use crate::hooks::block_of;
use crate::hooks::cut_once;
use crate::hooks::entries_of;
use crate::hooks::entry_of;
use crate::hooks::event_cut;
use crate::hooks::event_in_hooks;
use crate::hooks::event_name;
use crate::hooks::event_spliced;
use crate::hooks::hooks_of;
use crate::hooks::lemma_places;
use crate::hooks::none_of_ours;
use crate::hooks::our_places;
use crate::hooks::ours;
use crate::hooks::settled;
use crate::hooks::CutVal;
use crate::hooks::EditVal;
use crate::hooks::Event;
use crate::hooks::HookAgent;
use crate::json::all_blank;
use crate::json::as_array;
use crate::json::element_dropped;
use crate::json::element_put;
use crate::json::element_set;
use crate::json::elements_in;
use crate::json::is_bare_key;
use crate::json::is_json_blank;
use crate::json::lookup;
use crate::json::member;
use crate::json::member_opt;
use crate::json::member_put;
use crate::json::opens_object;
use crate::json::parsed_json;
use crate::json::separates;
use crate::json::stands_in;
use crate::json::takes_element;
use crate::json::takes_inner_member;
use crate::json::takes_member;
use crate::json::with_inner;
use crate::json::JsonVal;
use crate::jsontext::back_over_blank;
use crate::jsontext::close_of;
use crate::jsontext::cut_of;
use crate::jsontext::object_of_key;
use crate::jsontext::skip_blank_to;
use crate::jsontext::spans_from;
use crate::jsontext::splice_of;
use crate::jsontext::value_of_key;
use crate::text::is_white;
use crate::text::lemma_first_is_found;
use crate::text::occurs_at;
use crate::text::replace_char_of;
use crate::walks::agree;
use crate::walks::is_quiet;
use crate::walks::lemma_array_nests;
use crate::walks::lemma_close_levels;
use crate::walks::lemma_edit_elsewhere;
use crate::walks::lemma_levels_agree;
use crate::walks::lemma_levels_back;
use crate::walks::lemma_levels_join;
use crate::walks::lemma_member_elsewhere;
use crate::walks::lemma_quiet;
use crate::walks::levels;
use crate::walks::located;
use crate::walks::member_item;
use crate::walks::nests_within;

verus! {

/// The member `key` of the `hooks` object of a configuration.
pub open spec fn hook_member(root: Option<JsonVal>, key: Seq<char>) -> Option<JsonVal> {
    member_opt(member_opt(root, "hooks"@), key)
}

/// The elements among the first `k` that are not ours, in their order.
pub open spec fn not_ours(entries: Seq<JsonVal>, agent: HookAgent, e: Event, k: int) -> Seq<JsonVal>
    decreases k,
{
    if k <= 0 {
        Seq::empty()
    } else if ours(entries[k - 1], agent, e) {
        not_ours(entries, agent, e, k - 1)
    } else {
        not_ours(entries, agent, e, k - 1).push(entries[k - 1])
    }
}

/// The owner's own entries for an event.
pub open spec fn theirs(root: Option<JsonVal>, agent: HookAgent, e: Event) -> Seq<JsonVal> {
    match as_array(hook_member(root, event_name(e))) {
        Some(entries) => not_ours(entries, agent, e, entries.len() as int),
        None => Seq::empty(),
    }
}

/// Nothing but our entries for one event is another.
pub open spec fn but_for_event(
    now: Option<JsonVal>,
    old: Option<JsonVal>,
    agent: HookAgent,
    e: Event,
) -> bool {
    &&& forall|k: Seq<char>| k != "hooks"@ ==> #[trigger] member_opt(now, k) == member_opt(old, k)
    &&& forall|k: Seq<char>|
        k != event_name(e) ==> #[trigger] hook_member(now, k) == hook_member(old, k)
    &&& theirs(now, agent, e) == theirs(old, agent, e)
}

/// What is the owner's is as it was: every member beside `hooks`, every event beside our two, and
/// for these the owner's own entries, in their order.
pub open spec fn spared(now: Option<JsonVal>, old: Option<JsonVal>, agent: HookAgent) -> bool {
    &&& forall|k: Seq<char>| k != "hooks"@ ==> #[trigger] member_opt(now, k) == member_opt(old, k)
    &&& forall|k: Seq<char>|
        k != event_name(Event::PreToolUse) && k != event_name(Event::SessionStart)
            ==> #[trigger] hook_member(now, k) == hook_member(old, k)
    &&& theirs(now, agent, Event::PreToolUse) == theirs(old, agent, Event::PreToolUse)
    &&& theirs(now, agent, Event::SessionStart) == theirs(old, agent, Event::SessionStart)
}

pub proof fn lemma_event_names()
    ensures
        event_name(Event::PreToolUse) != event_name(Event::SessionStart),
        is_bare_key("hooks"@),
        is_bare_key(event_name(Event::PreToolUse)),
        is_bare_key(event_name(Event::SessionStart)),
{
    reveal_strlit("hooks");
    reveal_strlit("PreToolUse");
    reveal_strlit("SessionStart");
    assert("PreToolUse"@[0] == 'P' && "SessionStart"@[0] == 'S');
}

/// An edit of one event spares what is the owner's.
pub proof fn lemma_event_spares(
    now: Option<JsonVal>,
    old: Option<JsonVal>,
    agent: HookAgent,
    e: Event,
)
    requires
        but_for_event(now, old, agent, e),
    ensures
        spared(now, old, agent),
        forall|o: Event|
            o != e && #[trigger] settled(old, agent, o) && hooks_of(now) is Some ==> settled(
                now,
                agent,
                o,
            ),
{
    lemma_event_names();
    assert forall|o: Event|
        o != e && #[trigger] settled(old, agent, o) && hooks_of(now) is Some implies settled(
        now,
        agent,
        o,
    ) by {
        assert(hook_member(now, event_name(o)) == hook_member(old, event_name(o)));
    }
    let o = match e {
        Event::PreToolUse => Event::SessionStart,
        Event::SessionStart => Event::PreToolUse,
    };
    assert(hook_member(now, event_name(o)) == hook_member(old, event_name(o)));
}

proof fn lemma_front(x: JsonVal, es: Seq<JsonVal>, agent: HookAgent, e: Event, k: int)
    requires
        ours(x, agent, e),
        0 <= k <= es.len(),
    ensures
        not_ours(seq![x] + es, agent, e, k + 1) == not_ours(es, agent, e, k),
    decreases k,
{
    if k > 0 {
        lemma_front(x, es, agent, e, k - 1);
        assert((seq![x] + es)[k] == es[k - 1]);
    } else {
        assert((seq![x] + es)[0] == x);
        reveal_with_fuel(not_ours, 2);
    }
}

proof fn lemma_set(es: Seq<JsonVal>, i: int, x: JsonVal, agent: HookAgent, e: Event, k: int)
    requires
        0 <= i < es.len(),
        0 <= k <= es.len(),
        ours(es[i], agent, e),
        ours(x, agent, e),
    ensures
        not_ours(es.update(i, x), agent, e, k) == not_ours(es, agent, e, k),
    decreases k,
{
    if k > 0 {
        lemma_set(es, i, x, agent, e, k - 1);
    }
}

proof fn lemma_dropped(es: Seq<JsonVal>, i: int, agent: HookAgent, e: Event, k: int)
    requires
        0 <= i < es.len(),
        0 <= k <= es.len(),
        ours(es[i], agent, e),
    ensures
        not_ours(
            es.remove(i),
            agent,
            e,
            if k <= i {
                k
            } else {
                k - 1
            },
        ) == not_ours(es, agent, e, k),
    decreases k,
{
    if k > 0 {
        lemma_dropped(es, i, agent, e, k - 1);
        if k - 1 < i {
            assert(es.remove(i)[k - 1] == es[k - 1]);
        } else if k - 1 > i {
            assert(es.remove(i)[k - 2] == es[k - 1]);
        }
    }
}

/// A text whose array for an event was changed in our elements alone.
proof fn lemma_array_changed(
    now: Option<JsonVal>,
    old: Option<JsonVal>,
    agent: HookAgent,
    e: Event,
    es: Seq<JsonVal>,
)
    requires
        now is Some,
        hooks_of(old) is Some,
        with_inner(now->0, "hooks"@, event_name(e), JsonVal::Array(es), old->0),
        not_ours(es, agent, e, es.len() as int) == theirs(old, agent, e),
    ensures
        but_for_event(now, old, agent, e),
        hooks_of(now) is Some,
{
    assert forall|k: Seq<char>| k != "hooks"@ implies #[trigger] member_opt(now, k) == member_opt(
        old,
        k,
    ) by {
        assert(member(now->0, k) == member(old->0, k));
    }
    assert forall|k: Seq<char>| k != event_name(e) implies #[trigger] hook_member(now, k)
        == hook_member(old, k) by {
        assert(member(member(now->0, "hooks"@)->0, k) == member(member(old->0, "hooks"@)->0, k));
    }
}

/// A step towards one entry of ours for an event leaves everything else as it was.
pub proof fn lemma_splice_spares(
    text: Seq<char>,
    root: Option<JsonVal>,
    agent: HookAgent,
    e: Event,
    rendered: Seq<char>,
)
    requires
        hooks_of(root) is Some,
        takes_inner_member(text, root),
        takes_element(text, root),
        parsed_json(rendered) == Some(entry_of(agent, e)),
        nests_within(rendered, 124),
        levels(rendered, 0, 0, rendered.len() as int),
        parsed_json("["@ + rendered + "]"@) == Some(JsonVal::Array(seq![entry_of(agent, e)])),
    ensures
        event_spliced(text, root, agent, e, rendered) matches EditVal::Edited(t) ==> {
            &&& but_for_event(parsed_json(t), root, agent, e)
            &&& hooks_of(parsed_json(t)) is Some
        },
{
    lemma_event_names();
    a_rendered_entry_is_ours_and_works(agent, e);
    reveal_strlit("");
    reveal_strlit(", ");
    reveal_strlit("\"");
    reveal_strlit("\": ");
    reveal_strlit("\": [");
    reveal_strlit("[");
    reveal_strlit("]");
    let hooks = hooks_of(root)->0;
    let name = event_name(e);
    let x = entry_of(agent, e);
    if let EditVal::Edited(t) = event_spliced(text, root, agent, e, rendered) {
        let open = object_of_key(text, "hooks"@)->0;
        match lookup(hooks, name) {
            None => {
                let tail = led_item(""@, hooks.len() == 0);
                let v = "["@ + rendered + "]"@;
                crate::jsontext::lemma_object_of_key(text, "hooks"@);
                assert(t =~= member_put(text, open, ""@, name, v, tail));
                let es = seq![x];
                lemma_array_nests(rendered, 124);
                assert(separates(tail, hooks.len() == 0));
                reveal_with_fuel(not_ours, 2);
                assert(not_ours(es, agent, e, 1) =~= Seq::<JsonVal>::empty());
                lemma_array_changed(parsed_json(t), root, agent, e, es);
            },
            Some(JsonVal::Array(entries)) => {
                let span = value_of_key(text, open, name)->0;
                crate::jsontext::lemma_value_of_key(text, open, name);
                assert(stands_in(text, root, "hooks"@, name, span.0, span.1));
                let n = entries.len() as int;
                let mine = our_places(entries, agent, e, n);
                lemma_places(entries, agent, e, n);
                if mine.len() == 0 {
                    let tail = led_item(""@, entries.len() == 0);
                    assert(separates(tail, entries.len() == 0));
                    assert(t =~= element_put(text, span.0, rendered, tail));
                    lemma_front(x, entries, agent, e, n);
                    lemma_array_changed(parsed_json(t), root, agent, e, seq![x] + entries);
                } else if mine.len() > 1 {
                    let i = mine.last();
                    assert(mine[mine.len() - 1] == i);
                    assert(t == element_dropped(text, span.0, span.1, i));
                    lemma_dropped(entries, i, agent, e, n);
                    lemma_array_changed(parsed_json(t), root, agent, e, entries.remove(i));
                } else {
                    let i = mine[0];
                    assert(t == element_set(text, span.0, span.1, i, rendered));
                    lemma_set(entries, i, x, agent, e, n);
                    lemma_array_changed(parsed_json(t), root, agent, e, entries.update(i, x));
                }
            },
            Some(_) => {},
        }
    }
}

/// A step of a removal leaves everything that is the owner's as it was.
pub proof fn lemma_cut_spares(text: Seq<char>, root: Option<JsonVal>, agent: HookAgent)
    requires
        takes_element(text, root),
    ensures
        cut_once(text, root, agent) matches CutVal::Dropped(t) ==> {
            &&& spared(parsed_json(t), root, agent)
            &&& arrays_stay(parsed_json(t), root)
        },
{
    if let CutVal::Dropped(t) = cut_once(text, root, agent) {
        let hooks = hooks_of(root)->0;
        let open = object_of_key(text, "hooks"@)->0;
        let e = if event_cut(text, hooks, open, agent, Event::PreToolUse) is Some {
            Event::PreToolUse
        } else {
            Event::SessionStart
        };
        let entries = entries_of(hooks, e)->0;
        let n = entries.len() as int;
        let span = value_of_key(text, open, event_name(e))->0;
        let i = our_places(entries, agent, e, n)[0];
        lemma_places(entries, agent, e, n);
        assert(stands_in(text, root, "hooks"@, event_name(e), span.0, span.1));
        assert(t == element_dropped(text, span.0, span.1, i));
        lemma_dropped(entries, i, agent, e, n);
        lemma_array_changed(parsed_json(t), root, agent, e, entries.remove(i));
        lemma_event_spares(parsed_json(t), root, agent, e);
        lemma_event_names();
        assert(hook_member(parsed_json(t), event_name(e)) == Some(
            JsonVal::Array(entries.remove(i)),
        ));
        assert forall|o: Event| (match as_array(hook_member(root, #[trigger] event_name(o))) {
            Some(_) => as_array(hook_member(parsed_json(t), event_name(o))) is Some,
            None => hook_member(parsed_json(t), event_name(o)) == hook_member(root, event_name(o)),
        }) by {
            if o != e {
                assert(event_name(o) != event_name(e));
            }
        }
    }
}

/// The array of an event is an array still, and what is no array is as it was.
pub open spec fn arrays_stay(now: Option<JsonVal>, old: Option<JsonVal>) -> bool {
    forall|e: Event| (match as_array(hook_member(old, #[trigger] event_name(e))) {
        Some(_) => as_array(hook_member(now, event_name(e))) is Some,
        None => hook_member(now, event_name(e)) == hook_member(old, event_name(e)),
    })
}

/// What stands under an event once our elements are taken out: the owner's own, in their order, in
/// an array that stays also where it is empty.
pub open spec fn left_under(
    now: Option<JsonVal>,
    old: Option<JsonVal>,
    agent: HookAgent,
    e: Event,
) -> bool {
    hook_member(now, event_name(e)) == match as_array(hook_member(old, event_name(e))) {
        Some(_) => Some(JsonVal::Array(theirs(old, agent, e))),
        None => hook_member(old, event_name(e)),
    }
}

proof fn lemma_all_theirs(es: Seq<JsonVal>, agent: HookAgent, e: Event, k: int)
    requires
        0 <= k <= es.len(),
        our_places(es, agent, e, k).len() == 0,
    ensures
        not_ours(es, agent, e, k) == es.take(k),
    decreases k,
{
    if k > 0 {
        lemma_all_theirs(es, agent, e, k - 1);
        assert(es.take(k) =~= es.take(k - 1).push(es[k - 1]));
    } else {
        assert(es.take(0) =~= Seq::<JsonVal>::empty());
    }
}

/// Where nothing of ours is left, what is left is the owner's.
pub proof fn lemma_left_under(now: Option<JsonVal>, old: Option<JsonVal>, agent: HookAgent, e: Event)
    requires
        spared(now, old, agent),
        arrays_stay(now, old),
        none_of_ours(now, agent),
    ensures
        left_under(now, old, agent, e),
{
    let name = event_name(e);
    if let Some(_) = as_array(hook_member(old, name)) {
        let es = as_array(hook_member(now, name))->0;
        assert(theirs(now, agent, e) == theirs(old, agent, e));
        lemma_all_theirs(es, agent, e, es.len() as int);
        assert(es.take(es.len() as int) =~= es);
    }
}

/// The whole block at the front of an object without one leaves everything else as it was.
pub proof fn lemma_block_spares(
    text: Seq<char>,
    root: Option<JsonVal>,
    agent: HookAgent,
    pretty: Seq<char>,
)
    requires
        takes_member(text, root),
        text.len() > 0,
        !is_white(text[0]),
        root is Some && root->0 is Object ==> opens_object(text),
        parsed_json(replace_char_of(pretty, '\n', "\n  "@)) == Some(block_of(agent)),
        nests_within(replace_char_of(pretty, '\n', "\n  "@), 126),
    ensures
        block_laid(text, root, pretty) matches EditVal::Edited(t) ==> {
            &&& spared(parsed_json(t), root, agent)
            &&& hooks_of(parsed_json(t)) is Some
        },
{
    if let EditVal::Edited(t) = block_laid(text, root, pretty) {
        lemma_event_names();
        reveal_strlit("");
        reveal_strlit(",");
        reveal_strlit("\n  ");
        reveal_strlit("\"");
        reveal_strlit("\": ");
        reveal_strlit("\n  \"hooks\": ");
        reveal_strlit("hooks");
        let members = root->0->Object_0;
        let i = choose|i: int|
            0 <= i < text.len() && (#[trigger] text[i]) == '{' && forall|j: int|
                0 <= j < i ==> is_json_blank(#[trigger] text[j]);
        if i > 0 {
            assert(is_json_blank(text[0]));
        }
        let pat = seq!['{'];
        assert(text.subrange(0, 1) =~= pat);
        assert(occurs_at(text, pat, 0));
        lemma_first_is_found(text, pat, 0);
        let tail = if members.len() == 0 {
            ""@
        } else {
            ","@
        };
        let v = replace_char_of(pretty, '\n', "\n  "@);
        assert(t =~= member_put(text, 0, "\n  "@, "hooks"@, v, tail));
        assert(separates(tail, members.len() == 0));
        assert(all_blank("\n  "@));
        let now = parsed_json(t);
        assert forall|k: Seq<char>| k != "hooks"@ implies #[trigger] member_opt(now, k)
            == member_opt(root, k) by {
            assert(member(now->0, k) == member(root->0, k));
        }
        a_rendered_entry_is_ours_and_works(agent, Event::PreToolUse);
        a_rendered_entry_is_ours_and_works(agent, Event::SessionStart);
        reveal_with_fuel(lookup, 3);
        reveal_with_fuel(not_ours, 2);
        let block = block_of(agent)->Object_0;
        assert(block.drop_first()[0] == block[1]);
    }
}

/// A walk over a configuration finds the array of an event, with all its elements.
pub open spec fn found_in(text: Seq<char>, root: Option<JsonVal>, e: Event) -> bool {
    match hooks_of(root) {
        Some(hooks) => match entries_of(hooks, e) {
            Some(entries) => located(text, "hooks"@, event_name(e), entries.len()),
            None => false,
        },
        None => false,
    }
}

/// The event that is not this one.
pub open spec fn another(e: Event) -> Event {
    match e {
        Event::PreToolUse => Event::SessionStart,
        Event::SessionStart => Event::PreToolUse,
    }
}

/// A text that begins and ends with the brackets of an object.
pub open spec fn is_braced(text: Seq<char>) -> bool {
    text.len() > 1 && text[0] == '{' && text.last() == '}'
}

proof fn lemma_rendered_levels(rendered: Seq<char>, alone: bool)
    requires
        rendered.len() > 0,
        rendered[0] == '{',
        close_of(rendered, 0, 0) == Some(rendered.len() as int),
    ensures
        levels(rendered, 0, 0, rendered.len() as int),
        levels(led_item(rendered, alone), 0, 0, led_item(rendered, alone).len() as int),
{
    lemma_close_levels(rendered, 0, 0);
    reveal_strlit(", ");
    let w = led_item(rendered, alone);
    let n = rendered.len() as int;
    assert(agree(rendered, w, 0, n, 0));
    lemma_levels_agree(rendered, w, 0, n, 0, 0, 0, n);
    lemma_quiet(w, n, w.len() as int);
    lemma_levels_join(w, 0, 0, n, w.len() as int);
}

/// What is cut out with an element is level, and so is what stands before it.
proof fn lemma_cut_levels(s: Seq<char>, open: int, end: int, a: int, b: int)
    requires
        0 <= open < a < b <= end <= s.len(),
        levels(s, open + 1, 0, a),
        levels(s, a, 0, b),
    ensures
        ({
            let cut = cut_of(s, open, end, a, b);
            &&& open < cut.0 <= cut.1 <= end
            &&& levels(s, open + 1, 0, cut.0)
            &&& levels(s, cut.0, 0, cut.1)
        }),
{
    let cut = cut_of(s, open, end, a, b);
    let j = skip_blank_to(s, b, end);
    let k = back_over_blank(s, a, open + 1);
    crate::jsontext::lemma_skip_blank_to(s, b, end);
    crate::jsontext::lemma_back_over_blank(s, a, open + 1);
    if j < end && s[j] == ',' {
        assert forall|x: int| b <= x < j + 1 implies is_quiet(#[trigger] s[x]) by {}
        lemma_quiet(s, b, j + 1);
        lemma_levels_join(s, a, 0, b, j + 1);
    } else if k > open + 1 && s[k - 1] == ',' {
        assert forall|x: int| k - 1 <= x < a implies is_quiet(#[trigger] s[x]) by {}
        lemma_levels_back(s, open + 1, a, k - 1);
        lemma_quiet(s, k - 1, a);
        lemma_levels_join(s, k - 1, 0, a, b);
    }
}

/// In front of each element of an event's array, and in it, strings end and brackets match.
proof fn lemma_elements_level(
    text: Seq<char>,
    root: Option<JsonVal>,
    e: Event,
    span: (int, int),
    entries: Seq<JsonVal>,
)
    requires
        takes_element(text, root),
        stands_in(text, root, "hooks"@, event_name(e), span.0, span.1),
        lookup(hooks_of(root)->0, event_name(e)) == Some(JsonVal::Array(entries)),
        hooks_of(root) is Some,
        spans_from(text, span.0 + 1, span.1) is Some,
        spans_from(text, span.0 + 1, span.1)->0.len() == entries.len(),
    ensures
        forall|i: int|
            0 <= i < entries.len() ==> {
                let at = #[trigger] spans_from(text, span.0 + 1, span.1)->0[i];
                levels(text, span.0 + 1, 0, at.0) && levels(text, at.0, 0, at.1)
            },
{
    assert(elements_in(root, "hooks"@, event_name(e)) == Some(entries));
}

/// An edit of an event's array takes out what is level and puts in what is level.
proof fn lemma_array_level(
    text: Seq<char>,
    span: (int, int),
    entries: Seq<JsonVal>,
    agent: HookAgent,
    e: Event,
    rendered: Seq<char>,
) -> (edit: (int, int, Seq<char>))
    requires
        array_spliced(text, span, entries, agent, e, rendered) is Edited,
        0 < span.0 < span.1 < text.len(),
        rendered.len() > 0,
        rendered[0] == '{',
        close_of(rendered, 0, 0) == Some(rendered.len() as int),
        spans_from(text, span.0 + 1, span.1) is Some,
        spans_from(text, span.0 + 1, span.1)->0.len() == entries.len(),
        forall|i: int|
            0 <= i < entries.len() ==> {
                let at = #[trigger] spans_from(text, span.0 + 1, span.1)->0[i];
                levels(text, span.0 + 1, 0, at.0) && levels(text, at.0, 0, at.1)
            },
    ensures
        array_spliced(text, span, entries, agent, e, rendered) == EditVal::Edited(
            splice_of(text, edit.0, edit.1, edit.2),
        ),
        span.0 < edit.0 <= edit.1 <= span.1,
        levels(text, span.0 + 1, 0, edit.0),
        levels(text, edit.0, 0, edit.1),
        levels(edit.2, 0, 0, edit.2.len() as int),
{
    let count = entries.len() as int;
    let mine = our_places(entries, agent, e, count);
    lemma_places(entries, agent, e, count);
    let spans = spans_from(text, span.0 + 1, span.1)->0;
    crate::jsontext::lemma_spans(text, span.0 + 1, span.1);
    if mine.len() == 0 {
        lemma_rendered_levels(rendered, count == 0);
        assert(levels(text, span.0 + 1, 0, span.0 + 1));
        (span.0 + 1, span.0 + 1, led_item(rendered, count == 0))
    } else if mine.len() > 1 {
        assert(mine[mine.len() - 1] == mine.last());
        let last = spans[mine.last()];
        lemma_cut_levels(text, span.0, span.1, last.0, last.1);
        let cut = cut_of(text, span.0, span.1, last.0, last.1);
        assert(levels(Seq::<char>::empty(), 0, 0, 0));
        (cut.0, cut.1, Seq::empty())
    } else {
        let at = spans[mine[0]];
        lemma_rendered_levels(rendered, true);
        (at.0, at.1, rendered)
    }
}

proof fn lemma_item_text(name: Seq<char>, rendered: Seq<char>, alone: bool) -> (tail: Seq<char>)
    ensures
        led_item("\""@ + name + "\": ["@ + rendered + "]"@, alone) == member_item(
            name,
            rendered,
            tail,
        ),
        forall|x: int| 0 <= x < tail.len() ==> is_quiet(#[trigger] tail[x]),
{
    reveal_strlit(", ");
    reveal_strlit("\"");
    reveal_strlit("\": [");
    reveal_strlit("]");
    let tail = if alone {
        Seq::<char>::empty()
    } else {
        ", "@
    };
    assert("\""@ =~= seq!['"']);
    assert("\": ["@ =~= seq!['"', ':', ' ', '[']);
    assert("]"@ =~= seq![']']);
    assert(led_item("\""@ + name + "\": ["@ + rendered + "]"@, alone) =~= member_item(
        name,
        rendered,
        tail,
    ));
    tail
}

proof fn lemma_splice_braced(text: Seq<char>, from: int, to: int, w: Seq<char>)
    requires
        is_braced(text),
        0 < from <= to < text.len(),
    ensures
        is_braced(splice_of(text, from, to, w)),
{
}

/// An event's member put into the `hooks` object does not move a walk to the other event's array.
proof fn lemma_new_event_elsewhere(
    text: Seq<char>,
    e: Event,
    rendered: Seq<char>,
    alone: bool,
    n: nat,
)
    requires
        object_of_key(text, "hooks"@) is Some,
        rendered.len() > 0,
        rendered[0] == '{',
        close_of(rendered, 0, 0) == Some(rendered.len() as int),
        is_braced(text),
    ensures
        ({
            let at = object_of_key(text, "hooks"@)->0 + 1;
            let t = splice_of(
                text,
                at,
                at,
                led_item("\""@ + event_name(e) + "\": ["@ + rendered + "]"@, alone),
            );
            &&& located(text, "hooks"@, event_name(another(e)), n) ==> located(
                t,
                "hooks"@,
                event_name(another(e)),
                n,
            )
            &&& is_braced(t)
        }),
{
    lemma_event_names();
    let open = object_of_key(text, "hooks"@)->0;
    crate::jsontext::lemma_object_of_key(text, "hooks"@);
    let tail = lemma_item_text(event_name(e), rendered, alone);
    let w = member_item(event_name(e), rendered, tail);
    lemma_splice_braced(text, open + 1, open + 1, w);
    lemma_rendered_levels(rendered, true);
    if located(text, "hooks"@, event_name(another(e)), n) {
        lemma_member_elsewhere(
            text,
            "hooks"@,
            event_name(another(e)),
            n,
            event_name(e),
            rendered,
            tail,
        );
    }
}

/// An edit of an event's array does not move a walk to the other event's array.
proof fn lemma_array_elsewhere(
    text: Seq<char>,
    root: Option<JsonVal>,
    agent: HookAgent,
    e: Event,
    rendered: Seq<char>,
    entries: Seq<JsonVal>,
    n: nat,
)
    requires
        hooks_of(root) is Some,
        takes_element(text, root),
        lookup(hooks_of(root)->0, event_name(e)) == Some(JsonVal::Array(entries)),
        object_of_key(text, "hooks"@) is Some,
        value_of_key(text, object_of_key(text, "hooks"@)->0, event_name(e)) is Some,
        rendered.len() > 0,
        rendered[0] == '{',
        close_of(rendered, 0, 0) == Some(rendered.len() as int),
        is_braced(text),
    ensures
        ({
            let span = value_of_key(text, object_of_key(text, "hooks"@)->0, event_name(e))->0;
            text[span.0] == '[' ==> (array_spliced(text, span, entries, agent, e, rendered) matches
                EditVal::Edited(t) ==> {
                &&& located(text, "hooks"@, event_name(another(e)), n) ==> located(
                    t,
                    "hooks"@,
                    event_name(another(e)),
                    n,
                )
                &&& is_braced(t)
            })
        }),
{
    let open = object_of_key(text, "hooks"@)->0;
    let span = value_of_key(text, open, event_name(e))->0;
    if text[span.0] == '[' && array_spliced(text, span, entries, agent, e, rendered) is Edited {
        lemma_event_names();
        crate::jsontext::lemma_value_of_key(text, open, event_name(e));
        lemma_elements_level(text, root, e, span, entries);
        let edit = lemma_array_level(text, span, entries, agent, e, rendered);
        lemma_splice_braced(text, edit.0, edit.1, edit.2);
        if located(text, "hooks"@, event_name(another(e)), n) {
            lemma_edit_elsewhere(
                text,
                "hooks"@,
                event_name(another(e)),
                n,
                event_name(e),
                edit.0,
                edit.1,
                edit.2,
            );
        }
    }
}

/// A step towards one entry of ours for an event does not move a walk to the other event's array,
/// nor the brackets at the ends of the text.
pub proof fn lemma_splice_elsewhere(
    text: Seq<char>,
    root: Option<JsonVal>,
    agent: HookAgent,
    e: Event,
    rendered: Seq<char>,
    n: nat,
)
    requires
        hooks_of(root) is Some,
        takes_element(text, root),
        rendered.len() > 0,
        rendered[0] == '{',
        close_of(rendered, 0, 0) == Some(rendered.len() as int),
        is_braced(text),
    ensures
        event_spliced(text, root, agent, e, rendered) matches EditVal::Edited(t) ==> {
            &&& located(text, "hooks"@, event_name(another(e)), n) ==> located(
                t,
                "hooks"@,
                event_name(another(e)),
                n,
            )
            &&& is_braced(t)
        },
{
    let hooks = hooks_of(root)->0;
    if let EditVal::Edited(t) = event_spliced(text, root, agent, e, rendered) {
        assert(event_in_hooks(text, hooks, agent, e, rendered) == EditVal::Edited(t));
        match lookup(hooks, event_name(e)) {
            None => {
                lemma_new_event_elsewhere(text, e, rendered, hooks.len() == 0, n);
            },
            Some(JsonVal::Array(entries)) => {
                lemma_array_elsewhere(text, root, agent, e, rendered, entries, n);
            },
            Some(_) => {},
        }
    }
}

/// A step towards one entry of ours for an event leaves the other event's array to be found.
pub proof fn lemma_still_found(
    text: Seq<char>,
    root: Option<JsonVal>,
    agent: HookAgent,
    e: Event,
    rendered: Seq<char>,
)
    requires
        hooks_of(root) is Some,
        takes_element(text, root),
        rendered.len() > 0,
        rendered[0] == '{',
        close_of(rendered, 0, 0) == Some(rendered.len() as int),
        is_braced(text),
        event_spliced(text, root, agent, e, rendered) matches EditVal::Edited(t) ==> but_for_event(
            parsed_json(t),
            root,
            agent,
            e,
        ) && hooks_of(parsed_json(t)) is Some,
    ensures
        event_spliced(text, root, agent, e, rendered) matches EditVal::Edited(t) ==> {
            &&& found_in(text, root, another(e)) ==> found_in(t, parsed_json(t), another(e))
            &&& is_braced(t)
        },
{
    let entries = match entries_of(hooks_of(root)->0, another(e)) {
        Some(es) => es,
        None => Seq::empty(),
    };
    lemma_splice_elsewhere(text, root, agent, e, rendered, entries.len());
    if let EditVal::Edited(t) = event_spliced(text, root, agent, e, rendered) {
        lemma_event_names();
        let name = event_name(another(e));
        assert(hook_member(parsed_json(t), name) == hook_member(root, name));
    }
}

/// Nothing is left to do for an event just where it is settled and a walk finds its array.
pub proof fn lemma_settled_found(
    text: Seq<char>,
    root: Option<JsonVal>,
    agent: HookAgent,
    e: Event,
    rendered: Seq<char>,
)
    ensures
        event_spliced(text, root, agent, e, rendered) is Settled <==> settled(root, agent, e)
            && found_in(text, root, e),
{
}

} // verus!
