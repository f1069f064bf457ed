//! `PermissionsProtocol`: the engine asking the host whether it may use the microphone.
//!
//! A request is `{"permissions": [...]}`, the answer to it
//! `{"status": ..., "missingPermissions": [...]}`. Every request is answered, also one
//! that makes no sense, and what was asked and answered is said in so many words, so
//! that a wrong guess about the shape of a request shows.
//!
//! Granting the permission does not open the microphone.

use crate::json::{
    a_document_is_seen_as_it_is, a_name_that_is_not_there_is_not_found, compose, find_member,
    is_text_and_list, json_parsed, json_written, member_named, parse, the_first_of_a_name_is_found,
    Document, DocumentModel, MemberModel,
};
use crate::text::{characters, debug_list, list_debug, same_text, texts};
use crate::utf8::{from_utf8_lossy, lossy_text};
use vstd::prelude::*;
use vstd::string::*;
use vstd::utf8::*;

verus! {

/// The protocol that the requests come on.
pub const PROTOCOL: &'static str = "PermissionsProtocol";

/// The only permission that can truthfully be granted. Anything else has no
/// implementation behind it, so saying yes would be a stub that lies.
pub const MICROPHONE: &'static str = "MICROPHONE_ACCESS";

// ---- Deciding ----

/// The strings of a list, in order; its other elements are passed over.
pub open spec fn strings_in(items: Seq<Option<Seq<char>>>) -> Seq<Seq<char>>
    decreases items.len(),
{
    if items.len() == 0 {
        Seq::empty()
    } else {
        let before = strings_in(items.drop_last());
        match items.last() {
            Some(text) => before.push(text),
            None => before,
        }
    }
}

/// The permissions that a request names: the strings of its `permissions` list, and none
/// if it has no such list.
pub open spec fn asked_in(request: DocumentModel) -> Seq<Seq<char>> {
    match request.members {
        None => Seq::empty(),
        Some(members) => match member_named(members, "permissions"@) {
            None => Seq::empty(),
            Some(member) => match member.items {
                None => Seq::empty(),
                Some(items) => strings_in(items),
            },
        },
    }
}

/// The names of a request's members, and none if it is not an object.
pub open spec fn keys_of(request: DocumentModel) -> Seq<Seq<char>> {
    match request.members {
        None => Seq::empty(),
        Some(members) => members.map_values(|m: MemberModel| m.key),
    }
}

/// The permissions among `asked` that cannot be granted, in order.
pub open spec fn missing_of(asked: Seq<Seq<char>>) -> Seq<Seq<char>> {
    asked.filter(|p: Seq<char>| p != MICROPHONE@)
}

/// Whether everything that was asked for is granted.
pub open spec fn status_of(asked: Seq<Seq<char>>) -> Seq<char> {
    if missing_of(asked).len() == 0 {
        "AUTHORIZED"@
    } else {
        "DENIED"@
    }
}

/// Collects the strings of a list.
fn collect_strings(items: &Vec<Option<String>>) -> (found: Vec<String>)
    ensures
        texts(found@) == strings_in(items.deep_view()),
{
    let ghost all = items.deep_view();
    let mut out: Vec<String> = Vec::new();
    let mut i: usize = 0;
    assert(texts(out@) =~= strings_in(all.take(0)));
    while i < items.len()
        invariant
            i <= items@.len(),
            all == items.deep_view(),
            texts(out@) == strings_in(all.take(i as int)),
        decreases items@.len() - i,
    {
        let ghost before = out@;
        assert(all.take(i + 1).drop_last() =~= all.take(i as int));
        if let Some(text) = &items[i] {
            out.push(text.clone());
            assert(texts(out@) =~= texts(before).push(text@));
        }
        i += 1;
    }
    assert(all.take(i as int) =~= all);
    out
}

/// The permissions that a request names.
pub fn asked_permissions(request: &Document) -> (asked: Vec<String>)
    ensures
        texts(asked@) == asked_in(request@),
{
    if let Some(members) = &request.members {
        if let Some(member) = find_member(members, "permissions") {
            if let Some(items) = &member.items {
                return collect_strings(items);
            }
        }
    }
    let none: Vec<String> = Vec::new();
    assert(texts(none@) =~= Seq::empty());
    none
}

/// The names of a request's members.
pub fn request_keys(request: &Document) -> (keys: Vec<String>)
    ensures
        texts(keys@) == keys_of(request@),
{
    let mut out: Vec<String> = Vec::new();
    if let Some(members) = &request.members {
        let mut i: usize = 0;
        while i < members.len()
            invariant
                i <= members@.len(),
                texts(out@) == keys_of(request@).take(i as int),
                request@.members == Some(members@.map_values(|m: crate::json::Member| m@)),
            decreases members@.len() - i,
        {
            let ghost before = out@;
            out.push(members[i].key.clone());
            assert(texts(out@) =~= texts(before).push(members@[i as int].key@));
            assert(keys_of(request@).take(i + 1) =~= texts(out@));
            i += 1;
        }
        assert(keys_of(request@).take(i as int) =~= keys_of(request@));
    } else {
        assert(texts(out@) =~= Seq::empty());
    }
    out
}

/// The permissions among `asked` that cannot be granted.
pub fn missing_permissions(asked: &[String]) -> (missing: Vec<String>)
    ensures
        texts(missing@) == missing_of(texts(asked@)),
{
    let ghost all = texts(asked@);
    let mut out: Vec<String> = Vec::new();
    let mut i: usize = 0;
    assert(texts(out@) =~= missing_of(all.take(0))) by {
        reveal(Seq::filter);
    }
    while i < asked.len()
        invariant
            i <= asked@.len(),
            all == texts(asked@),
            texts(out@) == missing_of(all.take(i as int)),
        decreases asked@.len() - i,
    {
        let ghost before = out@;
        assert(all.take(i + 1).drop_last() =~= all.take(i as int));
        assert(all.take(i + 1).last() == asked@[i as int]@);
        proof {
            reveal(Seq::filter);
        }
        if !same_text(asked[i].as_str(), MICROPHONE) {
            out.push(asked[i].clone());
            assert(texts(out@) =~= texts(before).push(asked@[i as int]@));
        }
        i += 1;
    }
    assert(all.take(i as int) =~= all);
    out
}

// ---- Answering ----

/// The answer to one request.
pub struct Answer {
    /// The response to send.
    pub body: String,
    /// What is to be said about the request and its answer.
    pub lines: Vec<String>,
}

/// The response to a request for `asked`.
pub open spec fn body_for(asked: Seq<Seq<char>>) -> Seq<char> {
    json_written("status"@, status_of(asked), "missingPermissions"@, missing_of(asked))
}

/// What is said about a request without a permission list, whose keys are shown as
/// `keys`.
pub open spec fn no_list_text(method: Seq<char>, keys: Seq<char>) -> Seq<char> {
    "  permissions: "@ + method + " carried no permission list (keys "@ + keys + ")"@
}

/// What is said about an answer, the permissions asked for being shown as `asked`.
pub open spec fn answered_text(method: Seq<char>, asked: Seq<char>, status: Seq<char>) -> Seq<
    char,
> {
    "  permissions: "@ + method + " "@ + asked + " -> "@ + status
}

/// What is said about a request that came by `method`.
pub open spec fn lines_for(method: Seq<char>, request: DocumentModel) -> Seq<Seq<char>> {
    let asked = asked_in(request);
    let answered = answered_text(method, list_debug(asked), status_of(asked));
    if asked.len() == 0 {
        seq![no_list_text(method, list_debug(keys_of(request))), answered]
    } else {
        seq![answered]
    }
}

/// What a request holds, given what reading it as JSON came to: text that is not JSON
/// holds nothing.
pub open spec fn request_in(parsed: Option<DocumentModel>) -> DocumentModel {
    match parsed {
        Some(document) => document,
        None => DocumentModel { members: None },
    }
}

/// The response `body` is JSON that says just this: the status for `asked`, and what is
/// missing.
pub open spec fn tells(body: Seq<char>, asked: Seq<Seq<char>>) -> bool {
    json_parsed(body) is Some && is_text_and_list(
        json_parsed(body)->0,
        "status"@,
        status_of(asked),
        "missingPermissions"@,
        missing_of(asked),
    )
}

/// Says that a request carried no permission list.
pub fn no_list_line(method: &str, keys: &str) -> (line: String)
    ensures
        line@ == no_list_text(method@, keys@),
{
    let mut line = "  permissions: ".to_owned();
    line.append(method);
    line.append(" carried no permission list (keys ");
    line.append(keys);
    line.append(")");
    line
}

/// Says what was asked and answered.
pub fn answered_line(method: &str, asked: &str, status: &str) -> (line: String)
    ensures
        line@ == answered_text(method@, asked@, status@),
{
    let mut line = "  permissions: ".to_owned();
    line.append(method);
    line.append(" ");
    line.append(asked);
    line.append(" -> ");
    line.append(status);
    line
}

/// Builds the answer to a request that has been read.
pub fn answer_document(method: &str, request: &Document) -> (answer: Answer)
    ensures
        answer.body@ == body_for(asked_in(request@)),
        tells(answer.body@, asked_in(request@)),
        !answer.body@.contains('\0'),
        texts(answer.lines@) == lines_for(method@, request@),
{
    let asked = asked_permissions(request);
    let missing = missing_permissions(asked.as_slice());
    let status = if missing.len() == 0 {
        "AUTHORIZED"
    } else {
        "DENIED"
    };
    let mut lines: Vec<String> = Vec::new();
    if asked.len() == 0 {
        lines.push(no_list_line(method, debug_list(&request_keys(request)).as_str()));
    }
    lines.push(answered_line(method, debug_list(&asked).as_str(), status));
    assert(texts(lines@) =~= lines_for(method@, request@));
    proof {
        reveal_strlit("status");
        reveal_strlit("missingPermissions");
        assert("status"@.len() != "missingPermissions"@.len());
    }
    let body = compose("status", status, "missingPermissions", &missing);
    Answer { body, lines }
}

/// Builds the response for one request, and what to say about it.
pub fn answer(method: &str, raw: &str) -> (answer: Answer)
    ensures
        answer.body@ == body_for(asked_in(request_in(json_parsed(raw@)))),
        tells(answer.body@, asked_in(request_in(json_parsed(raw@)))),
        !answer.body@.contains('\0'),
        texts(answer.lines@) == lines_for(method@, request_in(json_parsed(raw@))),
{
    let request = match parse(raw) {
        Some(document) => document,
        None => Document { members: None },
    };
    answer_document(method, &request)
}

// ---- Handing the answer over ----

/// `body` as a C string that fits into `room` bytes, if there is one.
pub open spec fn framed(body: Seq<char>, room: usize) -> Option<Seq<u8>> {
    let bytes = encode_utf8(body);
    if bytes.contains(0) || bytes.len() >= room {
        None
    } else {
        Some(bytes.push(0))
    }
}

/// The bytes of `body` with a NUL behind them, if no NUL is among them and they fit
/// into `room` bytes together.
pub fn frame(body: &str, room: usize) -> (bytes: Option<Vec<u8>>)
    ensures
        match bytes {
            Some(b) => framed(body@, room) == Some(b@),
            None => framed(body@, room) is None,
        },
{
    let bytes = body.as_bytes();
    let mut out: Vec<u8> = Vec::new();
    let mut i: usize = 0;
    while i < bytes.len()
        invariant
            i <= bytes@.len(),
            bytes@ == encode_utf8(body@),
            out@ == bytes@.take(i as int),
            !out@.contains(0),
        decreases bytes@.len() - i,
    {
        if bytes[i] == 0 {
            assert(bytes@[i as int] == 0);
            return None;
        }
        assert(bytes@.take(i + 1) =~= out@.push(bytes@[i as int]));
        assert(!out@.push(bytes@[i as int]).contains(0)) by {
            if out@.push(bytes@[i as int]).contains(0) {
                let k = choose|k: int|
                    0 <= k < i + 1 && out@.push(bytes@[i as int])[k] == 0;
                assert(out@[k] == 0);
            }
        }
        out.push(bytes[i]);
        i += 1;
    }
    assert(bytes@.take(i as int) =~= bytes@);
    if out.len() >= room {
        return None;
    }
    out.push(0);
    Some(out)
}

/// The NUL character alone is encoded with a NUL byte.
proof fn no_nul_encoded(text: Seq<char>)
    requires
        !text.contains('\0'),
    ensures
        !encode_utf8(text).contains(0),
    decreases text.len(),
{
    if text.len() > 0 {
        let c = text[0] as u32;
        let rest = text.drop_first();
        assert(c != 0) by {
            char_u32_cast(text[0], c);
            if c == 0 {
                assert(text[0] == '\0');
            }
        }
        assert(!rest.contains('\0')) by {
            if rest.contains('\0') {
                let k = choose|k: int| 0 <= k < rest.len() && rest[k] == '\0';
                assert(text[k + 1] == '\0');
            }
        }
        no_nul_encoded(rest);
        let first = encode_scalar(c);
        assert(forall|k: int| 0 <= k < first.len() ==> first[k] != 0) by {
            char_is_scalar(text[0]);
            if has_width_1_encoding(c) {
                assert((c & 0x7F) as u8 != 0) by (bit_vector)
                    requires
                        0 < c <= 0x7F,
                ;
            }
            assert(forall|b: u8| #![trigger 0xC0u8 | b] 0xC0u8 | b != 0) by (bit_vector);
            assert(forall|b: u8| #![trigger 0xE0u8 | b] 0xE0u8 | b != 0) by (bit_vector);
            assert(forall|b: u8| #![trigger 0xF0u8 | b] 0xF0u8 | b != 0) by (bit_vector);
            assert(forall|b: u8| #![trigger 0x80u8 | b] 0x80u8 | b != 0) by (bit_vector);
        }
        if encode_utf8(text).contains(0) {
            let k = choose|k: int|
                0 <= k < encode_utf8(text).len() && encode_utf8(text)[k] == 0;
            if k < first.len() {
                assert(first[k] == 0);
            } else {
                assert(encode_utf8(rest)[k - first.len()] == 0);
            }
        }
    }
}

/// What comes of a request that arrived with a buffer for the response.
pub struct Reply {
    /// What is to be said about the request.
    pub lines: Vec<String>,
    /// The bytes to put into the buffer, or `None` if they do not fit.
    pub bytes: Option<Vec<u8>>,
}

/// Answers a request that arrived as a C string, for a buffer of `room` bytes. `None`
/// stands for a request or a buffer that is not there; nothing is then answered, nor
/// if the buffer has no room at all.
pub fn reply(method: &str, request: Option<&[u8]>, room: Option<usize>) -> (reply: Option<Reply>)
    ensures
        reply is Some <==> request is Some && room is Some && room->0 > 0,
        reply matches Some(r) ==> {
            let asked = asked_in(request_in(json_parsed(lossy_text(request->0@))));
            let body = encode_utf8(body_for(asked));
            &&& texts(r.lines@) == lines_for(
                method@,
                request_in(json_parsed(lossy_text(request->0@))),
            )
            &&& tells(body_for(asked), asked)
            &&& match r.bytes {
                Some(bytes) => body.len() < room->0 && bytes@ == body.push(0) && !body.contains(0),
                None => body.len() >= room->0,
            }
        },
{
    match (request, room) {
        (Some(request), Some(room)) if room > 0 => {
            let raw = from_utf8_lossy(request);
            let answer = answer(method, raw.as_str());
            proof {
                no_nul_encoded(answer.body@);
            }
            let bytes = frame(answer.body.as_str(), room);
            Some(Reply { lines: answer.lines, bytes })
        },
        _ => None,
    }
}

// ---- Binding the methods ----

/// The engine's function that takes a handler for a method.
pub const SET_HANDLER: &'static str =
    "Java_com_roblox_universalapp_messagebus_MessageBus_setRequestHandlerAsyncRaw";

/// The engine's function that takes a handler's response.
pub const CALL_RESPONSE: &'static str =
    "Java_com_roblox_universalapp_messagebus_MessageBus_callResponseHandlerRaw";

/// The methods of the protocol.
pub open spec fn protocol_methods() -> Seq<Seq<char>> {
    seq!["PermissionsRequest"@, "HasPermissions"@, "SupportsPermissions"@]
}

/// What is to be bound, with the engine's functions at places of type `P`.
pub struct Arming<P> {
    /// Where [`SET_HANDLER`] is.
    pub set: P,
    /// Where [`CALL_RESPONSE`] is.
    pub respond: P,
    /// The methods to bind, in order.
    pub methods: Vec<&'static str>,
}

/// Says what to bind, given where the engine's two functions are. Without both of them
/// nothing can be bound, and what to say instead is returned. That is not fatal: a
/// client without voice is still worth launching.
pub fn arm<P>(set: Option<P>, respond: Option<P>) -> (arming: Result<Arming<P>, &'static str>)
    ensures
        match arming {
            Ok(a) => {
                &&& set == Some(a.set)
                &&& respond == Some(a.respond)
                &&& a.methods@.map_values(|m: &'static str| m@) == protocol_methods()
            },
            Err(line) => {
                &&& set is None || respond is None
                &&& line@
                    == "  permissions: async request natives are not exported; the microphone cannot be granted"@
            },
        },
{
    match (set, respond) {
        (Some(set), Some(respond)) => {
            let mut methods: Vec<&'static str> = Vec::new();
            methods.push("PermissionsRequest");
            methods.push("HasPermissions");
            methods.push("SupportsPermissions");
            assert(methods@.map_values(|m: &'static str| m@) =~= protocol_methods());
            Ok(Arming { set, respond, methods })
        },
        _ => Err(
            "  permissions: async request natives are not exported; the microphone cannot be granted",
        ),
    }
}

/// `text` without the NULs at its end.
pub open spec fn without_last_nuls(text: Seq<char>) -> Seq<char>
    decreases text.len(),
{
    if text.len() > 0 && text.last() == '\0' {
        without_last_nuls(text.drop_last())
    } else {
        text
    }
}

/// What is said when `method` could not be bound: `message` is a buffer's text, the NULs
/// at its end being the part that was not written.
pub open spec fn bind_failure_text(method: Seq<char>, message: Seq<char>) -> Seq<char> {
    "  permissions: could not bind "@ + PROTOCOL@ + "."@ + method + ": "@ + without_last_nuls(
        message,
    )
}

/// What is said about binding `method`: `rc` is zero if it was bound, and otherwise
/// `err` is the buffer that says why not.
pub open spec fn bind_text(method: Seq<char>, rc: i32, err: Seq<u8>) -> Seq<char> {
    if rc == 0 {
        "  permissions: "@ + PROTOCOL@ + "."@ + method + " handler bound"@
    } else {
        bind_failure_text(method, lossy_text(err))
    }
}

/// Says that `method` could not be bound.
pub fn bind_failure_line(method: &str, message: &str) -> (line: String)
    ensures
        line@ == bind_failure_text(method@, message@),
{
    let chars = characters(message);
    let mut end: usize = chars.len();
    assert(message@.take(end as int) =~= message@);
    while end > 0 && chars[end - 1] == '\0'
        invariant
            end <= chars@.len(),
            chars@ == message@,
            without_last_nuls(message@) == without_last_nuls(message@.take(end as int)),
        decreases end,
    {
        assert(message@.take(end as int).drop_last() =~= message@.take(end - 1));
        end -= 1;
    }
    assert(without_last_nuls(message@) == message@.take(end as int));
    let mut line = "  permissions: could not bind ".to_owned();
    line.append(PROTOCOL);
    line.append(".");
    line.append(method);
    line.append(": ");
    line.append(message.substring_char(0, end));
    assert(line@ =~= bind_failure_text(method@, message@));
    line
}

/// Says how binding `method` went.
pub fn bind_line(method: &str, rc: i32, err: &[u8]) -> (line: String)
    ensures
        line@ == bind_text(method@, rc, err@),
{
    if rc == 0 {
        let mut line = "  permissions: ".to_owned();
        line.append(PROTOCOL);
        line.append(".");
        line.append(method);
        line.append(" handler bound");
        line
    } else {
        bind_failure_line(method, from_utf8_lossy(err).as_str())
    }
}

// ---- What holds of every request ----

/// What is missing is what was asked for and is not the microphone.
pub proof fn all_but_the_microphone_is_missing(asked: Seq<Seq<char>>, permission: Seq<char>)
    ensures
        missing_of(asked).contains(permission) <==> asked.contains(permission) && permission
            != MICROPHONE@,
{
    let wanted = |p: Seq<char>| p != MICROPHONE@;
    let missing = missing_of(asked);
    if missing.contains(permission) {
        let k = choose|k: int| 0 <= k < missing.len() && missing[k] == permission;
        asked.lemma_filter_pred(wanted, k);
        asked.lemma_filter_contains_rev(wanted, permission);
    }
    if asked.contains(permission) && permission != MICROPHONE@ {
        let k = choose|k: int| 0 <= k < asked.len() && asked[k] == permission;
        asked.lemma_filter_contains(wanted, k);
    }
}

/// A request is authorized exactly when it asks for nothing but the microphone, and
/// denied otherwise.
pub proof fn only_the_microphone_is_granted(asked: Seq<Seq<char>>)
    ensures
        status_of(asked) == "AUTHORIZED"@ <==> (forall|i: int|
            0 <= i < asked.len() ==> #[trigger] asked[i] == MICROPHONE@),
        status_of(asked) == "DENIED"@ <==> (exists|i: int|
            0 <= i < asked.len() && #[trigger] asked[i] != MICROPHONE@),
{
    reveal_strlit("AUTHORIZED");
    reveal_strlit("DENIED");
    assert("AUTHORIZED"@.len() != "DENIED"@.len());
    if missing_of(asked).len() == 0 {
        assert forall|i: int| 0 <= i < asked.len() implies #[trigger] asked[i] == MICROPHONE@ by {
            all_but_the_microphone_is_missing(asked, asked[i]);
            assert(asked.contains(asked[i]));
        }
    } else {
        let p = missing_of(asked)[0];
        assert(missing_of(asked).contains(p));
        all_but_the_microphone_is_missing(asked, p);
        let i = choose|i: int| 0 <= i < asked.len() && asked[i] == p;
        assert(asked[i] != MICROPHONE@);
    }
}

/// A request that names no permissions, because it is not JSON, not an object or has no
/// list of them, is authorized with nothing missing.
pub proof fn a_malformed_request_is_authorized(parsed: Option<DocumentModel>)
    requires
        parsed is None || parsed->0.members is None || member_named(
            parsed->0.members->0,
            "permissions"@,
        ) is None || member_named(parsed->0.members->0, "permissions"@)->0.items is None,
    ensures
        status_of(asked_in(request_in(parsed))) == "AUTHORIZED"@,
        missing_of(asked_in(request_in(parsed))) == Seq::<Seq<char>>::empty(),
{
    reveal(Seq::filter);
    assert(missing_of(Seq::empty()) =~= Seq::<Seq<char>>::empty());
}

// ---- From a request to its answer ----

/// Where the strings of a list stand in it.
proof fn string_places(items: Seq<Option<Seq<char>>>) -> (at: Seq<int>)
    ensures
        at.len() == strings_in(items).len(),
        forall|k: int|
            0 <= k < at.len() ==> 0 <= (#[trigger] at[k]) < items.len() && items[at[k]] == Some(
                strings_in(items)[k],
            ),
        forall|k: int, l: int| 0 <= k < l < at.len() ==> (#[trigger] at[k]) < (#[trigger] at[l]),
        forall|i: int| 0 <= i < items.len() && (#[trigger] items[i]) is Some ==> at.contains(i),
    decreases items.len(),
{
    if items.len() == 0 {
        Seq::empty()
    } else {
        let fewer = items.drop_last();
        let before = string_places(fewer);
        let last = items.len() - 1;
        let at = match items.last() {
            Some(_) => before.push(last),
            None => before,
        };
        assert forall|k: int| 0 <= k < before.len() implies 0 <= (#[trigger] before[k]) < last
            && items[before[k]] == fewer[before[k]] by {}
        assert forall|i: int| 0 <= i < items.len() && (#[trigger] items[i]) is Some implies at.contains(
            i,
        ) by {
            if i < last {
                assert(fewer[i] == items[i]);
                assert(before.contains(i));
                let k = choose|k: int| 0 <= k < before.len() && before[k] == i;
                assert(at[k] == i);
            } else {
                assert(at[at.len() - 1] == i);
            }
        }
        at
    }
}

/// What a request asks for are the strings of its first member named `permissions`, each of
/// them, in their order, and nothing else: `at` is where each stands in the list.
pub proof fn what_is_asked_for_is_what_the_list_names(request: Document, m: int) -> (at: Seq<int>)
    requires
        request.members is Some,
        0 <= m < request.members->0@.len(),
        request.members->0@[m].key@ == "permissions"@,
        forall|j: int|
            0 <= j < m ==> (#[trigger] request.members->0@[j]).key@ != "permissions"@,
        request.members->0@[m].items is Some,
    ensures
        ({
            let items = request.members->0@[m].items->0@;
            let asked = asked_in(request@);
            &&& at.len() == asked.len()
            &&& forall|k: int|
                0 <= k < at.len() ==> 0 <= (#[trigger] at[k]) < items.len() && items[at[k]] is Some
                    && asked[k] == items[at[k]]->0@
            &&& forall|k: int, l: int|
                0 <= k < l < at.len() ==> (#[trigger] at[k]) < (#[trigger] at[l])
            &&& forall|i: int|
                0 <= i < items.len() && (#[trigger] items[i]) is Some ==> at.contains(i)
                    && asked.contains(items[i]->0@)
        }),
{
    let members = request@.members->0;
    let items = request.members->0@[m].items->0@;
    let seen = members[m].items->0;
    assert(members[m] == request.members->0@[m]@);
    assert forall|j: int| 0 <= j < m implies (#[trigger] members[j]).key != "permissions"@ by {
        assert(members[j] == request.members->0@[j]@);
        assert(request.members->0@[j].key@ != "permissions"@);
    }
    the_first_of_a_name_is_found(members, "permissions"@, m);
    let at = string_places(seen);
    assert forall|i: int| 0 <= i < items.len() implies (seen[i] is Some <==> (
    #[trigger] items[i]) is Some) && (items[i] is Some ==> seen[i] == Some(items[i]->0@)) by {
        a_document_is_seen_as_it_is(request, m, i);
    }
    assert(seen.len() == items.len());
    assert forall|i: int| 0 <= i < items.len() && (#[trigger] items[i]) is Some implies at.contains(
        i,
    ) && asked_in(request@).contains(items[i]->0@) by {
        assert(seen[i] is Some);
        assert(at.contains(i));
        let k = choose|k: int| 0 <= k < at.len() && at[k] == i;
        assert(asked_in(request@)[k] == items[i]->0@);
    }
    assert forall|k: int| 0 <= k < at.len() implies 0 <= (#[trigger] at[k]) < items.len()
        && items[at[k]] is Some && asked_in(request@)[k] == items[at[k]]->0@ by {
        assert(seen[at[k]] is Some);
        assert(items[at[k]] is Some);
    }
    at
}

/// A request without a list of permissions asks for nothing: it is no object, it has no
/// member of that name, or the first that it has is no list.
pub proof fn without_a_list_nothing_is_asked_for(request: Document, m: int)
    requires
        request.members matches Some(members) ==> {
            ||| forall|j: int|
                0 <= j < members@.len() ==> (#[trigger] members@[j]).key@ != "permissions"@
            ||| {
                &&& 0 <= m < members@.len()
                &&& members@[m].key@ == "permissions"@
                &&& forall|j: int| 0 <= j < m ==> (#[trigger] members@[j]).key@ != "permissions"@
                &&& members@[m].items is None
            }
        },
    ensures
        asked_in(request@) == Seq::<Seq<char>>::empty(),
{
    if let Some(list) = request.members {
        let members = request@.members->0;
        assert forall|j: int| 0 <= j < members.len() implies (#[trigger] members[j]).key
            == list@[j].key@ by {
            assert(members[j] == list@[j]@);
        }
        if forall|j: int| 0 <= j < list@.len() ==> (#[trigger] list@[j]).key@ != "permissions"@ {
            assert forall|j: int| 0 <= j < members.len() implies (#[trigger] members[j]).key
                != "permissions"@ by {
                assert(list@[j].key@ != "permissions"@);
            }
            a_name_that_is_not_there_is_not_found(members, "permissions"@);
        } else {
            assert forall|j: int| 0 <= j < m implies (#[trigger] members[j]).key
                != "permissions"@ by {
                assert(list@[j].key@ != "permissions"@);
            }
            assert(members[m] == list@[m]@);
            the_first_of_a_name_is_found(members, "permissions"@, m);
        }
    }
}

/// What is missing is what was asked for, without the microphone, in the same order: `at` is
/// where each stands among what was asked for.
pub proof fn what_is_missing_was_asked_for(asked: Seq<Seq<char>>) -> (at: Seq<int>)
    ensures
        at.len() == missing_of(asked).len(),
        forall|k: int|
            0 <= k < at.len() ==> 0 <= (#[trigger] at[k]) < asked.len() && missing_of(asked)[k]
                == asked[at[k]] && asked[at[k]] != "MICROPHONE_ACCESS"@,
        forall|k: int, l: int| 0 <= k < l < at.len() ==> (#[trigger] at[k]) < (#[trigger] at[l]),
        forall|i: int|
            0 <= i < asked.len() && (#[trigger] asked[i]) != "MICROPHONE_ACCESS"@ ==> at.contains(
                i,
            ),
    decreases asked.len(),
{
    reveal(Seq::filter);
    if asked.len() == 0 {
        Seq::empty()
    } else {
        let fewer = asked.drop_last();
        let before = what_is_missing_was_asked_for(fewer);
        let last = asked.len() - 1;
        let at = if asked.last() != "MICROPHONE_ACCESS"@ {
            before.push(last)
        } else {
            before
        };
        assert forall|k: int| 0 <= k < before.len() implies 0 <= (#[trigger] before[k]) < last
            && asked[before[k]] == fewer[before[k]] by {}
        assert forall|i: int|
            0 <= i < asked.len() && (#[trigger] asked[i])
                != "MICROPHONE_ACCESS"@ implies at.contains(i) by {
            if i < last {
                assert(fewer[i] == asked[i]);
                assert(before.contains(i));
                let k = choose|k: int| 0 <= k < before.len() && before[k] == i;
                assert(at[k] == i);
            } else {
                assert(at[at.len() - 1] == i);
            }
        }
        at
    }
}

/// An answer is a JSON object of two members, in either order: `status`, a string, and
/// `missingPermissions`, a list of strings, which is what is missing and nothing else. The
/// status is `DENIED` exactly when something other than the microphone was asked for, and
/// `AUTHORIZED` otherwise. `at` is where the two members stand.
pub proof fn an_answer_is_denied_for_anything_but_the_microphone(
    body: Seq<char>,
    asked: Seq<Seq<char>>,
) -> (at: (int, int))
    requires
        tells(body, asked),
    ensures
        json_parsed(body) is Some,
        json_parsed(body)->0.members is Some,
        ({
            let members = json_parsed(body)->0.members->0;
            let (s, l) = at;
            &&& members.len() == 2
            &&& 0 <= s < 2 && 0 <= l < 2 && s != l
            &&& members[s].key == "status"@ && members[l].key == "missingPermissions"@
            &&& members[s].text == Some(
                if exists|i: int| 0 <= i < asked.len() && #[trigger] asked[i] != "MICROPHONE_ACCESS"@ {
                    "DENIED"@
                } else {
                    "AUTHORIZED"@
                },
            )
            &&& members[l].items is Some
            &&& members[l].items->0.len() == missing_of(asked).len()
            &&& forall|k: int|
                0 <= k < missing_of(asked).len() ==> (#[trigger] members[l].items->0[k]) == Some(
                    missing_of(asked)[k],
                )
        }),
{
    let members = json_parsed(body)->0.members->0;
    reveal_strlit("status");
    reveal_strlit("missingPermissions");
    assert("status"@.len() != "missingPermissions"@.len());
    only_the_microphone_is_granted(asked);
    let rest = members.drop_first();
    assert(rest[0] == members[1]);
    reveal_with_fuel(member_named, 3);
    let s = if members[0].key == "status"@ {
        0int
    } else {
        1int
    };
    let l = if members[0].key == "missingPermissions"@ {
        0int
    } else {
        1int
    };
    if exists|i: int| 0 <= i < asked.len() && #[trigger] asked[i] != "MICROPHONE_ACCESS"@ {
    } else {
        assert(status_of(asked) == "AUTHORIZED"@);
    }
    (s, l)
}

/// A request whose list names anything but the microphone is denied, and whatever else it
/// names is missing; a request whose list names nothing else is authorized.
pub proof fn a_request_is_denied_for_any_other_name(
    request: Document,
    m: int,
    body: Seq<char>,
) -> (at: (int, int))
    requires
        request.members is Some,
        0 <= m < request.members->0@.len(),
        request.members->0@[m].key@ == "permissions"@,
        forall|j: int|
            0 <= j < m ==> (#[trigger] request.members->0@[j]).key@ != "permissions"@,
        request.members->0@[m].items is Some,
        tells(body, asked_in(request@)),
    ensures
        json_parsed(body) is Some,
        json_parsed(body)->0.members is Some,
        ({
            let items = request.members->0@[m].items->0@;
            let members = json_parsed(body)->0.members->0;
            let (s, l) = at;
            let denied = exists|i: int|
                0 <= i < items.len() && (#[trigger] items[i]) is Some && items[i]->0@
                    != "MICROPHONE_ACCESS"@;
            &&& members.len() == 2 && 0 <= s < 2 && 0 <= l < 2 && s != l
            &&& members[s].key == "status"@ && members[l].key == "missingPermissions"@
            &&& members[s].text == Some(
                if denied {
                    "DENIED"@
                } else {
                    "AUTHORIZED"@
                },
            )
            &&& members[l].items is Some
            &&& forall|i: int|
                0 <= i < items.len() && (#[trigger] items[i]) is Some && items[i]->0@
                    != "MICROPHONE_ACCESS"@ ==> members[l].items->0.contains(
                    Some(items[i]->0@),
                )
            &&& forall|k: int|
                0 <= k < members[l].items->0.len() ==> (#[trigger] members[l].items->0[k]) is Some
                    && members[l].items->0[k]->0 != "MICROPHONE_ACCESS"@
        }),
{
    let items = request.members->0@[m].items->0@;
    let asked = asked_in(request@);
    let places = what_is_asked_for_is_what_the_list_names(request, m);
    let at = an_answer_is_denied_for_anything_but_the_microphone(body, asked);
    let from = what_is_missing_was_asked_for(asked);
    let list = json_parsed(body)->0.members->0[at.1].items->0;
    if exists|i: int|
        0 <= i < items.len() && (#[trigger] items[i]) is Some && items[i]->0@
            != "MICROPHONE_ACCESS"@ {
        let i = choose|i: int|
            0 <= i < items.len() && (#[trigger] items[i]) is Some && items[i]->0@
                != "MICROPHONE_ACCESS"@;
        let k = choose|k: int| 0 <= k < asked.len() && asked[k] == items[i]->0@;
        assert(asked[k] != "MICROPHONE_ACCESS"@);
    } else {
        assert forall|k: int| 0 <= k < asked.len() implies #[trigger] asked[k]
            == "MICROPHONE_ACCESS"@ by {
            assert(items[places[k]] is Some);
        }
    }
    assert forall|i: int|
        0 <= i < items.len() && (#[trigger] items[i]) is Some && items[i]->0@
            != "MICROPHONE_ACCESS"@ implies list.contains(Some(items[i]->0@)) by {
        let k = choose|k: int| 0 <= k < asked.len() && asked[k] == items[i]->0@;
        assert(from.contains(k));
        let n = choose|n: int| 0 <= n < from.len() && from[n] == k;
        assert(list[n] == Some(missing_of(asked)[n]));
        assert(list[n] == Some(items[i]->0@));
    }
    assert forall|k: int| 0 <= k < list.len() implies (#[trigger] list[k]) is Some && list[k]->0
        != "MICROPHONE_ACCESS"@ by {
        assert(missing_of(asked)[k] == asked[from[k]]);
    }
    at
}

/// A request that is not JSON holds nothing, and any other holds what was read.
pub proof fn a_request_holds_what_was_read(read: DocumentModel)
    ensures
        request_in(None).members is None,
        request_in(Some(read)) == read,
        asked_in(request_in(None)) == Seq::<Seq<char>>::empty(),
{
}

/// The keys of a request are those of its members, one for one.
pub proof fn the_keys_are_the_members_keys(request: Document, i: int)
    ensures
        request.members is None ==> keys_of(request@).len() == 0,
        request.members matches Some(members) ==> keys_of(request@).len() == members@.len() && (0
            <= i < members@.len() ==> keys_of(request@)[i] == members@[i].key@),
{
}

/// A C string that was framed is the text's bytes and a NUL, the only one, and takes up no
/// more than its room. Nothing else keeps a text from being framed but a NUL in it and want
/// of room.
pub proof fn a_framed_text_is_a_c_string(body: Seq<char>, room: usize, j: int)
    ensures
        framed(body, room) matches Some(bytes) ==> {
            &&& bytes.len() == encode_utf8(body).len() + 1
            &&& bytes.len() <= room
            &&& bytes.last() == 0
            &&& bytes.drop_last() == encode_utf8(body)
            &&& 0 <= j < bytes.len() - 1 ==> bytes[j] != 0
        },
        framed(body, room) is None ==> encode_utf8(body).len() + 1 > room || encode_utf8(
            body,
        ).contains(0),
{
    if let Some(bytes) = framed(body, room) {
        assert(bytes.drop_last() =~= encode_utf8(body));
        if 0 <= j < bytes.len() - 1 {
            assert(encode_utf8(body)[j] == bytes[j]);
        }
    }
}

/// Of a buffer's text just the NULs at its end are cut off.
pub proof fn only_the_last_nuls_are_cut_off(text: Seq<char>, j: int)
    ensures
        ({
            let kept = without_last_nuls(text);
            &&& kept.len() <= text.len()
            &&& kept == text.take(kept.len() as int)
            &&& kept.len() > 0 ==> kept.last() != '\0'
            &&& kept.len() <= j < text.len() ==> text[j] == '\0'
        }),
    decreases text.len(),
{
    if text.len() > 0 && text.last() == '\0' {
        let fewer = text.drop_last();
        only_the_last_nuls_are_cut_off(fewer, j);
        assert(fewer.take(without_last_nuls(fewer).len() as int) =~= text.take(
            without_last_nuls(fewer).len() as int,
        ));
    } else {
        assert(text.take(text.len() as int) =~= text);
    }
}

/// What is said about a request: its last line gives the method, what was asked for and the
/// status. A line before it, which gives the keys, is there exactly if nothing was asked for.
pub proof fn what_is_said_about_a_request(method: Seq<char>, request: DocumentModel)
    ensures
        ({
            let lines = lines_for(method, request);
            let asked = asked_in(request);
            &&& lines.len() == if asked.len() == 0 {
                2nat
            } else {
                1nat
            }
            &&& lines.last() == "  permissions: "@ + method + " "@ + list_debug(asked) + " -> "@ + (
            if exists|i: int| 0 <= i < asked.len() && #[trigger] asked[i] != "MICROPHONE_ACCESS"@ {
                "DENIED"@
            } else {
                "AUTHORIZED"@
            })
            &&& asked.len() == 0 ==> lines[0] == "  permissions: "@ + method
                + " carried no permission list (keys "@ + list_debug(keys_of(request)) + ")"@
        }),
{
    let asked = asked_in(request);
    only_the_microphone_is_granted(asked);
    if exists|i: int| 0 <= i < asked.len() && #[trigger] asked[i] != "MICROPHONE_ACCESS"@ {
    } else {
        assert(status_of(asked) == "AUTHORIZED"@);
    }
}

/// What is said about binding a method: that it was bound exactly if the code is zero,
/// whatever the buffer holds, and otherwise what the buffer says.
pub proof fn what_is_said_about_binding(
    method: Seq<char>,
    rc: i32,
    err: Seq<u8>,
    other: Seq<u8>,
)
    ensures
        rc == 0 ==> bind_text(method, rc, err) == bind_text(method, rc, other),
        rc == 0 ==> bind_text(method, rc, err) == "  permissions: "@ + "PermissionsProtocol"@ + "."@
            + method + " handler bound"@,
        rc != 0 ==> bind_text(method, rc, err) == "  permissions: could not bind "@
            + "PermissionsProtocol"@ + "."@ + method + ": "@ + without_last_nuls(lossy_text(err)),
{
}

} // verus!
