//! JSON text, read and written with `serde_json`.
//!
//! A document is kept to the depth at which the library looks at it: the members of an
//! object, and of each member its text or the texts in its list.

use crate::text::texts;
use vstd::prelude::*;

verus! {

/// One member of a JSON object.
pub struct Member {
    pub key: String,
    /// The member's text, if it is a string.
    pub text: Option<String>,
    /// The member's elements, if it is an array: each its text, if it is a string.
    pub items: Option<Vec<Option<String>>>,
}

/// A JSON value: the members of an object, or `None` for anything else.
pub struct Document {
    pub members: Option<Vec<Member>>,
}

/// A member, as a specification sees it.
pub struct MemberModel {
    pub key: Seq<char>,
    pub text: Option<Seq<char>>,
    pub items: Option<Seq<Option<Seq<char>>>>,
}

/// A JSON value, as a specification sees it.
pub struct DocumentModel {
    pub members: Option<Seq<MemberModel>>,
}

impl View for Member {
    type V = MemberModel;

    open spec fn view(&self) -> MemberModel {
        MemberModel {
            key: self.key@,
            text: self.text.deep_view(),
            items: self.items.deep_view(),
        }
    }
}

impl View for Document {
    type V = DocumentModel;

    open spec fn view(&self) -> DocumentModel {
        DocumentModel {
            members: match self.members {
                Some(members) => Some(members@.map_values(|m: Member| m@)),
                None => None,
            },
        }
    }
}

/// The first member named `key`.
pub open spec fn member_named(members: Seq<MemberModel>, key: Seq<char>) -> Option<MemberModel>
    decreases members.len(),
{
    if members.len() == 0 {
        None
    } else if members[0].key == key {
        Some(members[0])
    } else {
        member_named(members.drop_first(), key)
    }
}

/// `document` is an object of two members: `text` under `text_key`, and a list of
/// strings under `list_key`.
pub open spec fn is_text_and_list(
    document: DocumentModel,
    text_key: Seq<char>,
    text: Seq<char>,
    list_key: Seq<char>,
    list: Seq<Seq<char>>,
) -> bool {
    document.members matches Some(members) && {
        &&& members.len() == 2
        &&& member_named(members, text_key) == Some(
            MemberModel { key: text_key, text: Some(text), items: None },
        )
        &&& member_named(members, list_key) == Some(
            MemberModel {
                key: list_key,
                text: None,
                items: Some(list.map_values(|s: Seq<char>| Some(s))),
            },
        )
    }
}

/// What `serde_json::from_str` reads out of `text`, or `None` if it is not JSON.
pub uninterp spec fn json_parsed(text: Seq<char>) -> Option<DocumentModel>;

/// What `serde_json` writes for the object that has `text` under `text_key` and the
/// strings of `list` under `list_key`.
pub uninterp spec fn json_written(
    text_key: Seq<char>,
    text: Seq<char>,
    list_key: Seq<char>,
    list: Seq<Seq<char>>,
) -> Seq<char>;

/// Calls `serde_json::from_str` for a `serde_json::Value` and hands out what is in it,
/// by `Value::as_object`, `Value::as_array` and `Value::as_str`.
///
/// Claimed of it: what comes out depends on the text alone.
#[verifier::external_body]
pub(crate) fn parse(text: &str) -> (document: Option<Document>)
    ensures
        match document {
            Some(d) => json_parsed(text@) == Some(d@),
            None => json_parsed(text@) is None,
        },
{
    let value: serde_json::Value = serde_json::from_str(text).ok()?;
    let members = value.as_object().map(|object| object.iter().map(|(key, member)| Member {
        key: key.clone(),
        text: member.as_str().map(str::to_owned),
        items: member.as_array().map(|items| items.iter().map(|item| item.as_str().map(str::to_owned)).collect()),
    }).collect());
    Some(Document { members })
}

/// Calls `to_string` of a `serde_json::Value`, an object made of the arguments.
///
/// Claimed of it: the text depends on the arguments alone; reading it gives the same
/// object back, unless one key stood for both members; and a NUL is never written as
/// it is, since control characters are escaped.
#[verifier::external_body]
pub(crate) fn compose(text_key: &str, text: &str, list_key: &str, list: &Vec<String>) -> (written: String)
    ensures
        written@ == json_written(text_key@, text@, list_key@, texts(list@)),
        text_key@ != list_key@ ==> json_parsed(written@) is Some && is_text_and_list(
            json_parsed(written@)->0,
            text_key@,
            text@,
            list_key@,
            texts(list@),
        ),
        !written@.contains('\0'),
{
    let mut object = serde_json::Map::new();
    object.insert(text_key.to_owned(), serde_json::Value::from(text));
    object.insert(list_key.to_owned(), serde_json::Value::from(list.clone()));
    serde_json::Value::Object(object).to_string()
}

/// Finds the first member named `key`.
pub fn find_member<'a>(members: &'a Vec<Member>, key: &str) -> (found: Option<&'a Member>)
    ensures
        match found {
            Some(m) => member_named(members@.map_values(|m: Member| m@), key@) == Some(m@),
            None => member_named(members@.map_values(|m: Member| m@), key@) is None,
        },
{
    let ghost all = members@.map_values(|m: Member| m@);
    let mut i: usize = 0;
    assert(all.skip(0) =~= all);
    while i < members.len()
        invariant
            i <= members@.len(),
            all == members@.map_values(|m: Member| m@),
            member_named(all, key@) == member_named(all.skip(i as int), key@),
        decreases members@.len() - i,
    {
        if crate::text::same_text(members[i].key.as_str(), key) {
            return Some(&members[i]);
        }
        assert(all.skip(i as int).drop_first() =~= all.skip(i + 1));
        i += 1;
    }
    None
}

// ---- What holds of every document ----

/// A specification sees of a document just what it holds: no members if it is no object,
/// and otherwise its members one for one, each with its key, its text and its elements.
pub proof fn a_document_is_seen_as_it_is(document: Document, i: int, k: int)
    ensures
        document@.members is Some <==> document.members is Some,
        document.members matches Some(members) ==> {
            &&& document@.members->0.len() == members@.len()
            &&& 0 <= i < members@.len() ==> {
                let seen = document@.members->0[i];
                let member = members@[i];
                &&& seen.key == member.key@
                &&& seen.text is Some <==> member.text is Some
                &&& member.text matches Some(text) ==> seen.text == Some(text@)
                &&& seen.items is Some <==> member.items is Some
                &&& member.items matches Some(items) ==> {
                    &&& seen.items->0.len() == items@.len()
                    &&& 0 <= k < items@.len() ==> (seen.items->0[k] is Some <==> items@[k] is Some)
                    &&& 0 <= k < items@.len() && items@[k] is Some ==> seen.items->0[k] == Some(
                        items@[k]->0@,
                    )
                }
            }
        },
{
}

/// Of the members of a name the first is found, and none only if there is none.
pub proof fn the_first_of_a_name_is_found(members: Seq<MemberModel>, key: Seq<char>, i: int)
    requires
        0 <= i < members.len(),
        members[i].key == key,
        forall|j: int| 0 <= j < i ==> (#[trigger] members[j]).key != key,
    ensures
        member_named(members, key) == Some(members[i]),
    decreases members.len(),
{
    if i > 0 {
        let rest = members.drop_first();
        assert(members[0].key != key);
        assert forall|j: int| 0 <= j < i - 1 implies (#[trigger] rest[j]).key != key by {
            assert(rest[j] == members[j + 1]);
        }
        the_first_of_a_name_is_found(rest, key, i - 1);
    }
}

/// A name that no member has is not found.
pub proof fn a_name_that_is_not_there_is_not_found(members: Seq<MemberModel>, key: Seq<char>)
    requires
        forall|j: int| 0 <= j < members.len() ==> (#[trigger] members[j]).key != key,
    ensures
        member_named(members, key) is None,
    decreases members.len(),
{
    if members.len() > 0 {
        let rest = members.drop_first();
        assert forall|j: int| 0 <= j < rest.len() implies (#[trigger] rest[j]).key != key by {
            assert(rest[j] == members[j + 1]);
        }
        a_name_that_is_not_there_is_not_found(rest, key);
    }
}

} // verus!
