use cordial::json::{find_member, Document, Member};
use cordial::permissions::{
    answer, answer_document, answered_line, arm, asked_permissions, bind_failure_line, bind_line,
    frame, missing_permissions, no_list_line, reply, request_keys, MICROPHONE,
};

fn status(json: &str) -> (String, Vec<String>) {
    let v: serde_json::Value = serde_json::from_str(json).unwrap();
    let missing = v["missingPermissions"]
        .as_array()
        .unwrap()
        .iter()
        .map(|s| s.as_str().unwrap().to_owned())
        .collect();
    (v["status"].as_str().unwrap().to_owned(), missing)
}

fn list(key: &str, items: &[Option<&str>]) -> Member {
    Member {
        key: key.to_owned(),
        text: None,
        items: Some(items.iter().map(|i| i.map(str::to_owned)).collect()),
    }
}

#[test]
fn the_microphone_is_granted() {
    let (s, missing) = status(
        &answer("PermissionsRequest", r#"{"permissions":["MICROPHONE_ACCESS"]}"#).body,
    );
    assert_eq!(s, "AUTHORIZED");
    assert!(missing.is_empty());
}

#[test]
fn a_permission_with_nothing_behind_it_is_not_granted() {
    let (s, missing) = status(
        &answer(
            "PermissionsRequest",
            r#"{"permissions":["MICROPHONE_ACCESS","CAMERA_ACCESS"]}"#,
        )
        .body,
    );
    assert_eq!(s, "DENIED");
    assert_eq!(missing, vec!["CAMERA_ACCESS"]);
}

#[test]
fn a_malformed_request_still_gets_a_well_formed_answer() {
    let (s, _) = status(&answer("HasPermissions", "not json").body);
    assert_eq!(s, "AUTHORIZED");
}

#[test]
fn the_answer_is_an_object_of_two_members() {
    let got = answer("PermissionsRequest", r#"{"permissions":["A\u0000\"B","C"]}"#);
    assert_eq!(
        got.body,
        r#"{"missingPermissions":["A\u0000\"B","C"],"status":"DENIED"}"#
    );
    let (s, missing) = status(&got.body);
    assert_eq!(s, "DENIED");
    assert_eq!(missing, vec!["A\u{0}\"B", "C"]);
}

#[test]
fn what_was_asked_and_answered_is_said() {
    let got = answer("PermissionsRequest", r#"{"permissions":["MICROPHONE_ACCESS","X\n"]}"#);
    assert_eq!(
        got.lines,
        [r#"  permissions: PermissionsRequest ["MICROPHONE_ACCESS", "X\n"] -> DENIED"#]
    );
}

#[test]
fn a_request_without_a_list_shows_its_keys() {
    let got = answer("HasPermissions", r#"{"wanted":["MICROPHONE_ACCESS"],"id":7}"#);
    assert_eq!(
        got.lines,
        [
            r#"  permissions: HasPermissions carried no permission list (keys ["id", "wanted"])"#,
            "  permissions: HasPermissions [] -> AUTHORIZED",
        ]
    );
    for raw in ["not json", "[1]", "null", "{}", ""] {
        let got = answer("HasPermissions", raw);
        assert_eq!(
            got.lines[0],
            "  permissions: HasPermissions carried no permission list (keys [])"
        );
        assert_eq!(got.body, r#"{"missingPermissions":[],"status":"AUTHORIZED"}"#);
    }
}

#[test]
fn only_the_strings_of_the_list_count() {
    let got = answer(
        "PermissionsRequest",
        r#"{"permissions":[1,"MICROPHONE_ACCESS",null,["CAMERA_ACCESS"]]}"#,
    );
    assert_eq!(got.body, r#"{"missingPermissions":[],"status":"AUTHORIZED"}"#);
    let text = answer("PermissionsRequest", r#"{"permissions":"CAMERA_ACCESS"}"#);
    assert_eq!(text.body, r#"{"missingPermissions":[],"status":"AUTHORIZED"}"#);
    assert_eq!(
        text.lines[0],
        r#"  permissions: PermissionsRequest carried no permission list (keys ["permissions"])"#
    );
}

#[test]
fn a_request_that_has_been_read_is_answered_the_same() {
    let request = Document {
        members: Some(vec![
            list("other", &[Some("IGNORED")]),
            list("permissions", &[Some(MICROPHONE), None, Some("CAMERA_ACCESS")]),
        ]),
    };
    assert_eq!(asked_permissions(&request), ["MICROPHONE_ACCESS", "CAMERA_ACCESS"]);
    assert_eq!(request_keys(&request), ["other", "permissions"]);
    let got = answer_document("SupportsPermissions", &request);
    assert_eq!(
        got.body,
        r#"{"missingPermissions":["CAMERA_ACCESS"],"status":"DENIED"}"#
    );
    assert_eq!(
        got.lines,
        [r#"  permissions: SupportsPermissions ["MICROPHONE_ACCESS", "CAMERA_ACCESS"] -> DENIED"#]
    );
    assert!(asked_permissions(&Document { members: None }).is_empty());
    assert!(request_keys(&Document { members: None }).is_empty());
}

#[test]
fn the_first_member_of_a_name_is_found() {
    let members = vec![list("a", &[]), list("b", &[Some("1")]), list("b", &[])];
    assert_eq!(
        find_member(&members, "b").unwrap().items,
        Some(vec![Some("1".to_owned())])
    );
    assert!(find_member(&members, "c").is_none());
}

#[test]
fn what_is_missing_keeps_its_order() {
    let asked: Vec<String> = ["B", MICROPHONE, "A", "B"].iter().map(|s| s.to_string()).collect();
    assert_eq!(missing_permissions(&asked), ["B", "A", "B"]);
}

#[test]
fn an_answer_is_a_c_string_that_fits() {
    assert_eq!(frame("ab", 3), Some(b"ab\0".to_vec()));
    assert_eq!(frame("ab", 2), None);
    assert_eq!(frame("", 1), Some(vec![0]));
    assert_eq!(frame("", 0), None);
    assert_eq!(frame("a\0b", 10), None);
    assert_eq!(frame("é", 3), Some(vec![0xc3, 0xa9, 0]));
}

#[test]
fn a_reply_fills_the_buffer_or_does_not() {
    let body = br#"{"missingPermissions":[],"status":"AUTHORIZED"}"#;
    let request: &[u8] = br#"{"permissions":["MICROPHONE_ACCESS"]}"#;
    let fits = reply("HasPermissions", Some(request), Some(body.len() + 1)).unwrap();
    let mut wanted = body.to_vec();
    wanted.push(0);
    assert_eq!(fits.bytes, Some(wanted));
    assert_eq!(
        fits.lines,
        [r#"  permissions: HasPermissions ["MICROPHONE_ACCESS"] -> AUTHORIZED"#]
    );

    let tight = reply("HasPermissions", Some(request), Some(body.len())).unwrap();
    assert_eq!(tight.bytes, None);
    assert_eq!(tight.lines.len(), 1);
}

#[test]
fn without_a_request_or_a_buffer_nothing_is_answered() {
    assert!(reply("HasPermissions", None, Some(100)).is_none());
    assert!(reply("HasPermissions", Some(b"{}"), None).is_none());
    assert!(reply("HasPermissions", Some(b"{}"), Some(0)).is_none());
}

#[test]
fn a_request_need_not_be_utf8() {
    let got = reply(
        "PermissionsRequest",
        Some(b"{\"permissions\":[\"\xffX\"]}"),
        Some(200),
    )
    .unwrap();
    let bytes = got.bytes.unwrap();
    let body = String::from_utf8(bytes[..bytes.len() - 1].to_vec()).unwrap();
    let (s, missing) = status(&body);
    assert_eq!(s, "DENIED");
    assert_eq!(missing, vec!["\u{fffd}X"]);
}

#[test]
fn binding_needs_both_functions() {
    let both = arm(Some(1), Some(2)).ok().unwrap();
    assert_eq!((both.set, both.respond), (1, 2));
    assert_eq!(
        both.methods,
        ["PermissionsRequest", "HasPermissions", "SupportsPermissions"]
    );
    let refusal =
        "  permissions: async request natives are not exported; the microphone cannot be granted";
    assert_eq!(arm(None, Some(2)).err(), Some(refusal));
    assert_eq!(arm(Some(1), None).err(), Some(refusal));
    assert_eq!(arm::<u8>(None, None).err(), Some(refusal));
}

#[test]
fn binding_is_reported() {
    assert_eq!(
        bind_line("HasPermissions", 0, b"ignored"),
        "  permissions: PermissionsProtocol.HasPermissions handler bound"
    );
    assert_eq!(
        bind_line("HasPermissions", -1, b"no such \xff\0method\0\0\0"),
        "  permissions: could not bind PermissionsProtocol.HasPermissions: no such \u{fffd}\0method"
    );
    assert_eq!(
        bind_failure_line("HasPermissions", "\0\0"),
        "  permissions: could not bind PermissionsProtocol.HasPermissions: "
    );
    assert_eq!(
        no_list_line("M", "[]"),
        "  permissions: M carried no permission list (keys [])"
    );
    assert_eq!(answered_line("M", "[]", "DENIED"), "  permissions: M [] -> DENIED");
}
