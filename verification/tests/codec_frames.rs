use dev_env::codec::{decode_project, encode_project};
use dev_env::proto::Project;

fn project(root: &str, command: &str, args: &[&str]) -> Project {
    Project::new(
        root.to_string(),
        command.to_string(),
        args.iter().map(|a| a.to_string()).collect(),
    )
}

fn round_trip(p: &Project) -> Project {
    let bytes = encode_project(p);
    decode_project(&bytes).expect("a canonical frame must decode")
}

#[test]
fn frame_has_exact_canonical_bytes() {
    let p = project("/a", "cmd", &["x", "y"]);
    let bytes = encode_project(&p);
    assert_eq!(
        bytes.as_slice(),
        br#"{"root":"/a","command":"cmd","args":["x","y"]}"#
    );
}

#[test]
fn frame_with_no_args_has_empty_list() {
    let p = project("/a", "cmd", &[]);
    let bytes = encode_project(&p);
    assert_eq!(bytes.as_slice(), br#"{"root":"/a","command":"cmd","args":[]}"#);
}

#[test]
fn round_trip_plain() {
    let p = project("/home/user/proj", "rust-analyzer", &["--stdio"]);
    let q = round_trip(&p);
    assert_eq!(q.root, p.root);
    assert_eq!(q.command, p.command);
    assert_eq!(q.args, p.args);
}

#[test]
fn round_trip_with_escapes() {
    let p = project("/a\"b\\c", "cmd\twith\nctrl", &["\u{0001}", "\u{001f}", ""]);
    let q = round_trip(&p);
    assert_eq!(q.root, p.root);
    assert_eq!(q.command, p.command);
    assert_eq!(q.args, p.args);
}

#[test]
fn round_trip_non_ascii() {
    let p = project("/wörk/späce", "sprachserver", &["–flag", "日本語"]);
    let q = round_trip(&p);
    assert_eq!(q.root, p.root);
    assert_eq!(q.command, p.command);
    assert_eq!(q.args, p.args);
}

#[test]
fn escapes_match_their_short_forms() {
    let p = project("/a", "c", &["a\u{0008}b\u{000c}c\r\n\t\"\\"]);
    let bytes = encode_project(&p);
    let expected: &[u8] = br#"{"root":"/a","command":"c","args":["a\bb\fc\r\n\t\"\\"]}"#;
    assert_eq!(bytes.as_slice(), expected);
}

#[test]
fn control_bytes_use_lowercase_u_escapes() {
    let p = project("/a", "c", &["\u{0000}\u{001f}"]);
    let bytes = encode_project(&p);
    let expected: &[u8] = br#"{"root":"/a","command":"c","args":["\u0000\u001f"]}"#;
    assert_eq!(bytes.as_slice(), expected);
}

#[test]
fn truncated_frame_is_rejected() {
    let p = project("/a", "cmd", &["x"]);
    let bytes = encode_project(&p);
    for cut in 0..bytes.len() {
        assert!(
            decode_project(&bytes[..cut]).is_none(),
            "a truncated frame must not decode"
        );
    }
}

#[test]
fn trailing_bytes_are_rejected() {
    let p = project("/a", "cmd", &["x"]);
    let mut bytes = encode_project(&p);
    bytes.push(b' ');
    assert!(decode_project(&bytes).is_none());
}

#[test]
fn whitespace_variant_is_rejected() {
    // Only the canonical frame is accepted; a spaced rendering of the same
    // record is malformed for this handshake.
    let spaced: &[u8] = br#"{ "root": "/a", "command": "cmd", "args": [] }"#;
    assert!(decode_project(spaced).is_none());
}

#[test]
fn wrong_key_order_is_rejected() {
    let swapped: &[u8] = br#"{"command":"cmd","root":"/a","args":[]}"#;
    assert!(decode_project(swapped).is_none());
}

#[test]
fn raw_control_byte_in_string_is_rejected() {
    let mut bytes = br#"{"root":"/a","command":"c","args":[]}"#.to_vec();
    // splice a raw newline into the root string content
    bytes.insert(10, b'\n');
    assert!(decode_project(&bytes).is_none());
}

#[test]
fn non_canonical_u_escape_is_rejected() {
    // `\u0041` is 'A', which must be written raw in a canonical frame.
    let frame: &[u8] = br#"{"root":"\u0041","command":"c","args":[]}"#;
    assert!(decode_project(frame).is_none());
}

#[test]
fn invalid_utf8_content_is_rejected() {
    // A lone continuation byte passes the escaper's byte rules but is not
    // valid UTF-8, so no descriptor is produced.
    let mut bytes = br#"{"root":""#.to_vec();
    bytes.push(0xff);
    bytes.extend_from_slice(br#"","command":"c","args":[]}"#);
    assert!(decode_project(&bytes).is_none());
}

#[test]
fn empty_payload_is_rejected() {
    assert!(decode_project(&[]).is_none());
}

#[test]
fn frames_parse_as_json_for_the_remote_peer() {
    // The frame must stay readable by a standard JSON decoder, which is what
    // the listening side of the original wire format used.
    let p = project("/wörk", "cmd\"q", &["a\tb", ""]);
    let bytes = encode_project(&p);
    let v: serde_json::Value = serde_json::from_slice(&bytes).expect("frame must be valid JSON");
    assert_eq!(v.get("root").unwrap().as_str().unwrap(), "/wörk");
    assert_eq!(v.get("command").unwrap().as_str().unwrap(), "cmd\"q");
    let args: Vec<&str> = v
        .get("args")
        .unwrap()
        .as_array()
        .unwrap()
        .iter()
        .map(|a| a.as_str().unwrap())
        .collect();
    assert_eq!(args, vec!["a\tb", ""]);
}

#[test]
fn json_string_escaping_matches_the_reference_emitter() {
    // String escaping must agree with the standard JSON emitter the wire
    // format came from: same short escapes, same lowercase \u00xx forms.
    let tricky = "a\"b\\c\u{0008}\u{000c}\n\r\t\u{0000}\u{001f}ö";
    let ours = encode_project(&project("/r", "c", &[tricky]));
    let reference = serde_json::to_vec(&serde_json::Value::String(tricky.to_string())).unwrap();
    // our frame embeds exactly the reference rendering of the string
    let ours_str = String::from_utf8(ours).unwrap();
    let ref_str = String::from_utf8(reference).unwrap();
    assert!(
        ours_str.contains(&ref_str),
        "frame {ours_str} must embed reference string rendering {ref_str}"
    );
}

#[test]
fn json_emitter_output_decodes_in_wire_key_order() {
    let wire = br#"{"root":"/a/b","command":"server","args":["--x"]}"#;
    let decoded = decode_project(wire).expect("canonical frame must decode");
    assert_eq!(decoded.root, "/a/b");
    assert_eq!(decoded.command, "server");
    assert_eq!(decoded.args, vec!["--x".to_string()]);
}
