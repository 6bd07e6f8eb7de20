use base64::{engine::general_purpose::STANDARD, Engine as _};
use zeroclaw::json::{JsonField, JsonMember, JsonObject};
use zeroclaw::media_ref::{
    extract_media_refs, replace_media_refs, summarize_descriptor, summarize_media_ref,
    ReplaceStep, Replacement, MEDIA_REF_PREFIX,
};

fn payload(kind: &str, es: &str) -> String {
    STANDARD.encode(format!(r#"{{"v":1,"k":"{kind}","es":"{es}","dp":"/x"}}"#))
}

fn text_member(name: &str, value: &str) -> JsonMember {
    JsonMember {
        name: name.to_string(),
        value: JsonField::Text(value.to_string()),
    }
}

#[test]
fn extracts_and_replaces_markers() {
    let p = payload("audio", "AbCdEfGhIj");
    let text = format!("[Voice]\n[WA-MEDIA:{p}] trailing");
    assert_eq!(extract_media_refs(&text), vec![p.clone()]);
    let replaced = replace_media_refs(&text, |x| {
        assert_eq!(x, p);
        Some("[gone]".to_string())
    });
    assert_eq!(replaced, "[Voice]\n[gone] trailing");
}

#[test]
fn summary_ids_from_hash_and_rejects_garbage() {
    let s = summarize_media_ref(&payload("audio", "AbCdEfGhIj")).unwrap();
    assert_eq!(s.id, "AbCdEfGh");
    assert_eq!(s.kind, "audio");
    assert!(summarize_media_ref("not-base64!").is_none());
    assert!(summarize_media_ref(&STANDARD.encode("{\"v\":1}")).is_none());
}

#[test]
fn unrenderable_payloads_survive_verbatim() {
    let text = "[WA-MEDIA:junk] tail";
    assert_eq!(replace_media_refs(text, |_| None), text);
}

#[test]
fn the_prefix_is_that_of_the_markers() {
    assert_eq!(MEDIA_REF_PREFIX, "[WA-MEDIA:");
}

#[test]
fn plain_text_has_no_markers() {
    assert!(extract_media_refs("").is_empty());
    assert!(extract_media_refs("nothing [here] at all").is_empty());
    assert!(extract_media_refs("[WA-MEDIA:never closed").is_empty());
    assert_eq!(replace_media_refs("[WA-MEDIA:never closed", |_| Some("x".to_string())), "[WA-MEDIA:never closed");
}

#[test]
fn markers_come_in_order_of_appearance() {
    let text = "a [WA-MEDIA:one] b [WA-MEDIA:two][WA-MEDIA:] c";
    let refs = extract_media_refs(text);
    assert_eq!(refs[0], "one");
    assert_eq!(refs[1], "two");
    let mut seen = Vec::new();
    let out = replace_media_refs(text, |p| {
        seen.push(p.to_string());
        if p == "one" {
            Some("1".to_string())
        } else {
            None
        }
    });
    assert_eq!(out, "a 1 b [WA-MEDIA:two][WA-MEDIA:] c");
    assert_eq!(seen, refs);
}

#[test]
fn replacements_are_not_scanned_again() {
    let out = replace_media_refs("[WA-MEDIA:x]", |_| Some("[WA-MEDIA:x]".to_string()));
    assert_eq!(out, "[WA-MEDIA:x]");
}

#[test]
fn markers_stand_among_other_scripts() {
    let text = "Zoë 日本 [WA-MEDIA:abc] ü";
    assert_eq!(extract_media_refs(text), vec!["abc".to_string()]);
    assert_eq!(replace_media_refs(text, |_| Some("é".to_string())), "Zoë 日本 é ü");
}

#[test]
fn descriptors_need_a_kind_and_a_long_enough_hash() {
    let good = JsonObject {
        members: vec![text_member("k", "image"), text_member("es", "0123456789")],
    };
    let summary = summarize_descriptor(&good).unwrap();
    assert_eq!(summary.kind, "image");
    assert_eq!(summary.id, "01234567");

    let exact = JsonObject {
        members: vec![text_member("k", "image"), text_member("es", "01234567")],
    };
    assert_eq!(summarize_descriptor(&exact).unwrap().id, "01234567");

    let short = JsonObject {
        members: vec![text_member("k", "image"), text_member("es", "0123456")],
    };
    assert!(summarize_descriptor(&short).is_none());

    let no_kind = JsonObject {
        members: vec![text_member("es", "0123456789")],
    };
    assert!(summarize_descriptor(&no_kind).is_none());

    let kind_of_number = JsonObject {
        members: vec![
            JsonMember {
                name: "k".to_string(),
                value: JsonField::Number(Some(3)),
            },
            text_member("es", "0123456789"),
        ],
    };
    assert!(summarize_descriptor(&kind_of_number).is_none());
}

#[test]
fn a_hash_cut_inside_a_character_identifies_nothing() {
    let cut = JsonObject {
        members: vec![text_member("k", "image"), text_member("es", "0123456é9")],
    };
    assert!(summarize_descriptor(&cut).is_none());
    let whole = JsonObject {
        members: vec![text_member("k", "image"), text_member("es", "012345é9")],
    };
    assert_eq!(summarize_descriptor(&whole).unwrap().id, "012345é");
}

#[test]
fn descriptors_that_are_no_objects_identify_nothing() {
    assert!(summarize_media_ref(&STANDARD.encode("[1,2]")).is_none());
    assert!(summarize_media_ref(&STANDARD.encode("\"text\"")).is_none());
    assert!(summarize_media_ref(&STANDARD.encode("{broken")).is_none());
    assert!(summarize_media_ref("").is_none());
}

#[test]
fn markers_given_back_change_nothing() {
    for text in ["", "plain", "[WA-MEDIA:a]", "x[WA-MEDIA:a]y[WA-MEDIA:]z[WA-MEDIA:b", "é[WA-MEDIA:[WA-MEDIA:q]]"] {
        assert_eq!(replace_media_refs(text, |_| None), text);
        assert_eq!(
            replace_media_refs(text, |p| Some(format!("[WA-MEDIA:{p}]"))),
            text
        );
        let mut calls = 0;
        let mixed = replace_media_refs(text, |p| {
            calls += 1;
            if calls % 2 == 0 {
                None
            } else {
                Some(format!("[WA-MEDIA:{p}]"))
            }
        });
        assert_eq!(mixed, text);
        assert_eq!(calls, extract_media_refs(text).len());
    }
}

#[test]
fn a_replacement_asks_for_each_payload_once() {
    let text = "a [WA-MEDIA:one] b [WA-MEDIA:two] c";
    let mut asked = Vec::new();
    let mut run = Replacement::new(text);
    let out = loop {
        match run.next() {
            ReplaceStep::Ask(marker) => {
                asked.push(marker.payload().to_string());
                let reply = if asked.len() == 1 {
                    Some("<1>".to_string())
                } else {
                    None
                };
                run = marker.answer(reply);
            }
            ReplaceStep::Done(out) => break out,
        }
    };
    assert_eq!(asked, extract_media_refs(text));
    assert_eq!(out, "a <1> b [WA-MEDIA:two] c");
}
