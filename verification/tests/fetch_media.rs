use base64::{engine::general_purpose::STANDARD, Engine as _};
use zeroclaw::fetch_media::{
    media_label, select_media_refs, FetchMediaTool, FetchPlan, FetchedMedia, SCAN_TAIL_ROWS,
};
use zeroclaw::json::{JsonField, JsonMember, JsonObject};
use zeroclaw::media_ref::{summarize_media_ref, MediaRefSummary};

fn payload(kind: &str, es: &str) -> String {
    STANDARD.encode(format!(r#"{{"v":1,"k":"{kind}","es":"{es}","dp":"/x"}}"#))
}

fn ticket(kind: &str, es: &str) -> String {
    let payload = payload(kind, es);
    format!("[WA-MEDIA:{payload}]")
}

fn args(members: Vec<(&str, JsonField)>) -> JsonObject {
    JsonObject {
        members: members
            .into_iter()
            .map(|(name, value)| JsonMember {
                name: name.to_string(),
                value,
            })
            .collect(),
    }
}

fn text(s: &str) -> JsonField {
    JsonField::Text(s.to_string())
}

fn tool() -> FetchMediaTool {
    FetchMediaTool::new(vec!["whatsapp".to_string(), "matrix".to_string()])
}

fn plan(id: Option<&str>, last: usize) -> FetchPlan {
    FetchPlan {
        session_key: "matrix_room".to_string(),
        channel: "matrix".to_string(),
        id: id.map(str::to_string),
        last,
    }
}

#[test]
fn selects_newest_first_and_respects_count() {
    let rows = vec![
        format!("[Voice]\n{}", ticket("audio", "AAAAAAAAAA")),
        format!("[Voice]\n{}", ticket("audio", "BBBBBBBBBB")),
        "plain text".to_string(),
    ];
    let picked = select_media_refs(&rows, None, 2);
    assert_eq!(picked.len(), 2);
    assert_eq!(summarize_media_ref(&picked[0]).unwrap().id, "BBBBBBBB");
    assert_eq!(summarize_media_ref(&picked[1]).unwrap().id, "AAAAAAAA");
}

#[test]
fn selects_by_id_prefix() {
    let rows = vec![
        format!("x {}", ticket("audio", "AbCdEfGhIj")),
        format!("y {}", ticket("image", "ZyXwVuTsRq")),
    ];
    let picked = select_media_refs(&rows, Some("AbCd"), 1);
    assert_eq!(picked.len(), 1);
    assert_eq!(summarize_media_ref(&picked[0]).unwrap().kind, "audio");
    assert!(select_media_refs(&rows, Some("nope"), 1).is_empty());
}

#[test]
fn ignores_user_typed_lookalikes() {
    let rows = vec!["fake [WA-MEDIA:not-a-ticket] here".to_string()];
    assert!(select_media_refs(&rows, None, 3).is_empty());
}

#[test]
fn tickets_of_one_row_are_newest_last() {
    let rows = vec![format!(
        "{} {}",
        ticket("audio", "AAAAAAAAAA"),
        ticket("image", "BBBBBBBBBB")
    )];
    let picked = select_media_refs(&rows, None, 2);
    assert_eq!(picked[0], payload("image", "BBBBBBBBBB"));
    assert_eq!(picked[1], payload("audio", "AAAAAAAAAA"));
}

#[test]
fn a_count_of_zero_takes_none() {
    let rows = vec![ticket("audio", "AAAAAAAAAA"), ticket("image", "BBBBBBBBBB")];
    assert!(select_media_refs(&rows, None, 0).is_empty());
    assert!(select_media_refs(&rows, Some("AAAA"), 0).is_empty());
    let one = vec![ticket("audio", "AAAAAAAA")];
    assert!(select_media_refs(&one, None, 0).is_empty());
}

#[test]
fn never_more_than_the_count_are_taken() {
    let rows = vec![
        ticket("audio", "AAAAAAAAAA"),
        ticket("audio", "BBBBBBBBBB"),
        ticket("audio", "CCCCCCCCCC"),
    ];
    for last in 0..6 {
        let picked = select_media_refs(&rows, None, last);
        assert_eq!(picked.len(), last.min(3));
    }
}

#[test]
fn labels_name_kind_and_id() {
    let summary = MediaRefSummary {
        id: "AbCdEfGh".to_string(),
        kind: "audio".to_string(),
    };
    assert_eq!(media_label(&Some(summary)), "audio AbCdEfGh");
    assert_eq!(media_label(&None), "media");
}

#[test]
fn the_scan_stops_at_the_tail_of_the_history() {
    let mut history = vec![ticket("audio", "AAAAAAAAAA")];
    for _ in 0..SCAN_TAIL_ROWS {
        history.push("plain".to_string());
    }
    assert!(tool().select(&plan(None, 1), &history).is_err());
    history.remove(1);
    assert_eq!(
        tool().select(&plan(None, 1), &history).unwrap(),
        vec![payload("audio", "AAAAAAAAAA")]
    );
}

#[test]
fn replies_are_reported_under_their_labels() {
    let fetched = vec![
        FetchedMedia {
            payload: payload("audio", "AbCdEfGhIj"),
            reply: Ok("hello there".to_string()),
        },
        FetchedMedia {
            payload: "junk".to_string(),
            reply: Err("expired".to_string()),
        },
    ];
    let result = tool().report(&fetched);
    assert!(result.success);
    assert_eq!(
        result.output,
        "[audio AbCdEfGh]\nhello there\n\n[media] retrieval failed: expired"
    );
    assert!(result.error.is_none());
}

#[test]
fn a_report_fails_where_every_retrieval_did() {
    let fetched = vec![FetchedMedia {
        payload: payload("image", "AbCdEfGhIj"),
        reply: Err("gone".to_string()),
    }];
    let result = tool().report(&fetched);
    assert!(!result.success);
    assert_eq!(result.output, "[image AbCdEfGh] retrieval failed: gone");
}

#[test]
fn a_call_is_planned_from_its_arguments() {
    let plan = tool()
        .begin(
            Ok(()),
            Some("matrix_room".to_string()),
            None,
            &args(vec![
                ("channel", text("whatsapp")),
                ("id", text("AbCd")),
                ("last", JsonField::Number(Some(3))),
            ]),
        )
        .unwrap();
    assert_eq!(plan.session_key, "matrix_room");
    assert_eq!(plan.channel, "whatsapp");
    assert_eq!(plan.id.as_deref(), Some("AbCd"));
    assert_eq!(plan.last, 3);
}

#[test]
fn the_count_is_kept_within_bounds() {
    for (asked, got) in [(0u64, 1usize), (1, 1), (5, 5), (6, 5), (u64::MAX, 5)] {
        let plan = tool()
            .begin(
                Ok(()),
                Some("matrix_room".to_string()),
                None,
                &args(vec![
                    ("channel", text("matrix")),
                    ("last", JsonField::Number(Some(asked))),
                ]),
            )
            .unwrap();
        assert_eq!(plan.last, got);
    }
}

#[test]
fn a_refused_call_says_what_the_policy_said() {
    let refused = tool()
        .begin(
            Err("not allowed".to_string()),
            Some("matrix_room".to_string()),
            None,
            &args(vec![]),
        )
        .unwrap_err();
    assert!(!refused.success);
    assert_eq!(refused.output, "");
    assert_eq!(refused.error.as_deref(), Some("not allowed"));
}

#[test]
fn a_call_outside_a_conversation_is_refused() {
    let refused = tool().begin(Ok(()), None, None, &args(vec![])).unwrap_err();
    assert_eq!(
        refused.error.as_deref(),
        Some("fetch_media only works inside a conversation turn")
    );
}

#[test]
fn the_channel_defaults_to_the_conversations_own() {
    let plan = tool()
        .begin(
            Ok(()),
            Some("matrix_room".to_string()),
            Some("matrix".to_string()),
            &args(vec![]),
        )
        .unwrap();
    assert_eq!(plan.channel, "matrix");
    assert_eq!(plan.id, None);
    assert_eq!(plan.last, 1);
    let refused = tool()
        .begin(Ok(()), Some("matrix_room".to_string()), None, &args(vec![]))
        .unwrap_err();
    assert_eq!(
        refused.error.as_deref(),
        Some("channel '' not found; active channels: whatsapp, matrix")
    );
}

#[test]
fn an_instance_name_falls_back_to_its_bare_channel() {
    let begin = |name: &str| {
        tool().begin(
            Ok(()),
            Some("matrix_room".to_string()),
            None,
            &args(vec![("channel", text(name))]),
        )
    };
    assert_eq!(begin("whatsapp.personal.second").unwrap().channel, "whatsapp");
    assert_eq!(begin(" matrix\n").unwrap().channel, "matrix");
    assert_eq!(
        begin("signal.x").unwrap_err().error.as_deref(),
        Some("channel 'signal.x' not found; active channels: whatsapp, matrix")
    );
}

#[test]
fn a_blank_id_asks_for_none() {
    let plan = tool()
        .begin(
            Ok(()),
            Some("matrix_room".to_string()),
            None,
            &args(vec![("channel", text("matrix")), ("id", text(" \t"))]),
        )
        .unwrap();
    assert_eq!(plan.id, None);
}

#[test]
fn nothing_found_says_what_was_looked_for() {
    let history = vec![ticket("audio", "AAAAAAAAAA")];
    let refused = tool().select(&plan(Some("zz"), 1), &history).unwrap_err();
    assert!(!refused.success);
    assert_eq!(
        refused.error.as_deref(),
        Some("no undownloaded media with id 'zz' in recent history")
    );
    let refused = tool().select(&plan(None, 1), &[]).unwrap_err();
    assert_eq!(
        refused.error.as_deref(),
        Some("no undownloaded media in recent history")
    );
}

#[test]
fn the_tool_says_what_it_is() {
    assert_eq!(tool().name(), "fetch_media");
    assert_eq!(
        tool().description(),
        "Retrieve media from this conversation's recent history that was not \
         downloaded at receive time (voice notes, images from group messages). \
         History shows such items as '[undownloaded audio — id XXXXXXXX ...]'. \
         Pass that id, or omit it to redeem the most recent item(s). Returns a \
         transcription for audio and the image itself for images."
    );
}

#[test]
fn a_channel_that_is_given_stands_even_if_it_names_none() {
    for given in [
        text(" "),
        text(""),
        JsonField::Bool(true),
        JsonField::Null,
        JsonField::Number(Some(1)),
        JsonField::Array,
        JsonField::Object,
    ] {
        let refused = tool()
            .begin(
                Ok(()),
                Some("matrix_room".to_string()),
                Some("matrix".to_string()),
                &args(vec![("channel", given)]),
            )
            .unwrap_err();
        assert!(!refused.success);
        assert_eq!(refused.output, "");
        assert_eq!(
            refused.error.as_deref(),
            Some("channel '' not found; active channels: whatsapp, matrix")
        );
    }
}
