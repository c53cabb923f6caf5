use ags::feedback::form::{decode, field, parse_feedback_form};
use ags::feedback::model::{
    FeedbackItem, FeedbackKind, FeedbackStatus, FeedbackTarget, NoTarget, SubTarget,
};
use ags::feedback::store::{merge, replay, LogEntry, Session};
use ags::feedback::poll::{poll_step, PollAction};
use ags::feedback::wire::{accept_posted, poll_rows, FeedbackRow};

#[test]
fn a_plus_is_a_space_and_a_percent_pair_is_a_byte() {
    assert_eq!(decode("a+b"), "a b");
    assert_eq!(decode("a%20b"), "a b");
    assert_eq!(decode("%C3%A9"), "é");
    assert_eq!(decode("plain"), "plain");
    assert_eq!(decode(""), "");
}

#[test]
fn a_broken_escape_keeps_the_character_the_reviewer_typed() {
    assert_eq!(decode("100%"), "100%");
    assert_eq!(decode("50%z9"), "50%z9");
    assert_eq!(decode("%2"), "%2");
}

#[test]
fn a_byte_that_is_not_utf8_reads_as_the_replacement_character() {
    assert_eq!(decode("%FF"), "\u{FFFD}");
    assert_eq!(decode("a%C3"), "a\u{FFFD}");
}

#[test]
fn a_field_is_found_by_its_decoded_name() {
    let body = "block_id=flow&body=hello+there&kind=annotation";
    assert_eq!(field(body, "block_id").as_deref(), Some("flow"));
    assert_eq!(field(body, "body").as_deref(), Some("hello there"));
    assert_eq!(field(body, "missing"), None);
}

#[test]
fn a_valueless_pair_is_not_a_field() {
    assert_eq!(field("novalue&a=1", "novalue"), None);
    assert_eq!(field("novalue&a=1", "a").as_deref(), Some("1"));
}

#[test]
fn an_annotation_is_the_default_kind() {
    let item = parse_feedback_form("block_id=flow&body=looks+wrong").expect("parses");
    assert_eq!(item.block_id, "flow");
    assert_eq!(item.kind, FeedbackKind::Annotation);
    assert_eq!(item.body, "looks wrong");
    assert!(item.sub_target.is_none());
}

#[test]
fn a_node_target_rides_along_when_the_reviewer_aimed_at_one() {
    let item = parse_feedback_form("block_id=flow&sub=Auth&body=why+here").expect("parses");
    assert_eq!(item.sub_target, Some(SubTarget::Node("Auth".into())));
}

#[test]
fn an_empty_sub_reads_as_no_sub() {
    let item = parse_feedback_form("block_id=flow&sub=&body=x").expect("parses");
    assert!(item.sub_target.is_none());
}

#[test]
fn an_answer_is_recorded_as_one() {
    let item = parse_feedback_form("block_id=q1&kind=answer&body=SQLite").expect("parses");
    assert_eq!(item.kind, FeedbackKind::Answer);
    assert_eq!(item.body, "SQLite");
}

#[test]
fn a_post_with_no_block_is_refused() {
    parse_feedback_form("body=orphan").unwrap_err();
    parse_feedback_form("block_id=+&body=orphan").unwrap_err();
}

#[test]
fn an_empty_body_is_refused_rather_than_recorded_blank() {
    parse_feedback_form("block_id=flow&body=").unwrap_err();
    parse_feedback_form("block_id=flow&body=+++").unwrap_err();
    parse_feedback_form("block_id=flow").unwrap_err();
}

#[test]
fn a_kind_a_reviewer_does_not_send_is_refused() {
    let err = parse_feedback_form("block_id=f&kind=finding&body=x").unwrap_err();
    assert!(err.contains("finding"), "{err}");
}

#[test]
fn every_refusal_names_its_reason() {
    assert_eq!(
        parse_feedback_form("body=orphan").unwrap_err(),
        "feedback names no resolvable target"
    );
    assert_eq!(
        parse_feedback_form("block_id=flow&body=+").unwrap_err(),
        "feedback carries no body"
    );
    assert_eq!(
        parse_feedback_form("block_id=f&kind=finding&body=x").unwrap_err(),
        "'finding' is not a kind a commenter sends"
    );
}

#[test]
fn new_item_defaults_to_new_status() {
    let item = FeedbackItem::new("b", None, FeedbackKind::Annotation, "x").unwrap();
    assert_eq!(item.status, FeedbackStatus::New);
}

#[test]
fn target_and_resolved_default_for_a_new_item() {
    let item = FeedbackItem::new("b", None, FeedbackKind::Annotation, "x").unwrap();
    assert_eq!(item.target, FeedbackTarget::Agent);
    assert_eq!(FeedbackTarget::default(), FeedbackTarget::Agent);
    assert_eq!(FeedbackStatus::default(), FeedbackStatus::New);
    assert!(!item.resolved);
}

#[test]
fn subtarget_descriptions() {
    assert_eq!(SubTarget::Node("Auth".into()).describe(), "node:Auth");
    assert_eq!(SubTarget::Cell { row: 1, col: 2 }.describe(), "cell:1,2");
    assert_eq!(SubTarget::Lines("12-18".into()).describe(), "line:12-18");
    let text = SubTarget::Text {
        quote: "q".into(),
        before: "b".into(),
        after: "a".into(),
    };
    assert_eq!(text.describe(), "text:q");
}

#[test]
fn item_requires_a_block_target() {
    assert_eq!(
        FeedbackItem::new("", None, FeedbackKind::Annotation, "hi"),
        Err(NoTarget)
    );
    assert_eq!(
        FeedbackItem::new("   ", None, FeedbackKind::Answer, "Rust"),
        Err(NoTarget)
    );
}

#[test]
fn item_anchor_reflects_sub_target() {
    let block = FeedbackItem::new("flow", None, FeedbackKind::Annotation, "x").unwrap();
    assert_eq!(block.anchor(), "#flow");
    let node = FeedbackItem::new(
        "flow",
        Some(SubTarget::Node("Auth".into())),
        FeedbackKind::Annotation,
        "check this",
    )
    .unwrap();
    assert_eq!(node.anchor(), "#flow/node:Auth");
}

fn item(block: &str, sub: Option<SubTarget>, status: FeedbackStatus, body: &str) -> FeedbackItem {
    let mut it = FeedbackItem::new(block, sub, FeedbackKind::Annotation, body).unwrap();
    it.status = status;
    it
}

fn session() -> Session {
    Session::new("artifact.md.ags.jsonl")
}

fn bodies(items: &[FeedbackItem]) -> Vec<&str> {
    items.iter().map(|i| i.body.as_str()).collect()
}

#[test]
fn missing_log_is_an_empty_state() {
    assert_eq!(session().settled(&[]), (Vec::new(), false));
}

#[test]
fn appends_are_settled_in_first_seen_order() {
    let s = session();
    let log = vec![
        s.append(&item("a", None, FeedbackStatus::New, "first")),
        s.append(&item("b", None, FeedbackStatus::New, "second")),
    ];
    let (items, ended) = s.settled(&log);
    assert!(!ended);
    assert_eq!(bodies(&items), ["first", "second"]);
}

#[test]
fn update_overrides_in_place_and_delete_drops() {
    let s = session();
    let node = || Some(SubTarget::Node("Auth".into()));
    let mut log = vec![
        s.append(&item("flow", node(), FeedbackStatus::New, "v1")),
        s.append(&item("flow", None, FeedbackStatus::New, "block note")),
        s.append(&item("flow", node(), FeedbackStatus::Update, "v2")),
    ];
    let (items, _) = s.settled(&log);
    assert_eq!(items.len(), 2);
    assert_eq!(items[0].anchor(), "#flow/node:Auth");
    assert_eq!(items[0].body, "v2");
    assert_eq!(items[1].body, "block note");
    log.push(s.append(&item("flow", node(), FeedbackStatus::Delete, "v2")));
    let (items, _) = s.settled(&log);
    assert_eq!(bodies(&items), ["block note"]);
}

#[test]
fn feedback_of_different_kinds_on_one_block_coexist() {
    let s = session();
    let mut log = Vec::new();
    for (kind, body) in [
        (FeedbackKind::Answer, "SQLite"),
        (FeedbackKind::Annotation, "reconsider this"),
        (FeedbackKind::Finding, "overflows its column"),
    ] {
        log.push(s.append(&FeedbackItem::new("q1", None, kind, body).unwrap()));
    }
    assert_eq!(s.settled(&log).0.len(), 3);
    let mut del = FeedbackItem::new("q1", None, FeedbackKind::Annotation, "x").unwrap();
    del.status = FeedbackStatus::Delete;
    log.push(s.append(&del));
    let (items, _) = s.settled(&log);
    assert_eq!(items.len(), 2);
    assert!(items.iter().all(|i| i.kind != FeedbackKind::Annotation));
}

#[test]
fn resolve_rides_through_settled_as_an_update() {
    let s = session();
    let mut log = vec![s.append(&item("flow", None, FeedbackStatus::New, "reconsider"))];
    let mut done = item("flow", None, FeedbackStatus::Update, "reconsider");
    done.resolved = true;
    log.push(s.append(&done));
    let (items, _) = s.settled(&log);
    assert_eq!(items.len(), 1);
    assert!(items[0].resolved);
    log.push(s.append(&item("flow", None, FeedbackStatus::Update, "reconsider")));
    let (items, _) = s.settled(&log);
    assert_eq!(items.len(), 1);
    assert!(!items[0].resolved);
}

#[test]
fn an_update_after_a_delete_does_not_resurrect_the_item() {
    let s = session();
    let mut resolve = item("flow", None, FeedbackStatus::Update, "x");
    resolve.resolved = true;
    let log = vec![
        s.append(&item("flow", None, FeedbackStatus::New, "x")),
        s.append(&item("flow", None, FeedbackStatus::Delete, "x")),
        s.append(&resolve),
    ];
    assert!(s.settled(&log).0.is_empty());
}

#[test]
fn finalize_sets_ended_and_keeps_items() {
    let s = session();
    let mut log = vec![s.append(&item("q", None, FeedbackStatus::New, "SQLite"))];
    assert!(!s.settled(&log).1);
    log.push(s.finalize());
    let (items, ended) = s.settled(&log);
    assert!(ended);
    assert_eq!(items.len(), 1);
}

#[test]
fn reopen_clears_ended_and_keeps_feedback() {
    let s = session();
    let mut log = vec![
        s.append(&item("q", None, FeedbackStatus::New, "SQLite")),
        s.finalize(),
    ];
    assert!(s.settled(&log).1);
    log.push(s.reopen());
    let (items, ended) = s.settled(&log);
    assert!(!ended);
    assert_eq!(items.len(), 1);
}

#[test]
fn the_latest_end_marker_wins() {
    let s = session();
    let log = vec![s.finalize(), s.reopen(), s.finalize()];
    assert!(s.settled(&log).1);
}

#[test]
fn outcome_reports_closed_on_a_shutdown_paired_to_the_last_serve() {
    let s = session();
    let mut log = vec![s.record_serve(1234, 8770, "http://127.0.0.1:8770")];
    let (_, ended, closed) = s.outcome(&log, |_| true);
    assert!(!ended && !closed);
    log.push(s.record_shutdown(1234, false));
    let (_, ended, closed) = s.outcome(&log, |_| true);
    assert!(!ended && closed);
}

#[test]
fn outcome_reports_closed_when_the_serving_pid_is_dead() {
    let s = session();
    let log = vec![s.record_serve(4242, 8770, "u")];
    assert!(!s.outcome(&log, |_| true).2);
    assert!(s.outcome(&log, |_| false).2);
}

#[test]
fn outcome_finished_beats_closed_and_a_later_serve_reopens() {
    let s = session();
    let mut log = vec![s.record_serve(1, 1, "u"), s.finalize()];
    let (_, ended, closed) = s.outcome(&log, |_| false);
    assert!(ended && !closed);
    log.push(s.record_shutdown(1, true));
    log.push(s.reopen());
    log.push(s.record_serve(2, 1, "u"));
    let (_, ended, closed) = s.outcome(&log, |_| true);
    assert!(!ended && !closed);
}

#[test]
fn settled_is_idempotent() {
    let s = session();
    let log = vec![s.append(&item("a", None, FeedbackStatus::New, "x"))];
    assert_eq!(s.settled(&log), s.settled(&log));
}

#[test]
fn path_is_reported() {
    let s = Session::new("dir/artifact.md.ags.jsonl");
    assert_eq!(s.path(), "dir/artifact.md.ags.jsonl");
}

#[test]
fn a_replay_records_the_last_serve_and_every_shutdown() {
    let s = session();
    let log = vec![
        s.record_serve(1, 80, "a"),
        s.record_shutdown(1, false),
        s.record_serve(2, 80, "b"),
        LogEntry::Item(item("x", None, FeedbackStatus::New, "body")),
    ];
    let r = replay(&log);
    assert_eq!(r.last_serve_pid, Some(2));
    assert_eq!(r.shutdown_pids, vec![1]);
    assert_eq!(r.items.len(), 1);
    assert!(!r.ended);
}

#[test]
fn rows_carry_target_status_resolved_detached_anchor_kind_body() {
    let mut edit = FeedbackItem::new(
        "flow",
        Some(SubTarget::Node("Auth".into())),
        FeedbackKind::Annotation,
        "wrong way",
    )
    .unwrap();
    edit.status = FeedbackStatus::Update;
    edit.target = FeedbackTarget::Human;
    edit.resolved = true;
    let answer = FeedbackItem::new("commit", None, FeedbackKind::Answer, "Rust").unwrap();
    let rows = poll_rows(&[edit, answer], |_: &FeedbackItem| false);
    assert_eq!(rows.len(), 2);
    assert_eq!(rows[0].target, FeedbackTarget::Human);
    assert_eq!(rows[0].status, FeedbackStatus::Update);
    assert!(rows[0].resolved);
    assert!(!rows[0].detached);
    assert_eq!(rows[0].anchor, "#flow/node:Auth");
    assert_eq!(rows[0].kind, FeedbackKind::Annotation);
    assert_eq!(rows[0].body, "wrong way");
    assert_eq!(rows[1].target, FeedbackTarget::Agent);
    assert_eq!(rows[1].status, FeedbackStatus::New);
    assert!(!rows[1].resolved);
    assert!(!rows[1].detached);
    assert_eq!(rows[1].anchor, "#commit");
    assert_eq!(rows[1].kind, FeedbackKind::Answer);
    assert_eq!(rows[1].body, "Rust");
}

#[test]
fn a_row_whose_anchor_no_longer_resolves_says_so() {
    let items = [FeedbackItem::new(
        "flow",
        Some(SubTarget::Node("Billing".into())),
        FeedbackKind::Annotation,
        "wrong way",
    )
    .unwrap()];
    let rows = poll_rows(&items, |_: &FeedbackItem| true);
    assert_eq!(rows.len(), 1);
    assert_eq!(rows[0].target, FeedbackTarget::Agent);
    assert_eq!(rows[0].status, FeedbackStatus::New);
    assert!(!rows[0].resolved);
    assert!(rows[0].detached);
    assert_eq!(rows[0].anchor, "#flow/node:Billing");
    assert_eq!(rows[0].kind, FeedbackKind::Annotation);
    assert_eq!(rows[0].body, "wrong way");
}

#[test]
fn a_posted_item_must_name_a_block() {
    let ok = FeedbackItem::new("flow", None, FeedbackKind::Annotation, "x").unwrap();
    assert!(accept_posted(ok).is_ok());
    let mut blank = FeedbackItem::new("flow", None, FeedbackKind::Annotation, "x").unwrap();
    blank.block_id = "  ".into();
    assert!(accept_posted(blank).is_err());
}

/// The blocking poll with the waiting taken out: read the log, ask
/// `poll_step`, and count a heartbeat for every interval it waits.
fn poll_log(
    entries: &[LogEntry],
    max_ticks: u32,
    alive: bool,
    detached: fn(&FeedbackItem) -> bool,
) -> (Vec<FeedbackRow>, bool, bool, u32) {
    let s = session();
    let mut waited: u32 = 0;
    let mut beats: u32 = 0;
    loop {
        let (items, ended, closed) = s.outcome(entries, |_: u32| alive);
        match poll_step(waited, max_ticks, !items.is_empty(), ended, closed) {
            PollAction::Answer => return (poll_rows(&items, detached), ended, closed, beats),
            PollAction::Wait { next } => {
                beats += 1;
                waited = next;
            }
        }
    }
}

fn attached(_: &FeedbackItem) -> bool {
    false
}

fn detached_from_everything(_: &FeedbackItem) -> bool {
    true
}

#[test]
fn returns_queued_items_immediately_without_ticking() {
    let s = session();
    let entries = [s.append(
        &FeedbackItem::new("a", None, FeedbackKind::Annotation, "hi").unwrap(),
    )];
    let (rows, ended, closed, beats) = poll_log(&entries, 5, true, attached);
    assert_eq!(beats, 0, "should not wait when feedback is already queued");
    assert_eq!(rows.len(), 1);
    assert_eq!(rows[0].anchor, "#a");
    assert_eq!(rows[0].kind, FeedbackKind::Annotation);
    assert_eq!(rows[0].body, "hi");
    assert!(!ended && !closed);
}

#[test]
fn waits_the_bound_then_returns_empty() {
    let (rows, ended, closed, beats) = poll_log(&[], 3, true, attached);
    assert_eq!(beats, 3, "empty store should tick to the bound");
    assert!(rows.is_empty());
    assert!(!ended && !closed);
}

#[test]
fn ended_review_returns_immediately() {
    let s = session();
    let entries = [s.finalize()];
    let (_, ended, _, beats) = poll_log(&entries, 5, true, attached);
    assert_eq!(beats, 0);
    assert!(ended);
}

#[test]
fn finish_delivers_queued_items_then_ended() {
    let s = session();
    let entries = [
        s.append(&FeedbackItem::new("q", None, FeedbackKind::Answer, "Rust").unwrap()),
        s.finalize(),
    ];
    let (rows, ended, _, _) = poll_log(&entries, 5, true, attached);
    assert_eq!(rows.len(), 1, "queued item delivered");
    assert_eq!(rows[0].anchor, "#q");
    assert_eq!(rows[0].kind, FeedbackKind::Answer);
    assert_eq!(rows[0].body, "Rust");
    assert!(ended, "and the ended status");
}

#[test]
fn the_detached_column_follows_the_verdict_it_is_given() {
    let s = session();
    let entries = [s.append(
        &FeedbackItem::new(
            "flow",
            Some(SubTarget::Node("Auth".into())),
            FeedbackKind::Annotation,
            "wrong arrow",
        )
        .unwrap(),
    )];
    let (still_there, _, _, _) = poll_log(&entries, 1, true, attached);
    assert_eq!(still_there.len(), 1);
    assert!(!still_there[0].detached);
    assert_eq!(still_there[0].anchor, "#flow/node:Auth");

    let (gone, _, _, _) = poll_log(&entries, 1, true, detached_from_everything);
    assert_eq!(gone.len(), 1, "and is still delivered");
    assert!(gone[0].detached);
    assert_eq!(gone[0].anchor, "#flow/node:Auth");
    assert_eq!(gone[0].body, "wrong arrow");
}

/// A pid far beyond any real process table.
const DEAD_PID: u32 = 1_999_999_999;

#[test]
fn a_dead_server_pid_closes_the_poll() {
    let s = session();
    let entries = [s.record_serve(DEAD_PID, 8770, "http://127.0.0.1:8770")];
    let (_, _, closed, beats) = poll_log(&entries, 5, false, attached);
    assert_eq!(beats, 0, "a closed review returns immediately");
    assert!(closed);
}

#[test]
fn every_byte_escaped_decodes_back_to_the_text() {
    for text in ["a b", "é and ü", "x&y=z+1%", "", "日本"] {
        let escaped: String = text.bytes().map(|b| format!("%{:02X}", b)).collect();
        assert_eq!(decode(&escaped), text);
    }
}

#[test]
fn a_value_without_escapes_only_loses_its_pluses() {
    for raw in ["a+b", "plain", "++", "é+ü", ""] {
        assert_eq!(decode(raw), raw.replace('+', " "));
    }
}

#[test]
fn merging_keeps_the_threads_in_the_order_they_were_first_seen() {
    let mut items = Vec::new();
    for block in ["a", "b", "c", "d"] {
        merge(&mut items, item(block, None, FeedbackStatus::New, block));
    }
    merge(&mut items, item("b", None, FeedbackStatus::Delete, ""));
    merge(&mut items, item("c", None, FeedbackStatus::Update, "c again"));
    merge(&mut items, item("b", None, FeedbackStatus::Update, "back?"));
    merge(&mut items, item("e", None, FeedbackStatus::New, "e"));
    assert_eq!(bodies(&items), ["a", "c again", "d", "e"]);
}
