use dashmap::DashMap;
use rank_matching::dispatch::{
    dispatch, make_notice, new_stage_request, stage_request, StageReply, GARBLED_ID,
    GARBLED_PREFIX, UNREACHABLE_ID, UNREACHABLE_PREFIX,
};
use rank_matching::feedback::{feedback_step, period_of, FeedbackAction, Polled};
use rank_matching::lobby::MatchEvent;
use rank_matching::packet::Packet;

fn team() -> Vec<(String, u64)> {
    vec![("p1".to_string(), 3), ("p4".to_string(), 1)]
}

#[test]
fn stage_request_is_labelled() {
    let r = stage_request("A", 42);
    assert_eq!(r.game, "A");
    assert_eq!(r.matching, "Rank#42");
    assert_eq!(stage_request("", 0).matching, "Rank#0");
    assert_eq!(stage_request("x", u32::MAX).matching, "Rank#4294967295");
}

#[test]
fn new_stage_request_draws_a_label() {
    let mut seen = Vec::new();
    for _ in 0..8 {
        let r = new_stage_request("duel");
        assert_eq!(r.game, "duel");
        let digits = r.matching.strip_prefix("Rank#").unwrap().to_string();
        let nonce: u32 = digits.parse().unwrap();
        assert_eq!(digits, nonce.to_string());
        seen.push(nonce);
    }
    assert!(seen.iter().any(|n| *n != seen[0]));
}

#[test]
fn notice_of_a_room() {
    match make_notice("A", &StageReply::Created { request_id: 77 }, team()) {
        Packet::MatchSuccess { arena, stage_request_id, players } => {
            assert_eq!(arena, "A");
            assert_eq!(stage_request_id, 77);
            assert_eq!(players, team());
        },
        _ => panic!("not a success"),
    }
}

#[test]
fn notice_of_a_refusal() {
    let reply = StageReply::Refused { error_id: 12, error_msg: "full".to_string() };
    match make_notice("A", &reply, team()) {
        Packet::MatchFailure { arena, error_id, error_msg, players } => {
            assert_eq!(arena, "A");
            assert_eq!(error_id, 12);
            assert_eq!(error_msg, "full");
            assert_eq!(players, team());
        },
        _ => panic!("not a failure"),
    }
}

#[test]
fn notice_of_a_garbled_reply() {
    let reply = StageReply::Garbled { detail: "expected value".to_string() };
    match make_notice("A", &reply, team()) {
        Packet::MatchFailure { arena, error_id, error_msg, players } => {
            assert_eq!(arena, "A");
            assert_eq!(error_id, 9000);
            assert_eq!(error_msg, "invalid JSON: expected value");
            assert_eq!(players, team());
        },
        _ => panic!("not a failure"),
    }
    assert_eq!(GARBLED_ID, 9000);
    assert_eq!(GARBLED_PREFIX, "invalid JSON: ");
}

#[test]
fn notice_of_an_unreachable_service() {
    let reply = StageReply::Unreachable { detail: "connection refused".to_string() };
    match make_notice("A", &reply, team()) {
        Packet::MatchFailure { arena, error_id, error_msg, players } => {
            assert_eq!(arena, "A");
            assert_eq!(error_id, 9001);
            assert_eq!(error_msg, "cannot reach central server: connection refused");
            assert_eq!(players, team());
        },
        _ => panic!("not a failure"),
    }
    assert_eq!(UNREACHABLE_ID, 9001);
    assert_eq!(UNREACHABLE_PREFIX, "cannot reach central server: ");
}

#[test]
fn dispatch_writes_to_every_session_once() {
    let collected = DashMap::new();
    collected.insert(1u64, vec![("a1".to_string(), 1u64), ("a2".to_string(), 2)]);
    collected.insert(2u64, vec![("b1".to_string(), 1u64)]);
    let event = MatchEvent { arena: "A".to_string(), collected };
    let mut out = dispatch(event, &StageReply::Created { request_id: 5 });
    out.sort_by_key(|n| n.0);
    assert_eq!(out.len(), 2);
    assert_eq!(out[0].0, 1);
    assert_eq!(out[0].1.to_string(), "1,7,1,A,5,2,2,a1,1,2,a2,2");
    assert_eq!(out[1].0, 2);
    assert_eq!(out[1].1.to_string(), "1,7,1,A,5,1,2,b1,1");
}

#[test]
fn dispatch_of_a_failure() {
    let collected = DashMap::new();
    collected.insert(4u64, vec![("p".to_string(), 1u64)]);
    let event = MatchEvent { arena: "A".to_string(), collected };
    let out = dispatch(event, &StageReply::Unreachable { detail: "timeout".to_string() });
    assert_eq!(out.len(), 1);
    assert_eq!(out[0].0, 4);
    assert_eq!(out[0].1.to_string(), "1,8,1,A,9001,36,cannot reach central server: timeout,1,1,p,1");
}

#[test]
fn dispatch_of_nobody() {
    let event = MatchEvent { arena: "A".to_string(), collected: DashMap::new() };
    assert!(dispatch(event, &StageReply::Created { request_id: 5 }).is_empty());
}

#[test]
fn feedback_reports_at_the_period() {
    assert_eq!(
        feedback_step(None, Polled::Period(Some(5))),
        (Some(5), FeedbackAction::Report { sleep: 5 })
    );
    assert_eq!(
        feedback_step(Some(5), Polled::Nothing),
        (Some(5), FeedbackAction::Report { sleep: 5 })
    );
    assert_eq!(
        feedback_step(Some(5), Polled::Period(Some(2))),
        (Some(2), FeedbackAction::Report { sleep: 2 })
    );
}

#[test]
fn feedback_pauses() {
    assert_eq!(feedback_step(None, Polled::Nothing), (None, FeedbackAction::Yield));
    assert_eq!(feedback_step(Some(5), Polled::Period(None)), (None, FeedbackAction::Yield));
    assert_eq!(feedback_step(None, Polled::Nothing), (None, FeedbackAction::Yield));
}

#[test]
fn feedback_stops_when_the_session_is_over() {
    assert_eq!(feedback_step(Some(5), Polled::Closed), (Some(5), FeedbackAction::Stop));
    assert_eq!(feedback_step(None, Polled::Closed), (None, FeedbackAction::Stop));
}

#[test]
fn feedback_subscription_lifecycle() {
    let mut period = None;
    let mut reports = 0;
    let looks = [
        Polled::Nothing,
        Polled::Period(period_of(5)),
        Polled::Nothing,
        Polled::Nothing,
        Polled::Period(period_of(0)),
        Polled::Nothing,
        Polled::Nothing,
    ];
    for look in looks {
        let (now, action) = feedback_step(period, look);
        period = now;
        if let FeedbackAction::Report { sleep } = action {
            assert_eq!(sleep, 5);
            reports += 1;
        }
    }
    assert_eq!(reports, 3);
    assert_eq!(period, None);
}

#[test]
fn period_of_zero_is_a_pause() {
    assert_eq!(period_of(0), None);
    assert_eq!(period_of(1), Some(1));
    assert_eq!(period_of(u64::MAX), Some(u64::MAX));
}
