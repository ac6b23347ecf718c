use resolved_nftset::varlink_monitor::{
    frame_text, handle_result, monitor_step, Envelope, MonitorStep, Payload, QueryResultState, Question,
    RrData, RrEntry, RrKey,
};

fn entry(ty: u32, address: Vec<u8>) -> RrEntry {
    RrEntry { rr: RrData { key: RrKey { ty }, address } }
}

fn question(name: &str) -> Vec<Question> {
    vec![Question { name: name.to_string() }]
}

#[test]
fn success_delivers_a_and_aaaa_addresses_in_order() {
    let v6: Vec<u8> = (1..=16).collect();
    let answer = vec![
        entry(1, vec![1, 2, 3, 4]),
        entry(5, vec![9, 9, 9, 9]),
        entry(28, v6.clone()),
        entry(1, vec![5, 6, 7, 8]),
    ];
    let r = handle_result(QueryResultState::Success, question("www.google.com"), answer).unwrap();
    assert_eq!(r.hostname, "www.google.com");
    assert_eq!(r.addrs_v4, vec![[1, 2, 3, 4], [5, 6, 7, 8]]);
    let expected_v6: [u8; 16] = v6.try_into().unwrap();
    assert_eq!(r.addrs_v6, vec![expected_v6]);
}

#[test]
fn records_of_wrong_length_are_ignored() {
    let answer = vec![entry(1, vec![1, 2, 3]), entry(28, vec![1, 2, 3, 4]), entry(1, vec![7, 7, 7, 7])];
    let r = handle_result(QueryResultState::Success, question("a.example"), answer).unwrap();
    assert_eq!(r.addrs_v4, vec![[7, 7, 7, 7]]);
    assert!(r.addrs_v6.is_empty());
}

#[test]
fn failed_query_delivers_nothing() {
    let answer = vec![entry(1, vec![1, 2, 3, 4])];
    assert!(handle_result(QueryResultState::Other, question("x.example"), answer).is_none());
}

#[test]
fn query_without_question_delivers_nothing() {
    let answer = vec![entry(1, vec![1, 2, 3, 4])];
    assert!(handle_result(QueryResultState::Success, Vec::new(), answer).is_none());
}

#[test]
fn query_without_addresses_delivers_nothing() {
    let answer = vec![entry(5, vec![1, 2, 3, 4])];
    assert!(handle_result(QueryResultState::Success, question("x.example"), answer).is_none());
}

#[test]
fn first_question_names_the_host() {
    let qs = vec![Question { name: "first.example".to_string() }, Question { name: "second.example".to_string() }];
    let r = handle_result(QueryResultState::Success, qs, vec![entry(1, vec![1, 1, 1, 1])]).unwrap();
    assert_eq!(r.hostname, "first.example");
}

#[test]
fn server_error_stops_monitoring() {
    let env = Envelope { parameters: None, continues: true, error: Some("io.systemd.System".to_string()) };
    match monitor_step(env) {
        MonitorStep::ServerError(e) => assert_eq!(e, "io.systemd.System"),
        other => panic!("unexpected {:?}", other),
    }
}

#[test]
fn frame_without_parameters_is_skipped() {
    let env = Envelope { parameters: None, continues: false, error: None };
    assert!(matches!(monitor_step(env), MonitorStep::Skip));
}

#[test]
fn last_frame_is_handled_and_finishes() {
    let payload = Payload::QueryResult {
        state: QueryResultState::Success,
        question: question("google.com"),
        answer: vec![entry(1, vec![8, 8, 8, 8])],
    };
    let env = Envelope { parameters: Some(payload), continues: false, error: None };
    match monitor_step(env) {
        MonitorStep::Handled { resolved, finished } => {
            assert!(finished);
            let r = resolved.unwrap();
            assert_eq!(r.hostname, "google.com");
            assert_eq!(r.addrs_v4, vec![[8, 8, 8, 8]]);
        }
        other => panic!("unexpected {:?}", other),
    }
}

#[test]
fn continuing_frame_keeps_monitoring() {
    let payload = Payload::QueryResult {
        state: QueryResultState::Other,
        question: question("google.com"),
        answer: Vec::new(),
    };
    let env = Envelope { parameters: Some(payload), continues: true, error: None };
    match monitor_step(env) {
        MonitorStep::Handled { resolved, finished } => {
            assert!(!finished);
            assert!(resolved.is_none());
        }
        other => panic!("unexpected {:?}", other),
    }
}

#[test]
fn empty_and_invalid_frames_have_no_text() {
    assert!(frame_text(&[]).is_none());
    assert!(frame_text(&[0xff, 0xfe]).is_none());
    assert_eq!(frame_text(b"{\"continues\":true}"), Some("{\"continues\":true}"));
}
