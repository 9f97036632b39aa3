use boom_moc_index::fetch::{fetch_with_retry, Attempt, FetchStep, MAX_RETRIES};
use boom_moc_index::listener::{
    choose_input, token_lifetime_ms, token_request, topics, triage, MocInput, Payload, Triage,
    DEFAULT_VALIDITY_SECONDS,
};

#[test]
fn fetches_are_tried_three_times() {
    assert_eq!(MAX_RETRIES, 3);
    assert!(matches!(fetch_with_retry(1, Attempt::Failed("e")), FetchStep::Retry { attempt: 2, seconds: 1 }));
    assert!(matches!(fetch_with_retry(2, Attempt::Failed("e")), FetchStep::Retry { attempt: 3, seconds: 2 }));
    assert!(matches!(fetch_with_retry(3, Attempt::Failed("e")), FetchStep::GiveUp("e")));
}

#[test]
fn whole_fetches() {
    let fetch = |outcomes: [Result<u8, &'static str>; 3]| {
        let (mut attempt, mut waits) = (1, vec![]);
        loop {
            let outcome = match outcomes[attempt as usize - 1] {
                Ok(byte) => Attempt::Fetched(vec![byte]),
                Err(e) => Attempt::Failed(e),
            };
            match fetch_with_retry(attempt, outcome) {
                FetchStep::Return(bytes) => return (attempt, waits, Ok(bytes)),
                FetchStep::GiveUp(e) => return (attempt, waits, Err(e)),
                FetchStep::Retry { attempt: next, seconds } => {
                    attempt = next;
                    waits.push(seconds);
                }
            }
        }
    };
    assert_eq!(fetch([Ok(7), Ok(8), Ok(9)]), (1, vec![], Ok(vec![7])));
    assert_eq!(fetch([Err("a"), Ok(8), Ok(9)]), (2, vec![1], Ok(vec![8])));
    assert_eq!(fetch([Err("a"), Err("b"), Ok(9)]), (3, vec![1, 2], Ok(vec![9])));
    assert_eq!(fetch([Err("a"), Err("b"), Err("c")]), (3, vec![1, 2], Err("c")));
}

#[test]
fn fetches_end_with_a_response() {
    for attempt in 1..=3 {
        let step = fetch_with_retry::<&str>(attempt, Attempt::Fetched(vec![1, 2]));
        assert!(matches!(step, FetchStep::Return(bytes) if bytes == [1, 2]));
        let step = fetch_with_retry(attempt, Attempt::BodyLost("cut"));
        assert!(matches!(step, FetchStep::GiveUp("cut")));
    }
}

#[test]
fn subscribed_topics() {
    let quiet = topics(false);
    assert_eq!(
        quiet,
        vec![
            "igwn.gwalert",
            "gcn.notices.swift.bat.guano",
            "gcn.notices.einstein_probe.wxt.alert",
            "gcn.notices.icecube.lvk_nu_track_search",
            "gcn.notices.icecube.gold_bronze_track_alerts",
        ]
    );
    let logged = topics(true);
    assert_eq!(logged[..5], quiet[..]);
    assert_eq!(logged[5..], ["gcn.heartbeat"]);
}

#[test]
fn messages_triaged() {
    for payload in [Payload::Missing, Payload::NotText, Payload::Text] {
        assert_eq!(triage("gcn.heartbeat", payload), Triage::Heartbeat);
    }
    assert_eq!(triage("igwn.gwalert", Payload::Missing), Triage::Empty);
    assert_eq!(triage("igwn.gwalert", Payload::NotText), Triage::Undecodable);
    assert_eq!(triage("igwn.gwalert", Payload::Text), Triage::Alert);
}

#[test]
fn oauth_tokens() {
    assert_eq!(
        token_request("me", "word"),
        "grant_type=client_credentials&client_id=me&client_secret=word\
         &scope=gcn.nasa.gov/kafka-public-consumer"
    );
    assert_eq!(token_lifetime_ms(1_000, 3600), 3_601_000);
}

#[test]
fn register_inputs() {
    let path = || Some("p".to_string());
    assert!(matches!(choose_input(path(), None), Some(MocInput::Skymap(p)) if p == "p"));
    assert!(matches!(choose_input(None, path()), Some(MocInput::Moc(p)) if p == "p"));
    assert!(choose_input(None, None).is_none());
    assert!(choose_input(path(), path()).is_none());
}

#[test]
fn validity_is_fourteen_days() {
    assert_eq!(DEFAULT_VALIDITY_SECONDS, 14 * 24 * 3600);
}
