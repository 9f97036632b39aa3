use boom_moc_index::alert::{
    derive_moc_id, derive_source, derive_trigger_time, describe_moc, extract_skymap, handle_alert,
    inline_skymap, locate_skymap, moc_id_received_at, plan_alert, read_alert, retracts,
    short_topic, trigger_time_received_at, Alert, AlertError, AlertStep, SkymapSource,
};
use boom_moc_index::hpx_moc::{moc_from_fits_bytes, HpxMoc};

fn empty() -> Alert {
    read_alert("{}").unwrap()
}

#[test]
fn alert_fields() {
    let alert = read_alert(
        r#"{"alert_type": "INITIAL", "superevent_id": "S1", "trigger_id": 5, "id": "i",
            "event": {"skymap": "AAAA", "time": "t0"}, "urls": {"skymap_fits": "u"},
            "url": null, "trigger_name": ["x"]}"#,
    )
    .unwrap();
    assert_eq!(alert.alert_type.as_deref(), Some("INITIAL"));
    assert_eq!(alert.superevent_id.as_deref(), Some("S1"));
    assert_eq!(alert.id.as_deref(), Some("i"));
    assert_eq!(alert.event_skymap.as_deref(), Some("AAAA"));
    assert_eq!(alert.event_time.as_deref(), Some("t0"));
    assert_eq!(alert.urls_skymap_fits.as_deref(), Some("u"));
    assert!(alert.trigger_id.is_none() && alert.trigger_name.is_none() && alert.url.is_none());
    assert!(read_alert("[1, 2]").unwrap().id.is_none());
    assert!(matches!(read_alert("{"), Err(AlertError::Json(_))));
}

#[test]
fn retractions_are_skipped() {
    let payload = r#"{"alert_type": "RETRACTION", "event": {"skymap": "AAAA"}}"#;
    assert!(retracts(&read_alert(payload).unwrap()));
    assert!(matches!(handle_alert("igwn.gwalert", payload), Ok(AlertStep::Skip)));
    let payload = r#"{"alert_type": "RETRACTION", "healpix_file": "not base64!"}"#;
    assert!(matches!(handle_alert("gcn.x", payload), Ok(AlertStep::Skip)));
    assert!(!retracts(&empty()));
}

#[test]
fn lvk_skymaps_are_inline() {
    let payload = r#"{"event": {"skymap": "U0lNUExF"}, "healpix_file": "!", "url": "u"}"#;
    match handle_alert("igwn.gwalert", payload).unwrap() {
        AlertStep::Parse { skymap, .. } => assert_eq!(skymap, b"SIMPLE"),
        step => panic!("{:?}", step),
    }
    let payload = r#"{"healpix_file": "U0lNUExF", "url": "u"}"#;
    assert!(matches!(handle_alert("igwn.gwalert", payload), Ok(AlertStep::Skip)));
    let payload = r#"{"event": {"skymap": "U0lN=UExF"}}"#;
    let step = handle_alert("igwn.gwalert", payload);
    assert!(matches!(step, Err(AlertError::EventSkymap(_))));
}

#[test]
fn other_skymaps_are_inline_or_linked() {
    let payload = r#"{"healpix_file": "U0lNUExF", "event": {"skymap": "!"}, "url": "u"}"#;
    match handle_alert("gcn.notices.x", payload).unwrap() {
        AlertStep::Parse { skymap, .. } => assert_eq!(skymap, b"SIMPLE"),
        step => panic!("{:?}", step),
    }
    let step = handle_alert("gcn.notices.x", r#"{"healpix_file": "?"}"#);
    assert!(matches!(step, Err(AlertError::HealpixFile(_))));
    for (payload, expected) in [
        (r#"{"skymap_url": "a", "urls": {"skymap_fits": "b"}, "url": "c"}"#, "a"),
        (r#"{"urls": {"skymap_fits": "b"}, "url": "c"}"#, "b"),
        (r#"{"url": "c"}"#, "c"),
    ] {
        match handle_alert("gcn.notices.x", payload).unwrap() {
            AlertStep::Fetch { url, .. } => assert_eq!(url, expected),
            step => panic!("{:?}", step),
        }
    }
    assert!(matches!(handle_alert("gcn.notices.x", "{}"), Ok(AlertStep::Skip)));
    assert!(matches!(handle_alert("gcn.notices.x", ""), Err(AlertError::Json(_))));
}

#[test]
fn skymap_sources_of_plain_alerts() {
    let mut alert = empty();
    assert!(matches!(extract_skymap("x", &alert), Ok(SkymapSource::Absent)));
    alert.url = Some("u".to_string());
    assert!(matches!(locate_skymap("igwn.gwalert", &alert, None), SkymapSource::Absent));
    assert!(matches!(locate_skymap("x", &alert, None), SkymapSource::Url(url) if url == "u"));
    alert.healpix_file = Some("AA==".to_string());
    assert_eq!(inline_skymap("x", &alert).as_deref(), Some("AA=="));
    assert_eq!(inline_skymap("igwn.gwalert", &alert), None);
    let source = locate_skymap("x", &alert, Some(vec![9]));
    assert!(matches!(source, SkymapSource::Inline(bytes) if bytes == [9]));
    let step = plan_alert("x", alert);
    assert!(matches!(step, Ok(AlertStep::Parse { skymap, .. }) if skymap == [0]));
}

#[test]
fn moc_ids() {
    let mut alert = empty();
    assert_eq!(moc_id_received_at("gcn.notices.a.b", &alert, "T"), "a.b-T");
    let id = derive_moc_id("gcn.notices.a.b", &alert);
    assert!(id.starts_with("a.b-") && id.ends_with('Z') && id.len() == 4 + 16);
    let digits = |text: &str| text.chars().all(|c| c.is_ascii_digit());
    assert!(digits(&id[4..12]) && &id[12..13] == "T" && digits(&id[13..19]));
    alert.event_id = Some("e".to_string());
    assert_eq!(derive_moc_id("gcn.a", &alert), "a-e");
    alert.id = Some("i".to_string());
    assert_eq!(derive_moc_id("a", &alert), "a-i");
    alert.trigger_name = Some("n".to_string());
    assert_eq!(derive_moc_id("a", &alert), "a-n");
    alert.trigger_id = Some("t".to_string());
    assert_eq!(derive_moc_id("a", &alert), "a-t");
    alert.superevent_id = Some("S260101a".to_string());
    assert_eq!(derive_moc_id("a", &alert), "LVK-S260101a-UNKNOWN");
    alert.alert_type = Some("PRELIMINARY".to_string());
    assert_eq!(derive_moc_id("a", &alert), "LVK-S260101a-PRELIMINARY");
}

#[test]
fn trigger_times() {
    let mut alert = empty();
    assert_eq!(trigger_time_received_at(&alert, "now"), "now");
    let now = derive_trigger_time(&alert);
    assert!(now.ends_with("+00:00") && now.len() >= 25);
    alert.event_time = Some("e".to_string());
    assert_eq!(derive_trigger_time(&alert), "e");
    alert.time_created = Some("c".to_string());
    assert_eq!(derive_trigger_time(&alert), "c");
    alert.reference_time = Some("r".to_string());
    assert_eq!(derive_trigger_time(&alert), "r");
    alert.time = Some("t".to_string());
    assert_eq!(derive_trigger_time(&alert), "t");
    alert.trigger_time = Some("tt".to_string());
    assert_eq!(derive_trigger_time(&alert), "tt");
}

#[test]
fn sources() {
    for (topic, source) in [
        ("igwn.gwalert", "LVK"),
        ("gcn.notices.swift.bat.guano", "Swift-BAT"),
        ("gcn.notices.einstein_probe.wxt.alert", "EinsteinProbe-WXT"),
        ("gcn.notices.icecube.lvk_nu_track_search", "IceCube"),
        ("gcn.classic.fermi.gbm", "Fermi"),
        ("igwn.gwalert2", "igwn.gwalert2"),
        ("", ""),
    ] {
        assert_eq!(derive_source(topic), source);
    }
}

#[test]
fn short_topics() {
    assert_eq!(short_topic("gcn.notices.swift.bat.guano"), "swift.bat.guano");
    assert_eq!(short_topic("gcn.heartbeat"), "heartbeat");
    assert_eq!(short_topic("igwn.gwalert"), "igwn.gwalert");
    assert_eq!(short_topic("gcn.notices."), "");
}

#[test]
fn described_mocs() {
    let mut alert = empty();
    alert.superevent_id = Some("S1".to_string());
    alert.time_created = Some("2026-01-01T00:00:00Z".to_string());
    let moc = HpxMoc { depth_max: 8, ranges: vec![64..128, 256..320] };
    let level = 0.9f64.to_bits();
    let coverage = 1e-9f64.to_bits();
    let described = describe_moc("igwn.gwalert", &alert, &moc, level, 3600, coverage).unwrap();
    assert_eq!(described.moc_id, "LVK-S1-UNKNOWN");
    assert_eq!(described.metadata.source, "LVK");
    assert_eq!(described.metadata.trigger_time, "2026-01-01T00:00:00Z");
    assert_eq!(f64::from_bits(described.metadata.credible_level), 0.9);
    assert_eq!(f64::from_bits(described.metadata.coverage_fraction), 1e-9);
    assert_eq!(described.metadata.validity_seconds, 3600);
    assert_eq!(described.metadata.native_depth, 8);
    let back = moc_from_fits_bytes(&described.fits_bytes).unwrap();
    assert_eq!((back.depth_max, back.ranges), (moc.depth_max, moc.ranges));
}
