//! What the GCN listener subscribes to, how it authenticates, and which messages it handles.
use crate::text::same_text;
use vstd::prelude::*;
#[allow(unused_imports)]
use vstd::string::*;

verus! {

/// The default validity window: fourteen days, in seconds.
pub const DEFAULT_VALIDITY_SECONDS: u64 = 1209600;

/// The topics that are subscribed to by default.
pub open spec fn default_topics() -> Seq<Seq<char>> {
    seq![
        "igwn.gwalert"@,
        "gcn.notices.swift.bat.guano"@,
        "gcn.notices.einstein_probe.wxt.alert"@,
        "gcn.notices.icecube.lvk_nu_track_search"@,
        "gcn.notices.icecube.gold_bronze_track_alerts"@,
    ]
}

/// The texts of a list of string slices.
pub open spec fn slice_texts(slices: Seq<&str>) -> Seq<Seq<char>> {
    slices.map_values(|s: &str| s@)
}

/// The topics to subscribe to: the default ones, and the heartbeat where it is to be logged.
pub fn topics(log_heartbeat: bool) -> (res: Vec<&'static str>)
    ensures
        slice_texts(res@) == if log_heartbeat {
            default_topics().push("gcn.heartbeat"@)
        } else {
            default_topics()
        },
        res@.len() == if log_heartbeat {
            6int
        } else {
            5
        },
        res@[0]@ == "igwn.gwalert"@,
        res@[1]@ == "gcn.notices.swift.bat.guano"@,
        res@[2]@ == "gcn.notices.einstein_probe.wxt.alert"@,
        res@[3]@ == "gcn.notices.icecube.lvk_nu_track_search"@,
        res@[4]@ == "gcn.notices.icecube.gold_bronze_track_alerts"@,
        log_heartbeat ==> res@[5]@ == "gcn.heartbeat"@,
{
    let mut res: Vec<&'static str> = Vec::new();
    res.push("igwn.gwalert");
    res.push("gcn.notices.swift.bat.guano");
    res.push("gcn.notices.einstein_probe.wxt.alert");
    res.push("gcn.notices.icecube.lvk_nu_track_search");
    res.push("gcn.notices.icecube.gold_bronze_track_alerts");
    assert(slice_texts(res@) =~= default_topics());
    if log_heartbeat {
        res.push("gcn.heartbeat");
        assert(slice_texts(res@) =~= default_topics().push("gcn.heartbeat"@));
    }
    res
}

/// The payload of a message.
#[derive(Debug, Clone, Copy, PartialEq, Eq, Structural)]
pub enum Payload {
    /// There is none.
    Missing,
    /// It is not UTF-8.
    NotText,
    /// It is text.
    Text,
}

/// What to do with a message.
#[derive(Debug, Clone, Copy, PartialEq, Eq, Structural)]
pub enum Triage {
    /// Nothing: it is a heartbeat.
    Heartbeat,
    /// Nothing: it has no payload.
    Empty,
    /// Report it: its payload cannot be decoded.
    Undecodable,
    /// Handle it: it is an alert.
    Alert,
}

/// Decides what to do with a message. Heartbeats are skipped, whatever they hold.
pub fn triage(topic: &str, payload: Payload) -> (res: Triage)
    ensures
        topic@ == "gcn.heartbeat"@ ==> res == Triage::Heartbeat,
        topic@ != "gcn.heartbeat"@ ==> res == match payload {
            Payload::Missing => Triage::Empty,
            Payload::NotText => Triage::Undecodable,
            Payload::Text => Triage::Alert,
        },
{
    if same_text(topic, "gcn.heartbeat") {
        return Triage::Heartbeat;
    }
    match payload {
        Payload::Missing => Triage::Empty,
        Payload::NotText => Triage::Undecodable,
        Payload::Text => Triage::Alert,
    }
}

/// The form that asks for an OAuth token for public consumers.
pub fn token_request(client_id: &str, client_secret: &str) -> (res: String)
    ensures
        res@ == "grant_type=client_credentials&client_id="@ + client_id@ + "&client_secret="@
            + client_secret@ + "&scope=gcn.nasa.gov/kafka-public-consumer"@,
{
    let mut form: String = "grant_type=client_credentials&client_id=".to_owned();
    form.append(client_id);
    form.append("&client_secret=");
    form.append(client_secret);
    form.append("&scope=gcn.nasa.gov/kafka-public-consumer");
    form
}

/// When a token that was obtained at `now_ms` and expires in `expires_in` seconds does so, in
/// milliseconds.
pub fn token_lifetime_ms(now_ms: i64, expires_in: u64) -> (res: i64)
    requires
        i64::MIN <= now_ms + expires_in * 1000 <= i64::MAX,
        expires_in * 1000 <= i64::MAX,
    ensures
        res == now_ms + expires_in * 1000,
{
    now_ms + expires_in as i64 * 1000
}

/// What to register a MOC from.
#[derive(Debug)]
pub enum MocInput {
    /// A skymap FITS file, at this path.
    Skymap(String),
    /// A MOC FITS file, at this path.
    Moc(String),
}

/// Chooses what to register a MOC from: exactly one of the two paths has to be given.
pub fn choose_input(skymap: Option<String>, moc: Option<String>) -> (res: Option<MocInput>)
    ensures
        match (skymap, moc) {
            (Some(path), None) => res == Some(MocInput::Skymap(path)),
            (None, Some(path)) => res == Some(MocInput::Moc(path)),
            _ => res is None,
        },
{
    match (skymap, moc) {
        (Some(path), None) => Some(MocInput::Skymap(path)),
        (None, Some(path)) => Some(MocInput::Moc(path)),
        _ => None,
    }
}

/// The default validity window is fourteen days.
pub proof fn law_default_window_is_fourteen_days()
    ensures
        DEFAULT_VALIDITY_SECONDS == 14 * 24 * 60 * 60,
{
}

} // verus!
