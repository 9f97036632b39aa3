//! GCN alerts: where an alert's skymap is, and what its MOC is to be called.
use crate::hpx_moc::{moc_to_fits_bytes, HpxMoc, MocError};
use crate::index::{MetadataView, MocMetadata};
use crate::text::{holds_text, same_text, strip_text};
use base64::engine::general_purpose::STANDARD;
use base64::{DecodeError, Engine};
use chrono::Utc;
use serde_json::Value;
use vstd::prelude::*;
#[allow(unused_imports)]
use vstd::string::*;

verus! {

/// A JSON document of the `serde_json` crate.
#[verifier::external_type_specification]
#[verifier::external_body]
pub struct ExValue(Value);

/// The error type of the `serde_json` crate.
#[verifier::external_type_specification]
#[verifier::external_body]
pub struct ExJsonError(serde_json::Error);

/// The error type of decoding in the `base64` crate.
#[verifier::external_type_specification]
#[verifier::external_body]
pub struct ExDecodeError(DecodeError);

/// The strings in a JSON document, by the JSON pointers to them.
pub uninterp spec fn json_strings(document: Value) -> Map<Seq<char>, Seq<char>>;

/// The strings in the document that `serde_json::from_str` makes of a text, by the JSON pointers
/// to them; nothing where it reports an error.
pub uninterp spec fn json_parsed(text: Seq<char>) -> Option<Map<Seq<char>, Seq<char>>>;

/// What the standard engine of the `base64` crate decodes a text to; nothing where it reports an
/// error.
pub uninterp spec fn base64_decoded(text: Seq<char>) -> Option<Seq<u8>>;

/// Calls `serde_json::from_str`.
///
/// Claims that the strings in the document are [`json_parsed`] of the text, and that there is an
/// error where that is nothing.
#[verifier::external_body]
fn parse_json(text: &str) -> (res: Result<Value, serde_json::Error>)
    ensures
        match res {
            Ok(document) => json_parsed(text@) == Some(json_strings(document)),
            Err(_) => json_parsed(text@) is None,
        },
{
    serde_json::from_str(text)
}

/// Calls `serde_json::Value::pointer`, and `serde_json::Value::as_str` on what it finds.
///
/// Claims that this gives the string at the JSON pointer, as [`json_strings`] has it.
#[verifier::external_body]
fn string_at(document: &Value, pointer: &str) -> (res: Option<String>)
    ensures
        optional_text(res) == text_in(json_strings(*document), pointer@),
{
    document.pointer(pointer).and_then(Value::as_str).map(str::to_string)
}

/// Calls `base64::Engine::decode` of the standard engine on the bytes of the text.
///
/// Claims that the bytes are [`base64_decoded`] of the text, and that there is an error where that
/// is nothing.
#[verifier::external_body]
fn decode_base64(text: &str) -> (res: Result<Vec<u8>, DecodeError>)
    ensures
        match res {
            Ok(bytes) => base64_decoded(text@) == Some(bytes@),
            Err(_) => base64_decoded(text@) is None,
        },
{
    STANDARD.decode(text.as_bytes())
}

/// Whether a text is a time in the form `20260101T000000Z`: it ends in a year's last four digits,
/// two digits each for month and day, `T`, two digits each for hour, minute and second, and `Z`.
pub open spec fn is_compact_time(text: Seq<char>) -> bool {
    &&& text.len() >= 16
    &&& text[text.len() - 1] == 'Z'
    &&& text[text.len() - 8] == 'T'
    &&& forall|i: int|
        text.len() - 16 <= i < text.len() - 1 && i != text.len() - 8 ==> '0' <= #[trigger] text[i]
            <= '9'
}

/// Whether a text is long enough for a date and a time with an offset, and has the offset of UTC.
pub open spec fn is_utc_time(text: Seq<char>) -> bool {
    text.len() >= 25 && text.skip(text.len() - 6) == "+00:00"@
}

/// Calls `chrono::Utc::now` and formats the time with `chrono::DateTime::format`. The one format
/// admitted is a valid one; formatting with others can panic.
///
/// Claims that the text has the form that the format describes. Which time it is depends on the
/// system clock, which has to stand after the start of 1970.
#[verifier::external_body]
fn utc_now(format: &str) -> (res: String)
    requires
        format@ == "%Y%m%dT%H%M%SZ"@,
    ensures
        is_compact_time(res@),
{
    Utc::now().format(format).to_string()
}

/// Calls `chrono::Utc::now` and `chrono::DateTime::to_rfc3339`.
///
/// Claims that the text is as long as a date, a time and an offset at least, and that the offset is
/// that of UTC. Which time it is depends on the system clock, which has to stand after the start of
/// 1970.
#[verifier::external_body]
fn utc_now_rfc3339() -> (res: String)
    ensures
        is_utc_time(res@),
{
    Utc::now().to_rfc3339()
}

/// An optional string, as text.
pub open spec fn optional_text(string: Option<String>) -> Option<Seq<char>> {
    match string {
        Some(string) => Some(string@),
        None => None,
    }
}

/// The string at a JSON pointer.
pub open spec fn text_in(strings: Map<Seq<char>, Seq<char>>, pointer: Seq<char>) -> Option<
    Seq<char>,
> {
    if strings.contains_key(pointer) {
        Some(strings[pointer])
    } else {
        None
    }
}

/// What is read of an alert: the strings at certain places of its JSON document.
#[derive(Debug)]
pub struct Alert {
    pub alert_type: Option<String>,
    pub event_skymap: Option<String>,
    pub healpix_file: Option<String>,
    pub skymap_url: Option<String>,
    pub urls_skymap_fits: Option<String>,
    pub url: Option<String>,
    pub superevent_id: Option<String>,
    pub trigger_id: Option<String>,
    pub trigger_name: Option<String>,
    pub id: Option<String>,
    pub event_id: Option<String>,
    pub trigger_time: Option<String>,
    pub time: Option<String>,
    pub reference_time: Option<String>,
    pub time_created: Option<String>,
    pub event_time: Option<String>,
}

/// An alert, as text.
#[verifier::ext_equal]
pub struct AlertView {
    pub alert_type: Option<Seq<char>>,
    pub event_skymap: Option<Seq<char>>,
    pub healpix_file: Option<Seq<char>>,
    pub skymap_url: Option<Seq<char>>,
    pub urls_skymap_fits: Option<Seq<char>>,
    pub url: Option<Seq<char>>,
    pub superevent_id: Option<Seq<char>>,
    pub trigger_id: Option<Seq<char>>,
    pub trigger_name: Option<Seq<char>>,
    pub id: Option<Seq<char>>,
    pub event_id: Option<Seq<char>>,
    pub trigger_time: Option<Seq<char>>,
    pub time: Option<Seq<char>>,
    pub reference_time: Option<Seq<char>>,
    pub time_created: Option<Seq<char>>,
    pub event_time: Option<Seq<char>>,
}

impl View for Alert {
    type V = AlertView;

    open spec fn view(&self) -> AlertView {
        AlertView {
            alert_type: optional_text(self.alert_type),
            event_skymap: optional_text(self.event_skymap),
            healpix_file: optional_text(self.healpix_file),
            skymap_url: optional_text(self.skymap_url),
            urls_skymap_fits: optional_text(self.urls_skymap_fits),
            url: optional_text(self.url),
            superevent_id: optional_text(self.superevent_id),
            trigger_id: optional_text(self.trigger_id),
            trigger_name: optional_text(self.trigger_name),
            id: optional_text(self.id),
            event_id: optional_text(self.event_id),
            trigger_time: optional_text(self.trigger_time),
            time: optional_text(self.time),
            reference_time: optional_text(self.reference_time),
            time_created: optional_text(self.time_created),
            event_time: optional_text(self.event_time),
        }
    }
}

/// What is read of an alert with these strings.
pub open spec fn alert_in(strings: Map<Seq<char>, Seq<char>>) -> AlertView {
    AlertView {
        alert_type: text_in(strings, "/alert_type"@),
        event_skymap: text_in(strings, "/event/skymap"@),
        healpix_file: text_in(strings, "/healpix_file"@),
        skymap_url: text_in(strings, "/skymap_url"@),
        urls_skymap_fits: text_in(strings, "/urls/skymap_fits"@),
        url: text_in(strings, "/url"@),
        superevent_id: text_in(strings, "/superevent_id"@),
        trigger_id: text_in(strings, "/trigger_id"@),
        trigger_name: text_in(strings, "/trigger_name"@),
        id: text_in(strings, "/id"@),
        event_id: text_in(strings, "/event_id"@),
        trigger_time: text_in(strings, "/trigger_time"@),
        time: text_in(strings, "/time"@),
        reference_time: text_in(strings, "/reference_time"@),
        time_created: text_in(strings, "/time_created"@),
        event_time: text_in(strings, "/event/time"@),
    }
}

/// Why an alert could not be processed.
#[derive(Debug)]
pub enum AlertError {
    /// The payload is not JSON.
    Json(serde_json::Error),
    /// `event.skymap` is not base64.
    EventSkymap(DecodeError),
    /// `healpix_file` is not base64.
    HealpixFile(DecodeError),
}

/// Where an alert's skymap is.
#[derive(Debug)]
pub enum SkymapSource {
    /// In the alert itself: these FITS bytes.
    Inline(Vec<u8>),
    /// At this URL.
    Url(String),
    /// Nowhere.
    Absent,
}

/// Where an alert's skymap is, over text and bytes.
#[verifier::ext_equal]
pub enum SourceView {
    Inline(Seq<u8>),
    Url(Seq<char>),
    Absent,
}

impl View for SkymapSource {
    type V = SourceView;

    open spec fn view(&self) -> SourceView {
        match self {
            SkymapSource::Inline(bytes) => SourceView::Inline(bytes@),
            SkymapSource::Url(url) => SourceView::Url(url@),
            SkymapSource::Absent => SourceView::Absent,
        }
    }
}

/// The first text that is there.
pub open spec fn first_of(a: Option<Seq<char>>, b: Option<Seq<char>>) -> Option<Seq<char>> {
    if a is Some {
        a
    } else {
        b
    }
}

/// The base64 text that holds an alert's skymap, if it has one: `event.skymap` for LVK alerts,
/// `healpix_file` for all others.
pub open spec fn inline_text(topic: Seq<char>, alert: AlertView) -> Option<Seq<char>> {
    if topic == "igwn.gwalert"@ {
        alert.event_skymap
    } else {
        alert.healpix_file
    }
}

/// Where an alert's skymap is, given what its base64 text, if it has one, decodes to. Only alerts
/// other than LVK's give a URL instead: the first of `skymap_url`, `urls.skymap_fits` and `url`.
pub open spec fn skymap_source(
    topic: Seq<char>,
    alert: AlertView,
    decoded: Option<Seq<u8>>,
) -> SourceView {
    if inline_text(topic, alert) is Some {
        SourceView::Inline(decoded.unwrap())
    } else if topic == "igwn.gwalert"@ {
        SourceView::Absent
    } else {
        match first_of(first_of(alert.skymap_url, alert.urls_skymap_fits), alert.url) {
            Some(url) => SourceView::Url(url),
            None => SourceView::Absent,
        }
    }
}

/// Whether an alert's skymap cannot be decoded.
pub open spec fn is_undecodable(topic: Seq<char>, alert: AlertView) -> bool {
    inline_text(topic, alert) matches Some(text) && base64_decoded(text) is None
}

fn copy_text(string: &Option<String>) -> (res: Option<String>)
    ensures
        res == *string,
{
    match string {
        Some(string) => Some(string.clone()),
        None => None,
    }
}

/// Reads an alert from its JSON payload.
pub fn read_alert(payload: &str) -> (res: Result<Alert, AlertError>)
    ensures
        match res {
            Ok(alert) => json_parsed(payload@) matches Some(strings) && alert@ == alert_in(strings),
            Err(e) => json_parsed(payload@) is None && e is Json,
        },
{
    match parse_json(payload) {
        Ok(json) => Ok(
            Alert {
                alert_type: string_at(&json, "/alert_type"),
                event_skymap: string_at(&json, "/event/skymap"),
                healpix_file: string_at(&json, "/healpix_file"),
                skymap_url: string_at(&json, "/skymap_url"),
                urls_skymap_fits: string_at(&json, "/urls/skymap_fits"),
                url: string_at(&json, "/url"),
                superevent_id: string_at(&json, "/superevent_id"),
                trigger_id: string_at(&json, "/trigger_id"),
                trigger_name: string_at(&json, "/trigger_name"),
                id: string_at(&json, "/id"),
                event_id: string_at(&json, "/event_id"),
                trigger_time: string_at(&json, "/trigger_time"),
                time: string_at(&json, "/time"),
                reference_time: string_at(&json, "/reference_time"),
                time_created: string_at(&json, "/time_created"),
                event_time: string_at(&json, "/event/time"),
            },
        ),
        Err(e) => Err(AlertError::Json(e)),
    }
}

/// The base64 text that holds an alert's skymap, if it has one.
pub fn inline_skymap(topic: &str, alert: &Alert) -> (res: Option<String>)
    ensures
        optional_text(res) == inline_text(topic@, alert@),
{
    if same_text(topic, "igwn.gwalert") {
        copy_text(&alert.event_skymap)
    } else {
        copy_text(&alert.healpix_file)
    }
}

/// Where an alert's skymap is, given what its base64 text, if it has one, decodes to.
pub fn locate_skymap(topic: &str, alert: &Alert, decoded: Option<Vec<u8>>) -> (res: SkymapSource)
    requires
        inline_text(topic@, alert@) is Some ==> decoded is Some,
    ensures
        res@ == skymap_source(
            topic@,
            alert@,
            match decoded {
                Some(bytes) => Some(bytes@),
                None => None,
            },
        ),
{
    if inline_skymap(topic, alert).is_some() {
        match decoded {
            Some(bytes) => SkymapSource::Inline(bytes),
            None => SkymapSource::Absent,
        }
    } else if same_text(topic, "igwn.gwalert") {
        SkymapSource::Absent
    } else if let Some(url) = &alert.skymap_url {
        SkymapSource::Url(url.clone())
    } else if let Some(url) = &alert.urls_skymap_fits {
        SkymapSource::Url(url.clone())
    } else if let Some(url) = &alert.url {
        SkymapSource::Url(url.clone())
    } else {
        SkymapSource::Absent
    }
}

/// Pulls the skymap out of an alert. Three sources, in order:
///   1. `event.skymap` base64 (igwn.gwalert, which has no other)
///   2. `healpix_file` base64 (some non-LVK JSON topics)
///   3. URL field (`skymap_url`, `urls.skymap_fits`, `url`), to be fetched
pub fn extract_skymap(topic: &str, alert: &Alert) -> (res: Result<SkymapSource, AlertError>)
    ensures
        match res {
            Ok(source) => {
                &&& !is_undecodable(topic@, alert@)
                &&& source@ == skymap_source(
                    topic@,
                    alert@,
                    base64_decoded(inline_text(topic@, alert@).unwrap()),
                )
            },
            Err(AlertError::EventSkymap(_)) => is_undecodable(topic@, alert@) && topic@
                == "igwn.gwalert"@,
            Err(AlertError::HealpixFile(_)) => is_undecodable(topic@, alert@) && topic@
                != "igwn.gwalert"@,
            Err(AlertError::Json(_)) => false,
        },
{
    match inline_skymap(topic, alert) {
        Some(text) => match decode_base64(text.as_str()) {
            Ok(bytes) => Ok(locate_skymap(topic, alert, Some(bytes))),
            Err(e) => if same_text(topic, "igwn.gwalert") {
                Err(AlertError::EventSkymap(e))
            } else {
                Err(AlertError::HealpixFile(e))
            },
        },
        None => Ok(locate_skymap(topic, alert, None)),
    }
}

/// Whether an alert takes back an earlier one.
pub open spec fn is_retraction(alert: AlertView) -> bool {
    alert.alert_type == Some("RETRACTION"@)
}

/// Whether an alert takes back an earlier one: it then has no skymap and there is nothing to do.
pub fn retracts(alert: &Alert) -> (res: bool)
    ensures
        res == is_retraction(alert@),
        res == (alert.alert_type is Some && alert.alert_type.unwrap()@ == "RETRACTION"@),
{
    match &alert.alert_type {
        Some(alert_type) => same_text(alert_type.as_str(), "RETRACTION"),
        None => false,
    }
}

/// A topic without `gcn.notices.` or else `gcn.` at its start.
pub open spec fn short(topic: Seq<char>) -> Seq<char> {
    if crate::text::starts_with(topic, "gcn.notices."@) {
        crate::text::after(topic, "gcn.notices."@)
    } else if crate::text::starts_with(topic, "gcn."@) {
        crate::text::after(topic, "gcn."@)
    } else {
        topic
    }
}

/// The short name of a topic, e.g. "gcn.notices.swift.bat.guano" is "swift.bat.guano".
pub fn short_topic(topic: &str) -> (res: &str)
    ensures
        res@ == short(topic@),
{
    match strip_text(topic, "gcn.notices.") {
        Some(rest) => rest,
        None => match strip_text(topic, "gcn.") {
            Some(rest) => rest,
            None => topic,
        },
    }
}

/// The source label for a topic.
pub open spec fn source_of(topic: Seq<char>) -> Seq<char> {
    if topic == "igwn.gwalert"@ {
        "LVK"@
    } else if crate::text::holds(topic, "swift.bat"@) {
        "Swift-BAT"@
    } else if crate::text::holds(topic, "einstein_probe"@) {
        "EinsteinProbe-WXT"@
    } else if crate::text::holds(topic, "icecube"@) {
        "IceCube"@
    } else if crate::text::holds(topic, "fermi"@) {
        "Fermi"@
    } else {
        topic
    }
}

/// The source label for a topic; the topic itself where there is none.
pub fn derive_source(topic: &str) -> (res: String)
    ensures
        res@ == source_of(topic@),
{
    if same_text(topic, "igwn.gwalert") {
        return "LVK".to_owned();
    }
    if holds_text(topic, "swift.bat") {
        return "Swift-BAT".to_owned();
    }
    if holds_text(topic, "einstein_probe") {
        return "EinsteinProbe-WXT".to_owned();
    }
    if holds_text(topic, "icecube") {
        return "IceCube".to_owned();
    }
    if holds_text(topic, "fermi") {
        return "Fermi".to_owned();
    }
    topic.to_owned()
}

/// The identifier of an alert that is not LVK's, the first that it gives.
pub open spec fn identifier(alert: AlertView) -> Option<Seq<char>> {
    first_of(
        first_of(alert.trigger_id, alert.trigger_name),
        first_of(alert.id, alert.event_id),
    )
}

/// The MOC id for an alert: LVK's superevent and alert type, else the topic's short name with the
/// alert's identifier, or with the time of receipt.
pub open spec fn moc_id_of(topic: Seq<char>, alert: AlertView, received: Seq<char>) -> Seq<char> {
    match alert.superevent_id {
        Some(superevent) => "LVK-"@ + superevent + "-"@ + match alert.alert_type {
            Some(alert_type) => alert_type,
            None => "UNKNOWN"@,
        },
        None => short(topic) + "-"@ + match identifier(alert) {
            Some(id) => id,
            None => received,
        },
    }
}

fn find_identifier(alert: &Alert) -> (res: Option<String>)
    ensures
        optional_text(res) == identifier(alert@),
{
    if alert.trigger_id.is_some() {
        copy_text(&alert.trigger_id)
    } else if alert.trigger_name.is_some() {
        copy_text(&alert.trigger_name)
    } else if alert.id.is_some() {
        copy_text(&alert.id)
    } else {
        copy_text(&alert.event_id)
    }
}

/// The MOC id for an alert that was received at the time `received`, in the form
/// `20260101T000000Z`.
pub fn moc_id_received_at(topic: &str, alert: &Alert, received: &str) -> (res: String)
    ensures
        res@ == moc_id_of(topic@, alert@, received@),
        alert.superevent_id is Some && alert.alert_type is Some ==> res@ == "LVK-"@
            + alert.superevent_id.unwrap()@ + "-"@ + alert.alert_type.unwrap()@,
        alert.superevent_id is Some && alert.alert_type is None ==> res@ == "LVK-"@
            + alert.superevent_id.unwrap()@ + "-"@ + "UNKNOWN"@,
{
    if let Some(superevent) = &alert.superevent_id {
        let mut moc_id: String = "LVK-".to_owned();
        moc_id.append(superevent.as_str());
        moc_id.append("-");
        match &alert.alert_type {
            Some(alert_type) => {
                moc_id.append(alert_type.as_str());
            },
            None => {
                moc_id.append("UNKNOWN");
            },
        }
        return moc_id;
    }
    let mut moc_id: String = short_topic(topic).to_owned();
    moc_id.append("-");
    match find_identifier(alert) {
        Some(id) => {
            moc_id.append(id.as_str());
        },
        None => {
            moc_id.append(received);
        },
    }
    moc_id
}

/// Whether this is a MOC id for an alert: the one that its identifiers give, or one with the time
/// of receipt where it has none.
pub open spec fn is_moc_id(topic: Seq<char>, alert: AlertView, moc_id: Seq<char>) -> bool {
    if alert.superevent_id is Some || identifier(alert) is Some {
        forall|received: Seq<char>| moc_id == #[trigger] moc_id_of(topic, alert, received)
    } else {
        exists|received: Seq<char>|
            is_compact_time(received) && moc_id == #[trigger] moc_id_of(topic, alert, received)
    }
}

/// The MOC id for an alert. Prefers source-specific identifiers, and falls back to the topic and
/// the current time.
pub fn derive_moc_id(topic: &str, alert: &Alert) -> (res: String)
    ensures
        is_moc_id(topic@, alert@, res@),
        alert.superevent_id is Some && alert.alert_type is Some ==> res@ == "LVK-"@
            + alert.superevent_id.unwrap()@ + "-"@ + alert.alert_type.unwrap()@,
        alert.superevent_id is Some && alert.alert_type is None ==> res@ == "LVK-"@
            + alert.superevent_id.unwrap()@ + "-"@ + "UNKNOWN"@,
{
    if alert.superevent_id.is_some() || find_identifier(alert).is_some() {
        let res: String = moc_id_received_at(topic, alert, "");
        assert(res@ == moc_id_of(topic@, alert@, ""@));
        res
    } else {
        let received: String = utc_now("%Y%m%dT%H%M%SZ");
        moc_id_received_at(topic, alert, received.as_str())
    }
}

/// The time that an alert gives, if any.
pub open spec fn given_time(alert: AlertView) -> Option<Seq<char>> {
    first_of(
        first_of(
            first_of(alert.trigger_time, alert.time),
            first_of(alert.reference_time, alert.time_created),
        ),
        alert.event_time,
    )
}

fn find_time(alert: &Alert) -> (res: Option<String>)
    ensures
        optional_text(res) == given_time(alert@),
{
    if alert.trigger_time.is_some() {
        copy_text(&alert.trigger_time)
    } else if alert.time.is_some() {
        copy_text(&alert.time)
    } else if alert.reference_time.is_some() {
        copy_text(&alert.reference_time)
    } else if alert.time_created.is_some() {
        copy_text(&alert.time_created)
    } else {
        copy_text(&alert.event_time)
    }
}

/// The trigger time of an alert: the time that it gives, or the time of receipt.
pub open spec fn trigger_time_of(alert: AlertView, received: Seq<char>) -> Seq<char> {
    match given_time(alert) {
        Some(time) => time,
        None => received,
    }
}

/// The trigger time of an alert that was received at the time `received`.
pub fn trigger_time_received_at(alert: &Alert, received: &str) -> (res: String)
    ensures
        res@ == trigger_time_of(alert@, received@),
{
    match find_time(alert) {
        Some(time) => time,
        None => received.to_owned(),
    }
}

/// Whether this is a trigger time of an alert: the time that it gives, or the time of receipt, in
/// UTC, where it gives none.
pub open spec fn is_trigger_time(alert: AlertView, time: Seq<char>) -> bool {
    match given_time(alert) {
        Some(given) => time == given,
        None => is_utc_time(time),
    }
}

/// The trigger time of an alert. Falls back to the current time where the alert gives none.
pub fn derive_trigger_time(alert: &Alert) -> (res: String)
    ensures
        is_trigger_time(alert@, res@),
{
    if find_time(alert).is_some() {
        let res: String = trigger_time_received_at(alert, "");
        assert(res@ == trigger_time_of(alert@, ""@));
        res
    } else {
        let received: String = utc_now_rfc3339();
        trigger_time_received_at(alert, received.as_str())
    }
}

/// What to do with an alert next.
#[derive(Debug)]
pub enum AlertStep {
    /// Nothing: it has no skymap to register.
    Skip,
    /// Parse these FITS bytes, its skymap.
    Parse { alert: Alert, skymap: Vec<u8> },
    /// Fetch its skymap from this URL, then parse it.
    Fetch { alert: Alert, url: String },
}

/// What to do with an alert next, over text and bytes.
#[verifier::ext_equal]
pub enum StepView {
    Skip,
    Parse { alert: AlertView, skymap: Seq<u8> },
    Fetch { alert: AlertView, url: Seq<char> },
}

impl View for AlertStep {
    type V = StepView;

    open spec fn view(&self) -> StepView {
        match self {
            AlertStep::Skip => StepView::Skip,
            AlertStep::Parse { alert, skymap } => StepView::Parse {
                alert: alert@,
                skymap: skymap@,
            },
            AlertStep::Fetch { alert, url } => StepView::Fetch { alert: alert@, url: url@ },
        }
    }
}

/// What to do with an alert whose skymap is there.
pub open spec fn step_for(alert: AlertView, source: SourceView) -> StepView {
    match source {
        SourceView::Inline(skymap) => StepView::Parse { alert, skymap },
        SourceView::Url(url) => StepView::Fetch { alert, url },
        SourceView::Absent => StepView::Skip,
    }
}

/// What to do with an alert next: nothing for a retraction or without a skymap, else what its
/// skymap needs.
pub open spec fn next_step(topic: Seq<char>, alert: AlertView) -> StepView {
    if is_retraction(alert) {
        StepView::Skip
    } else {
        step_for(
            alert,
            skymap_source(topic, alert, base64_decoded(inline_text(topic, alert).unwrap())),
        )
    }
}

impl AlertError {
    /// Whether this is the error for an alert whose base64 text cannot be decoded.
    pub open spec fn blames(self, topic: Seq<char>) -> bool {
        if topic == "igwn.gwalert"@ {
            self is EventSkymap
        } else {
            self is HealpixFile
        }
    }
}

/// Decides what to do with an alert next.
pub fn plan_alert(topic: &str, alert: Alert) -> (res: Result<AlertStep, AlertError>)
    ensures
        match res {
            Ok(step) => {
                &&& is_retraction(alert@) || !is_undecodable(topic@, alert@)
                &&& step@ == next_step(topic@, alert@)
            },
            Err(e) => {
                &&& !is_retraction(alert@)
                &&& is_undecodable(topic@, alert@)
                &&& e.blames(topic@)
            },
        },
{
    if retracts(&alert) {
        return Ok(AlertStep::Skip);
    }
    match extract_skymap(topic, &alert) {
        Ok(SkymapSource::Inline(skymap)) => Ok(AlertStep::Parse { alert, skymap }),
        Ok(SkymapSource::Url(url)) => Ok(AlertStep::Fetch { alert, url }),
        Ok(SkymapSource::Absent) => Ok(AlertStep::Skip),
        Err(e) => Err(e),
    }
}

/// Takes an alert payload up to its skymap: what is then left is to fetch the skymap where it is
/// elsewhere, to parse it, and to register its MOC as [`describe_moc`] says.
pub fn handle_alert(topic: &str, payload: &str) -> (res: Result<AlertStep, AlertError>)
    ensures
        match json_parsed(payload@) {
            None => res is Err && res->Err_0 is Json,
            Some(strings) => {
                let alert = alert_in(strings);
                match res {
                    Ok(step) => {
                        &&& is_retraction(alert) || !is_undecodable(topic@, alert)
                        &&& step@ == next_step(topic@, alert)
                    },
                    Err(e) => {
                        &&& !is_retraction(alert)
                        &&& is_undecodable(topic@, alert)
                        &&& e.blames(topic@)
                    },
                }
            },
        },
        topic@ == "igwn.gwalert"@ ==> (json_parsed(payload@) matches Some(strings) ==> (
        !(strings.contains_key("/alert_type"@) && strings["/alert_type"@] == "RETRACTION"@)
            && strings.contains_key("/event/skymap"@) ==> (base64_decoded(
            strings["/event/skymap"@],
        ) matches Some(bytes) ==> res matches Ok(AlertStep::Parse { alert, skymap }) && skymap@
            == bytes))),
{
    match read_alert(payload) {
        Ok(alert) => plan_alert(topic, alert),
        Err(e) => Err(e),
    }
}

/// An alert's MOC as it is registered.
#[derive(Debug)]
pub struct AlertMoc {
    pub moc_id: String,
    pub fits_bytes: Vec<u8>,
    pub metadata: MocMetadata,
}

/// Names the MOC of an alert's skymap, serializes it, and gathers its metadata. The credible level
/// and the coverage are bits of 64-bit floats.
pub fn describe_moc(
    topic: &str,
    alert: &Alert,
    moc: &HpxMoc,
    credible_level: u64,
    validity_seconds: u64,
    coverage_fraction: u64,
) -> (res: Result<AlertMoc, MocError>)
    requires
        moc.depth_max <= crate::healpix::MAX_DEPTH,
    ensures
        res matches Ok(described) && {
            &&& is_moc_id(topic@, alert@, described.moc_id@)
            &&& described.fits_bytes@ == crate::hpx_moc::fits_encoding(moc.depth_max, moc.ranges@)
            &&& crate::hpx_moc::moc_in_fits(described.fits_bytes@) == Some(moc@)
            &&& is_trigger_time(alert@, described.metadata@.trigger_time)
            &&& described.metadata@ == (MetadataView {
                source: source_of(topic@),
                trigger_time: described.metadata@.trigger_time,
                credible_level,
                validity_seconds,
                coverage_fraction,
                native_depth: moc.depth_max,
            })
        },
{
    match moc_to_fits_bytes(moc) {
        Ok(fits_bytes) => Ok(
            AlertMoc {
                moc_id: derive_moc_id(topic, alert),
                fits_bytes,
                metadata: MocMetadata {
                    source: derive_source(topic),
                    trigger_time: derive_trigger_time(alert),
                    credible_level,
                    validity_seconds,
                    coverage_fraction,
                    native_depth: moc.depth_max,
                },
            },
        ),
        Err(e) => Err(e),
    }
}

/// An alert is viewed field by field.
pub proof fn law_alert_is_viewed_by_field(alert: Alert)
    ensures
        alert@.alert_type == match alert.alert_type {
            Some(text) => Some(text@),
            None => None,
        },
        alert@.event_skymap == match alert.event_skymap {
            Some(text) => Some(text@),
            None => None,
        },
        alert@.healpix_file == match alert.healpix_file {
            Some(text) => Some(text@),
            None => None,
        },
        alert@.skymap_url == match alert.skymap_url {
            Some(text) => Some(text@),
            None => None,
        },
        alert@.urls_skymap_fits == match alert.urls_skymap_fits {
            Some(text) => Some(text@),
            None => None,
        },
        alert@.url == match alert.url {
            Some(text) => Some(text@),
            None => None,
        },
        alert@.superevent_id == match alert.superevent_id {
            Some(text) => Some(text@),
            None => None,
        },
        alert@.trigger_id == match alert.trigger_id {
            Some(text) => Some(text@),
            None => None,
        },
        alert@.trigger_name == match alert.trigger_name {
            Some(text) => Some(text@),
            None => None,
        },
        alert@.id == match alert.id {
            Some(text) => Some(text@),
            None => None,
        },
        alert@.event_id == match alert.event_id {
            Some(text) => Some(text@),
            None => None,
        },
        alert@.trigger_time == match alert.trigger_time {
            Some(text) => Some(text@),
            None => None,
        },
        alert@.time == match alert.time {
            Some(text) => Some(text@),
            None => None,
        },
        alert@.reference_time == match alert.reference_time {
            Some(text) => Some(text@),
            None => None,
        },
        alert@.time_created == match alert.time_created {
            Some(text) => Some(text@),
            None => None,
        },
        alert@.event_time == match alert.event_time {
            Some(text) => Some(text@),
            None => None,
        },
{
}

/// Every field of an alert that was read is the string at its own place in the document, whatever
/// else the document holds, and is missing exactly if there is no string at that place.
pub proof fn law_alert_is_read_by_place(alert: Alert, strings: Map<Seq<char>, Seq<char>>)
    requires
        alert@ == alert_in(strings),
    ensures
        match alert.alert_type {
            Some(text) => strings.contains_key("/alert_type"@) && strings["/alert_type"@] == text@,
            None => !strings.contains_key("/alert_type"@),
        },
        match alert.event_skymap {
            Some(text) => strings.contains_key("/event/skymap"@) && strings["/event/skymap"@] == text@,
            None => !strings.contains_key("/event/skymap"@),
        },
        match alert.healpix_file {
            Some(text) => strings.contains_key("/healpix_file"@) && strings["/healpix_file"@] == text@,
            None => !strings.contains_key("/healpix_file"@),
        },
        match alert.skymap_url {
            Some(text) => strings.contains_key("/skymap_url"@) && strings["/skymap_url"@] == text@,
            None => !strings.contains_key("/skymap_url"@),
        },
        match alert.urls_skymap_fits {
            Some(text) => strings.contains_key("/urls/skymap_fits"@) && strings["/urls/skymap_fits"@] == text@,
            None => !strings.contains_key("/urls/skymap_fits"@),
        },
        match alert.url {
            Some(text) => strings.contains_key("/url"@) && strings["/url"@] == text@,
            None => !strings.contains_key("/url"@),
        },
        match alert.superevent_id {
            Some(text) => strings.contains_key("/superevent_id"@) && strings["/superevent_id"@] == text@,
            None => !strings.contains_key("/superevent_id"@),
        },
        match alert.trigger_id {
            Some(text) => strings.contains_key("/trigger_id"@) && strings["/trigger_id"@] == text@,
            None => !strings.contains_key("/trigger_id"@),
        },
        match alert.trigger_name {
            Some(text) => strings.contains_key("/trigger_name"@) && strings["/trigger_name"@] == text@,
            None => !strings.contains_key("/trigger_name"@),
        },
        match alert.id {
            Some(text) => strings.contains_key("/id"@) && strings["/id"@] == text@,
            None => !strings.contains_key("/id"@),
        },
        match alert.event_id {
            Some(text) => strings.contains_key("/event_id"@) && strings["/event_id"@] == text@,
            None => !strings.contains_key("/event_id"@),
        },
        match alert.trigger_time {
            Some(text) => strings.contains_key("/trigger_time"@) && strings["/trigger_time"@] == text@,
            None => !strings.contains_key("/trigger_time"@),
        },
        match alert.time {
            Some(text) => strings.contains_key("/time"@) && strings["/time"@] == text@,
            None => !strings.contains_key("/time"@),
        },
        match alert.reference_time {
            Some(text) => strings.contains_key("/reference_time"@) && strings["/reference_time"@] == text@,
            None => !strings.contains_key("/reference_time"@),
        },
        match alert.time_created {
            Some(text) => strings.contains_key("/time_created"@) && strings["/time_created"@] == text@,
            None => !strings.contains_key("/time_created"@),
        },
        match alert.event_time {
            Some(text) => strings.contains_key("/event/time"@) && strings["/event/time"@] == text@,
            None => !strings.contains_key("/event/time"@),
        },
{
}

/// What becomes of an LVK alert, from the strings in its payload. A retraction is skipped. Any other
/// alert, with whatever type or none, is skipped only without a skymap; with one, exactly the bytes
/// that the skymap decodes to are parsed, or it is reported that they cannot be decoded.
pub proof fn law_lvk_alerts_are_parsed(payload: Seq<char>, strings: Map<Seq<char>, Seq<char>>)
    requires
        json_parsed(payload) == Some(strings),
    ensures
        ({
            let alert = alert_in(strings);
            let step = next_step("igwn.gwalert"@, alert);
            let retracted = strings.contains_key("/alert_type"@) && strings["/alert_type"@]
                == "RETRACTION"@;
            &&& is_retraction(alert) == retracted
            &&& is_undecodable("igwn.gwalert"@, alert) == (strings.contains_key("/event/skymap"@)
                && base64_decoded(strings["/event/skymap"@]) is None)
            &&& step is Skip <==> retracted || !strings.contains_key("/event/skymap"@)
            &&& !retracted && strings.contains_key("/event/skymap"@) ==> (base64_decoded(
                strings["/event/skymap"@],
            ) matches Some(bytes) ==> step == (StepView::Parse { alert, skymap: bytes }))
        }),
{
}

/// What becomes of an alert of any other topic, from the strings in its payload. A retraction is
/// skipped. Else the bytes that `healpix_file` decodes to are parsed, or it is reported that they
/// cannot be decoded; without it the skymap is fetched from the first URL that is there, and only
/// without any is the alert skipped.
pub proof fn law_other_alerts_are_parsed_or_fetched(
    topic: Seq<char>,
    payload: Seq<char>,
    strings: Map<Seq<char>, Seq<char>>,
)
    requires
        topic != "igwn.gwalert"@,
        json_parsed(payload) == Some(strings),
    ensures
        ({
            let alert = alert_in(strings);
            let step = next_step(topic, alert);
            let retracted = strings.contains_key("/alert_type"@) && strings["/alert_type"@]
                == "RETRACTION"@;
            let inline = strings.contains_key("/healpix_file"@);
            let fetched = !retracted && !inline;
            &&& is_retraction(alert) == retracted
            &&& is_undecodable(topic, alert) == (inline && base64_decoded(
                strings["/healpix_file"@],
            ) is None)
            &&& retracted ==> step is Skip
            &&& !retracted && inline ==> (base64_decoded(strings["/healpix_file"@]) matches Some(
                bytes,
            ) ==> step == (StepView::Parse { alert, skymap: bytes }))
            &&& fetched && strings.contains_key("/skymap_url"@) ==> step == (StepView::Fetch {
                alert,
                url: strings["/skymap_url"@],
            })
            &&& fetched && !strings.contains_key("/skymap_url"@) && strings.contains_key(
                "/urls/skymap_fits"@,
            ) ==> step == (StepView::Fetch { alert, url: strings["/urls/skymap_fits"@] })
            &&& fetched && !strings.contains_key("/skymap_url"@) && !strings.contains_key(
                "/urls/skymap_fits"@,
            ) && strings.contains_key("/url"@) ==> step == (StepView::Fetch {
                alert,
                url: strings["/url"@],
            })
            &&& fetched && !strings.contains_key("/skymap_url"@) && !strings.contains_key(
                "/urls/skymap_fits"@,
            ) && !strings.contains_key("/url"@) ==> step is Skip
        }),
{
}

/// A step carries the very alert, bytes and URL that its view speaks of, and an error names the
/// field that could not be decoded.
pub proof fn law_steps_are_viewed_by_field(
    alert: Alert,
    skymap: Vec<u8>,
    url: String,
    error: AlertError,
    topic: Seq<char>,
)
    ensures
        AlertStep::Skip@ is Skip,
        (AlertStep::Parse { alert, skymap })@ == (StepView::Parse { alert: alert@, skymap: skymap@ }),
        (AlertStep::Fetch { alert, url })@ == (StepView::Fetch { alert: alert@, url: url@ }),
        SkymapSource::Inline(skymap)@ == SourceView::Inline(skymap@),
        SkymapSource::Url(url)@ == SourceView::Url(url@),
        SkymapSource::Absent@ is Absent,
        topic == "igwn.gwalert"@ ==> (error.blames(topic) <==> error is EventSkymap),
        topic != "igwn.gwalert"@ ==> (error.blames(topic) <==> error is HealpixFile),
{
}

/// The skymap of an alert, from the alert's own fields: an LVK alert has it in `event_skymap` or
/// nowhere; any other in `healpix_file`, else at the first of its three URLs, else nowhere.
pub proof fn law_skymap_is_located_in_order(
    topic: Seq<char>,
    alert: Alert,
    text: String,
    bytes: Seq<u8>,
)
    ensures
        topic == "igwn.gwalert"@ && alert.event_skymap == Some(text) ==> inline_text(topic, alert@)
            == Some(text@) && skymap_source(topic, alert@, Some(bytes)) == SourceView::Inline(
            bytes,
        ),
        topic == "igwn.gwalert"@ && alert.event_skymap is None ==> inline_text(
            topic,
            alert@,
        ) is None && skymap_source(topic, alert@, None) is Absent,
        topic != "igwn.gwalert"@ && alert.healpix_file == Some(text) ==> inline_text(topic, alert@)
            == Some(text@) && skymap_source(topic, alert@, Some(bytes)) == SourceView::Inline(
            bytes,
        ),
        topic != "igwn.gwalert"@ && alert.healpix_file is None ==> {
            let source = skymap_source(topic, alert@, None);
            &&& inline_text(topic, alert@) is None
            &&& alert.skymap_url == Some(text) ==> source == SourceView::Url(text@)
            &&& alert.skymap_url is None && alert.urls_skymap_fits == Some(text) ==> source
                == SourceView::Url(text@)
            &&& alert.skymap_url is None && alert.urls_skymap_fits is None && alert.url == Some(
                text,
            ) ==> source == SourceView::Url(text@)
            &&& alert.skymap_url is None && alert.urls_skymap_fits is None
                && alert.url is None ==> source is Absent
        },
        is_undecodable(topic, alert@) <==> inline_text(topic, alert@) is Some && base64_decoded(
            inline_text(topic, alert@).unwrap(),
        ) is None,
{
}

/// The short name of a topic is what follows `gcn.notices.`, else what follows `gcn.`, else the
/// topic itself.
pub proof fn law_short_names_drop_the_prefix(topic: Seq<char>, rest: Seq<char>)
    ensures
        short("gcn.notices."@ + rest) == rest,
        (forall|more: Seq<char>| rest != #[trigger] ("notices."@ + more)) ==> short("gcn."@ + rest)
            == rest,
        (forall|more: Seq<char>| topic != #[trigger] ("gcn."@ + more)) ==> short(topic) == topic,
{
    reveal_strlit("gcn.notices.");
    reveal_strlit("gcn.");
    reveal_strlit("notices.");
    assert("gcn.notices."@ =~= "gcn."@ + "notices."@);
    crate::text::law_prefix_is_cut_off(topic, "gcn.notices."@, rest);
    crate::text::law_prefix_is_cut_off(topic, "gcn."@, rest);
    crate::text::law_prefix_is_cut_off("gcn."@ + rest, "gcn.notices."@, rest);
    if crate::text::starts_with("gcn."@ + rest, "gcn.notices."@) {
        let more = crate::text::after("gcn."@ + rest, "gcn.notices."@);
        assert("gcn."@ + rest == "gcn."@ + "notices."@ + more);
        assert(rest =~= ("gcn."@ + rest).skip(4));
        assert(("gcn."@ + "notices."@ + more).skip(4) =~= "notices."@ + more);
    }
    if crate::text::starts_with(topic, "gcn.notices."@) {
        let more = crate::text::after(topic, "gcn.notices."@);
        assert(topic =~= "gcn."@ + ("notices."@ + more));
    }
}

/// The source label of a topic goes by the first of the known names that stands anywhere in it;
/// LVK's topic alone is labelled `LVK`, and a topic without any of the names is its own label.
pub proof fn law_sources_go_by_the_name_in_the_topic(
    topic: Seq<char>,
    before: Seq<char>,
    behind: Seq<char>,
)
    ensures
        source_of("igwn.gwalert"@) == "LVK"@,
        source_of(before + "swift.bat"@ + behind) == "Swift-BAT"@,
        !crate::text::holds(before + "einstein_probe"@ + behind, "swift.bat"@) ==> source_of(
            before + "einstein_probe"@ + behind,
        ) == "EinsteinProbe-WXT"@,
        !crate::text::holds(before + "icecube"@ + behind, "swift.bat"@) && !crate::text::holds(
            before + "icecube"@ + behind,
            "einstein_probe"@,
        ) ==> source_of(before + "icecube"@ + behind) == "IceCube"@,
        !crate::text::holds(before + "fermi"@ + behind, "swift.bat"@) && !crate::text::holds(
            before + "fermi"@ + behind,
            "einstein_probe"@,
        ) && !crate::text::holds(before + "fermi"@ + behind, "icecube"@) ==> source_of(
            before + "fermi"@ + behind,
        ) == "Fermi"@,
        topic != "igwn.gwalert"@ && !crate::text::holds(topic, "swift.bat"@) && !crate::text::holds(
            topic,
            "einstein_probe"@,
        ) && !crate::text::holds(topic, "icecube"@) && !crate::text::holds(topic, "fermi"@)
            ==> source_of(topic) == topic,
{
    assert("swift.bat"@.len() > 0 && "swift.bat"@[0] == 's') by {
        reveal_strlit("swift.bat");
    }
    assert("einstein_probe"@.len() > 8 && "einstein_probe"@[8] == '_') by {
        reveal_strlit("einstein_probe");
    }
    assert("icecube"@.len() > 1 && "icecube"@[1] == 'c') by {
        reveal_strlit("icecube");
    }
    assert("fermi"@.len() > 0 && "fermi"@[0] == 'f') by {
        reveal_strlit("fermi");
    }
    lemma_not_lvk(before, "swift.bat"@, behind, 0);
    lemma_not_lvk(before, "einstein_probe"@, behind, 8);
    lemma_not_lvk(before, "icecube"@, behind, 1);
    lemma_not_lvk(before, "fermi"@, behind, 0);
}

/// A name is in a topic that is made with it, and LVK's topic is not made with a name that has a
/// letter other than its own.
proof fn lemma_not_lvk(before: Seq<char>, name: Seq<char>, behind: Seq<char>, k: int)
    requires
        0 <= k < name.len(),
        name[k] == 's' || name[k] == '_' || name[k] == 'c' || name[k] == 'f',
    ensures
        crate::text::holds(before + name + behind, name),
        before + name + behind != "igwn.gwalert"@,
{
    let topic = before + name + behind;
    assert(topic.subrange(before.len() as int, before.len() as int + name.len()) =~= name);
    assert(crate::text::stands_at(topic, name, before.len() as int));
    let i = before.len() as int + k;
    assert(topic[i] == name[k]);
    assert(topic.len() == 12 ==> topic != "igwn.gwalert"@) by {
        reveal_strlit("igwn.gwalert");
        let lvk = "igwn.gwalert"@;
        assert(lvk[0] == 'i' && lvk[1] == 'g' && lvk[2] == 'w' && lvk[3] == 'n' && lvk[4] == '.');
        assert(lvk[5] == 'g' && lvk[6] == 'w' && lvk[7] == 'a' && lvk[8] == 'l' && lvk[9] == 'e');
        assert(lvk[10] == 'r' && lvk[11] == 't');
        assert(0 <= i < 12 ==> lvk[i] != name[k]);
    }
    assert("igwn.gwalert"@.len() == 12) by {
        reveal_strlit("igwn.gwalert");
    }
}

/// The MOC id of an alert ends in the alert's own type, or in the first identifier that the alert
/// gives, or in the time of receipt. An LVK id says from which superevent the alert is, any other
/// from which topic.
pub proof fn law_moc_ids_are_written_out(
    topic: Seq<char>,
    alert: Alert,
    received: Seq<char>,
    text: String,
    kind: String,
)
    ensures
        ({
            let moc_id = moc_id_of(topic, alert@, received);
            let ordinary = alert.superevent_id is None;
            &&& alert.superevent_id == Some(text) && alert.alert_type == Some(kind) ==> moc_id
                == "LVK-"@ + text@ + "-"@ + kind@
            &&& alert.superevent_id == Some(text) && alert.alert_type is None ==> moc_id == "LVK-"@
                + text@ + "-"@ + "UNKNOWN"@
            &&& ordinary && alert.trigger_id == Some(text) ==> moc_id == short(topic) + "-"@ + text@
            &&& ordinary && alert.trigger_id is None && alert.trigger_name == Some(text) ==> moc_id
                == short(topic) + "-"@ + text@
            &&& ordinary && alert.trigger_id is None && alert.trigger_name is None && alert.id
                == Some(text) ==> moc_id == short(topic) + "-"@ + text@
            &&& ordinary && alert.trigger_id is None && alert.trigger_name is None
                && alert.id is None && alert.event_id == Some(text) ==> moc_id == short(topic)
                + "-"@ + text@
            &&& ordinary && alert.trigger_id is None && alert.trigger_name is None
                && alert.id is None && alert.event_id is None ==> moc_id == short(topic) + "-"@
                + received
        }),
{
}

/// A MOC id that an alert gets depends on the clock only where the alert has no identifier at all,
/// and is then the topic's short name and a time.
pub proof fn law_moc_ids_use_the_clock_last(
    topic: Seq<char>,
    alert: Alert,
    moc_id: Seq<char>,
    received: Seq<char>,
)
    requires
        is_moc_id(topic, alert@, moc_id),
    ensures
        alert.superevent_id is Some || alert.trigger_id is Some || alert.trigger_name is Some
            || alert.id is Some || alert.event_id is Some ==> moc_id == moc_id_of(
            topic,
            alert@,
            received,
        ),
        alert.superevent_id is None && alert.trigger_id is None && alert.trigger_name is None
            && alert.id is None && alert.event_id is None ==> exists|time: Seq<char>|
            {
                &&& moc_id == #[trigger] (short(topic) + "-"@ + time)
                &&& time.len() >= 16
                &&& time[time.len() - 1] == 'Z'
                &&& time[time.len() - 8] == 'T'
                &&& forall|i: int|
                    time.len() - 16 <= i < time.len() - 1 && i != time.len() - 8 ==> '0'
                        <= #[trigger] time[i] <= '9'
            },
{
    if !(alert.superevent_id is Some || identifier(alert@) is Some) {
        let time = choose|time: Seq<char>|
            is_compact_time(time) && moc_id == #[trigger] moc_id_of(topic, alert@, time);
        assert(moc_id == short(topic) + "-"@ + time);
    }
}

/// MOC ids tell alerts apart: two alerts of one superevent with different types have different ids,
/// as have two of one type from different superevents, and two with different identifiers on one
/// topic.
pub proof fn law_moc_ids_tell_alerts_apart(
    topic: Seq<char>,
    other_topic: Seq<char>,
    alert: Alert,
    other: Alert,
    moc_id: Seq<char>,
    other_id: Seq<char>,
)
    requires
        is_moc_id(topic, alert@, moc_id),
        is_moc_id(other_topic, other@, other_id),
    ensures
        alert.superevent_id is Some && other.superevent_id is Some && alert.alert_type is Some
            && other.alert_type is Some && alert.superevent_id.unwrap()@
            == other.superevent_id.unwrap()@ && alert.alert_type.unwrap()@
            != other.alert_type.unwrap()@ ==> moc_id != other_id,
        alert.superevent_id is Some && other.superevent_id is Some && alert.alert_type is Some
            && other.alert_type is Some && alert.superevent_id.unwrap()@
            != other.superevent_id.unwrap()@ && alert.alert_type.unwrap()@
            == other.alert_type.unwrap()@ ==> moc_id != other_id,
        alert.superevent_id is None && other.superevent_id is None && topic == other_topic
            && alert.trigger_id is Some && other.trigger_id is Some && alert.trigger_id.unwrap()@
            != other.trigger_id.unwrap()@ ==> moc_id != other_id,
{
    if alert.superevent_id is Some && other.superevent_id is Some && alert.alert_type is Some
        && other.alert_type is Some {
        let (event, kind) = (alert.superevent_id.unwrap()@, alert.alert_type.unwrap()@);
        let (other_event, other_kind) = (
            other.superevent_id.unwrap()@,
            other.alert_type.unwrap()@,
        );
        assert(moc_id == moc_id_of(topic, alert@, Seq::empty()));
        assert(other_id == moc_id_of(other_topic, other@, Seq::empty()));
        let (lead, other_lead) = ("LVK-"@ + event + "-"@, "LVK-"@ + other_event + "-"@);
        assert(moc_id == lead + kind && other_id == other_lead + other_kind);
        assert(moc_id.skip(lead.len() as int) =~= kind);
        assert(other_id.skip(other_lead.len() as int) =~= other_kind);
        let from = "LVK-"@.len() as int;
        assert(moc_id.subrange(from, moc_id.len() - kind.len() - "-"@.len()) =~= event);
        assert(other_id.subrange(from, other_id.len() - other_kind.len() - "-"@.len())
            =~= other_event);
    }
    if alert.superevent_id is None && other.superevent_id is None && topic == other_topic
        && alert.trigger_id is Some && other.trigger_id is Some {
        assert(moc_id == moc_id_of(topic, alert@, Seq::empty()));
        assert(other_id == moc_id_of(other_topic, other@, Seq::empty()));
        let lead = short(topic) + "-"@;
        assert(moc_id.skip(lead.len() as int) =~= alert.trigger_id.unwrap()@);
        assert(other_id.skip(lead.len() as int) =~= other.trigger_id.unwrap()@);
    }
}

/// The trigger time of an alert, from the strings in its payload: the very string at
/// `/trigger_time`, whatever else the document holds, else that at the next of the further places
/// in order, and only without any of them the time of receipt.
pub proof fn law_trigger_times_come_from_the_payload(
    payload: Seq<char>,
    strings: Map<Seq<char>, Seq<char>>,
    alert: Alert,
    time: Seq<char>,
    received: Seq<char>,
)
    requires
        json_parsed(payload) == Some(strings),
        alert@ == alert_in(strings),
        is_trigger_time(alert@, time),
    ensures
        strings.contains_key("/trigger_time"@) ==> time == strings["/trigger_time"@],
        !strings.contains_key("/trigger_time"@) && strings.contains_key("/time"@) ==> time
            == strings["/time"@],
        !strings.contains_key("/trigger_time"@) && !strings.contains_key("/time"@)
            && strings.contains_key("/reference_time"@) ==> time == strings["/reference_time"@],
        !strings.contains_key("/trigger_time"@) && !strings.contains_key("/time"@)
            && !strings.contains_key("/reference_time"@) && strings.contains_key("/time_created"@)
            ==> time == strings["/time_created"@],
        !strings.contains_key("/trigger_time"@) && !strings.contains_key("/time"@)
            && !strings.contains_key("/reference_time"@) && !strings.contains_key("/time_created"@)
            && strings.contains_key("/event/time"@) ==> time == strings["/event/time"@],
        !strings.contains_key("/trigger_time"@) && !strings.contains_key("/time"@)
            && !strings.contains_key("/reference_time"@) && !strings.contains_key("/time_created"@)
            && !strings.contains_key("/event/time"@) ==> time.len() >= 25 && time.skip(
            time.len() - 6,
        ) == "+00:00"@ && trigger_time_of(alert@, received) == received,
{
}

/// The trigger time of an alert, from the alert's own fields.
pub proof fn law_trigger_times_are_taken_in_order(alert: Alert, received: Seq<char>, text: String)
    ensures
        ({
            let time = trigger_time_of(alert@, received);
            &&& alert.trigger_time == Some(text) ==> time == text@
            &&& alert.trigger_time is None && alert.time == Some(text) ==> time == text@
            &&& alert.trigger_time is None && alert.time is None && alert.reference_time == Some(
                text,
            ) ==> time == text@
            &&& alert.trigger_time is None && alert.time is None && alert.reference_time is None
                && alert.time_created == Some(text) ==> time == text@
            &&& alert.trigger_time is None && alert.time is None && alert.reference_time is None
                && alert.time_created is None && alert.event_time == Some(text) ==> time == text@
            &&& alert.trigger_time is None && alert.time is None && alert.reference_time is None
                && alert.time_created is None && alert.event_time is None ==> time == received
        }),
{
}

} // verus!
