//! Decisions about KNMI Open Data files: which file a notification names,
//! which download URLs are trusted, which cached files are stale, and when a
//! newer forecast run should be fetched.

use vstd::prelude::*;
use vstd::string::StringExecFns;
use crate::names::{
    parse_rtcor_filename_timestamp, parse_tar_run_time, rtcor_timestamp_spec, tar_run_time_spec,
};
use crate::split::{
    file_name_range, keep_path_parts, lemma_fields_exclude, lemma_kept_parts, path_file_name,
    split_fields, Separator,
};
use crate::text::{chars_of, has_prefix, has_suffix, str_eq, str_ends_with, str_starts_with};

verus! {

/// A member of a JSON object, as far as the notification logic reads it.
pub enum JsonField {
    /// The member is not there (or its parent is not an object).
    Absent,
    /// The member is a JSON string.
    Text(String),
    /// The member is there but is not a string.
    Other,
}

/// The members of a KNMI file notification that name the file and its URL.
pub struct NotificationFields {
    /// `data.filename`
    pub data_filename: JsonField,
    /// `data.fileName`
    pub data_file_name_camel: JsonField,
    /// `data.file_name`
    pub data_file_name_snake: JsonField,
    /// `fileName`
    pub file_name_camel: JsonField,
    /// `file_name`
    pub file_name_snake: JsonField,
    /// `data.url`
    pub data_url: JsonField,
}

/// The first member that is there.
pub open spec fn first_present(a: JsonField, b: JsonField) -> JsonField {
    match a {
        JsonField::Absent => b,
        _ => a,
    }
}

/// The text of a member that is a string.
pub open spec fn field_text(f: JsonField) -> Option<Seq<char>> {
    match f {
        JsonField::Text(s) => Some(s@),
        _ => None,
    }
}

/// The file a notification names: the first of `data.filename`,
/// `data.fileName`, `data.file_name` that is there, when it is a string;
/// otherwise the first of `fileName`, `file_name` that is there, when it is a
/// string.
pub open spec fn notified_name(n: NotificationFields) -> Option<Seq<char>> {
    let inner = first_present(
        n.data_filename,
        first_present(n.data_file_name_camel, n.data_file_name_snake),
    );
    match field_text(inner) {
        Some(s) => Some(s),
        None => field_text(first_present(n.file_name_camel, n.file_name_snake)),
    }
}

fn pick_present<'a>(a: &'a JsonField, b: &'a JsonField) -> (r: &'a JsonField)
    ensures
        *r == first_present(*a, *b),
{
    match a {
        JsonField::Absent => b,
        _ => a,
    }
}

fn text_of(f: &JsonField) -> (r: Option<String>)
    ensures
        match r {
            Some(s) => field_text(*f) == Some(s@),
            None => field_text(*f) is None,
        },
{
    match f {
        JsonField::Text(s) => Some(s.clone()),
        _ => None,
    }
}

/// The file a notification names (see [`notified_name`]).
pub fn notification_file_name(n: &NotificationFields) -> (r: Option<String>)
    ensures
        match r {
            Some(s) => notified_name(*n) == Some(s@),
            None => notified_name(*n) is None,
        },
{
    let inner = pick_present(
        &n.data_filename,
        pick_present(&n.data_file_name_camel, &n.data_file_name_snake),
    );
    match text_of(inner) {
        Some(s) => Some(s),
        None => text_of(pick_present(&n.file_name_camel, &n.file_name_snake)),
    }
}

/// The name a notification announces, member by member: a string in the
/// first of `data.filename`, `data.fileName`, `data.file_name` that is
/// there; when none of these gives a string, a string in the first of
/// `fileName`, `file_name` that is there; otherwise none.
pub proof fn lemma_notified_name_members(n: NotificationFields)
    ensures
        n.data_filename matches JsonField::Text(s) ==> notified_name(n) == Some(s@),
        n.data_filename is Absent ==> (n.data_file_name_camel matches JsonField::Text(s)
            ==> notified_name(n) == Some(s@)),
        n.data_filename is Absent && n.data_file_name_camel is Absent ==> (
        n.data_file_name_snake matches JsonField::Text(s) ==> notified_name(n) == Some(s@)),
        ({
            let data_gives_none = n.data_filename is Other || (n.data_filename is Absent && (
            n.data_file_name_camel is Other || (n.data_file_name_camel is Absent
                && !(n.data_file_name_snake is Text))));
            &&& data_gives_none ==> (n.file_name_camel matches JsonField::Text(s) ==> notified_name(n)
                == Some(s@))
            &&& data_gives_none && n.file_name_camel is Absent ==> (n.file_name_snake matches JsonField::Text(s)
                ==> notified_name(n) == Some(s@))
            &&& data_gives_none && n.file_name_camel is Other ==> notified_name(n) is None
            &&& data_gives_none && n.file_name_camel is Absent && !(n.file_name_snake is Text)
                ==> notified_name(n) is None
        }),
{
}

/// What a notification reader sees of one field: absent (`None`), present
/// but not a string (`Some(None)`), or a string (`Some(Some(text))`).
pub open spec fn field_view(f: JsonField) -> Option<Option<Seq<char>>> {
    match f {
        JsonField::Absent => None,
        JsonField::Other => Some(None),
        JsonField::Text(s) => Some(Some(s@)),
    }
}

/// The six fields of a notification, in declaration order.
pub open spec fn fields_view(n: NotificationFields) -> Seq<Option<Option<Seq<char>>>> {
    seq![
        field_view(n.data_filename),
        field_view(n.data_file_name_camel),
        field_view(n.data_file_name_snake),
        field_view(n.file_name_camel),
        field_view(n.file_name_snake),
        field_view(n.data_url),
    ]
}

/// serde_json's reading of a notification payload: `None` when the text is
/// not JSON, else the members `data.filename`, `data.fileName`,
/// `data.file_name`, `fileName`, `file_name` and `data.url` (see
/// [`fields_view`]).
pub uninterp spec fn payload_fields(payload: Seq<char>) -> Option<Seq<Option<Option<Seq<char>>>>>;

/// Calls `serde_json::from_str::<serde_json::Value>` on the payload and
/// reads the six members with `Value::get`, a string member as `Text`. The
/// contract claims only that the outcome is serde_json's reading of the
/// payload text, a function of the text alone; which texts are JSON and
/// what they hold is left to serde_json.
#[verifier::external_body]
fn parse_payload_fields(payload: &str) -> (r: Option<NotificationFields>)
    ensures
        match r {
            Some(n) => payload_fields(payload@) == Some(fields_view(n)),
            None => payload_fields(payload@) is None,
        },
{
    let v: serde_json::Value = serde_json::from_str(payload).ok()?;
    let d = v.get("data");
    let g = |x: Option<&serde_json::Value>, k: &str| match x.and_then(|o| o.get(k)) {
        None => JsonField::Absent,
        Some(serde_json::Value::String(s)) => JsonField::Text(s.clone()),
        Some(_) => JsonField::Other,
    };
    Some(NotificationFields {
        data_filename: g(d, "filename"),
        data_file_name_camel: g(d, "fileName"),
        data_file_name_snake: g(d, "file_name"),
        file_name_camel: g(Some(&v), "fileName"),
        file_name_snake: g(Some(&v), "file_name"),
        data_url: g(d, "url"),
    })
}

/// The text of a field view, if it is a string.
pub open spec fn view_text(f: Option<Option<Seq<char>>>) -> Option<Seq<char>> {
    match f {
        Some(Some(s)) => Some(s),
        _ => None,
    }
}

/// The first of two field views that is present.
pub open spec fn first_present_view(a: Option<Option<Seq<char>>>, b: Option<Option<Seq<char>>>) -> Option<Option<Seq<char>>> {
    if a is None {
        b
    } else {
        a
    }
}

/// The file name that field views announce (see [`notified_name`]).
pub open spec fn name_in_fields(vs: Seq<Option<Option<Seq<char>>>>) -> Option<Seq<char>> {
    match view_text(first_present_view(vs[0], first_present_view(vs[1], vs[2]))) {
        Some(s) => Some(s),
        None => view_text(first_present_view(vs[3], vs[4])),
    }
}

/// The name that field views announce, view by view (see
/// [`lemma_notified_name_members`]): views 0 to 2 are `data.filename`,
/// `data.fileName`, `data.file_name`; views 3 and 4 are `fileName` and
/// `file_name`.
pub proof fn lemma_name_in_views(vs: Seq<Option<Option<Seq<char>>>>)
    ensures
        vs[0] matches Some(Some(s)) ==> name_in_fields(vs) == Some(s),
        vs[0] is None ==> (vs[1] matches Some(Some(s)) ==> name_in_fields(vs) == Some(s)),
        vs[0] is None && vs[1] is None ==> (vs[2] matches Some(Some(s)) ==> name_in_fields(vs) == Some(s)),
        ({
            let data_gives_none = vs[0] == Some(None::<Seq<char>>) || (vs[0] is None && (vs[1] == Some(
                None::<Seq<char>>,
            ) || (vs[1] is None && !(vs[2] matches Some(Some(_))))));
            &&& data_gives_none ==> (vs[3] matches Some(Some(s)) ==> name_in_fields(vs) == Some(s))
            &&& data_gives_none && vs[3] is None ==> (vs[4] matches Some(Some(s)) ==> name_in_fields(vs)
                == Some(s))
            &&& data_gives_none && vs[3] == Some(None::<Seq<char>>) ==> name_in_fields(vs) is None
            &&& data_gives_none && vs[3] is None && !(vs[4] matches Some(Some(_))) ==> name_in_fields(vs) is None
        }),
{
}

/// The name a notification announces is the name its field views announce.
proof fn lemma_name_in_fields(n: NotificationFields)
    ensures
        notified_name(n) == name_in_fields(fields_view(n)),
        field_text(n.data_url) == view_text(fields_view(n)[5]),
{
}

/// The notice for `feed` that a notification payload gives: none when the
/// payload is not JSON, else that of [`notice_for`] on its fields.
pub fn notice_for_payload(feed: Feed, payload: &str) -> (r: Option<FileNotice>)
    ensures
        match payload_fields(payload@) {
            None => r is None,
            Some(vs) => match name_in_fields(vs) {
                Some(name) => if has_suffix(name, feed_suffix(feed)) {
                    r matches Some(f) && f.file_name@ == name && match f.url {
                        Some(u) => view_text(vs[5]) == Some(u@),
                        None => view_text(vs[5]) is None,
                    }
                } else {
                    r is None
                },
                None => r is None,
            },
        },
{
    match parse_payload_fields(payload) {
        None => None,
        Some(n) => {
            proof {
                lemma_name_in_fields(n);
            }
            notice_for(feed, &n)
        },
    }
}

/// The dataset feeds the service listens to.
#[derive(Debug, Clone, Copy, PartialEq, Eq, Structural)]
pub enum Feed {
    /// Seamless precipitation ensemble forecasts (NetCDF).
    RadarEnsemble,
    /// Harmonie model runs (tar archives of GRIB files).
    Harmonie,
    /// Real-time corrected radar observations (HDF5).
    Rtcor,
}

/// The file name ending of the files of a feed.
pub open spec fn feed_suffix(f: Feed) -> Seq<char> {
    match f {
        Feed::RadarEnsemble => ".nc"@,
        Feed::Harmonie => ".tar"@,
        Feed::Rtcor => ".h5"@,
    }
}

/// A file to fetch, with the URL the notification gave for it.
pub struct FileNotice {
    pub file_name: String,
    pub url: Option<String>,
}

/// The file of a feed that a notification announces: the named file when its
/// name has the feed's ending, with `data.url` when that is a string.
pub fn notice_for(feed: Feed, n: &NotificationFields) -> (r: Option<FileNotice>)
    ensures
        match notified_name(*n) {
            Some(name) => if has_suffix(name, feed_suffix(feed)) {
                r matches Some(f) && f.file_name@ == name && match f.url {
                    Some(u) => field_text(n.data_url) == Some(u@),
                    None => field_text(n.data_url) is None,
                }
            } else {
                r is None
            },
            None => r is None,
        },
{
    let name = match notification_file_name(n) {
        Some(s) => s,
        None => return None,
    };
    let accepted = match feed {
        Feed::RadarEnsemble => str_ends_with(name.as_str(), ".nc"),
        Feed::Harmonie => str_ends_with(name.as_str(), ".tar"),
        Feed::Rtcor => str_ends_with(name.as_str(), ".h5"),
    };
    if !accepted {
        return None;
    }
    Some(FileNotice { file_name: name, url: text_of(&n.data_url) })
}

/// The base URL of the KNMI Open Data API.
pub open spec fn api_base() -> Seq<char> {
    "https://api.dataplatform.knmi.nl/"@
}

/// Whether a URL lies under the KNMI Open Data API.
pub fn is_trusted_api_url(u: &str) -> (r: bool)
    ensures
        r == has_prefix(u@, api_base()),
{
    str_starts_with(u, "https://api.dataplatform.knmi.nl/")
}

/// A download URL that a notification gave but that is not under the API.
pub struct UntrustedUrl {
    pub url: String,
}

/// The API endpoint that gives the temporary download URL of a file.
pub open spec fn file_url_endpoint(dataset: Seq<char>, file_name: Seq<char>) -> Seq<char> {
    "https://api.dataplatform.knmi.nl/open-data/v1/datasets/"@ + dataset + "/versions/1.0/files/"@
        + file_name + "/url"@
}

/// The URL to ask for the download URL of a file: the one the notification
/// gave, which must lie under the API, or else the dataset's endpoint for
/// the file.
pub fn download_url_request(dataset: &str, safe_file_name: &str, file_url: Option<&str>) -> (r:
    Result<String, UntrustedUrl>)
    ensures
        match file_url {
            Some(u) => if has_prefix(u@, api_base()) {
                r matches Ok(s) && s@ == u@
            } else {
                r matches Err(e) && e.url@ == u@
            },
            None => r matches Ok(s) && s@ == file_url_endpoint(dataset@, safe_file_name@),
        },
{
    match file_url {
        Some(u) => {
            if is_trusted_api_url(u) {
                Ok(String::from_str(u))
            } else {
                Err(UntrustedUrl { url: String::from_str(u) })
            }
        },
        None => {
            let mut s = String::from_str("https://api.dataplatform.knmi.nl/open-data/v1/datasets/");
            s.append(dataset);
            s.append("/versions/1.0/files/");
            s.append(safe_file_name);
            s.append("/url");
            Ok(s)
        },
    }
}

/// The final component of a file path, as `Path::file_name` gives it
/// (see [`path_file_name`]); used to keep downloads inside the cache
/// directory.
pub fn safe_file_name(filename: &str) -> (r: Option<String>)
    ensures
        match r {
            Some(s) => path_file_name(filename@) == Some(s@),
            None => path_file_name(filename@) is None,
        },
{
    let v = chars_of(filename);
    match file_name_range(&v) {
        Some((a, b)) => Some(String::from_str(filename.substring_char(a, b))),
        None => None,
    }
}

/// A file name that `safe_file_name` accepts names a file directly inside
/// the directory it is joined to: it is not empty, not `.` or `..`, and
/// holds no `/`.
pub proof fn lemma_safe_file_name_stays_in_directory(path: Seq<char>)
    requires
        path_file_name(path) is Some,
    ensures
        ({
            let name = path_file_name(path)->0;
            &&& name.len() > 0
            &&& name != seq!['.']
            &&& name != seq!['.', '.']
            &&& forall|j: int| 0 <= j < name.len() ==> name[j] != '/'
        }),
{
    let fs = split_fields(path, Separator::Char('/'));
    lemma_fields_exclude(path, '/');
    lemma_kept_parts(fs);
    let comps = keep_path_parts(fs);
    let name = comps.last();
    assert(comps[comps.len() - 1] == name);
    let m = choose|m: int| 0 <= m < fs.len() && fs[m] == name;
    assert forall|j: int| 0 <= j < name.len() implies name[j] != '/' by {
        assert(fs[m][j] != '/');
    }
}

/// Whether a cached NetCDF file belongs to an earlier ensemble forecast than
/// `current` and can be deleted.
pub fn is_superseded_nc_file(file_name: &str, current: &str) -> (r: bool)
    ensures
        r == (has_suffix(file_name@, ".nc"@) && file_name@ != current@ && has_prefix(
            file_name@,
            "KNMI_PYSTEPS_BLEND_ENS_"@,
        )),
{
    str_ends_with(file_name, ".nc") && !str_eq(file_name, current) && str_starts_with(
        file_name,
        "KNMI_PYSTEPS_BLEND_ENS_",
    )
}

/// Whether a file in the cache directory is a leftover Harmonie archive: a
/// `.tar` file whose stem starts with `HARM43_` or is one of the temporary
/// download names.
pub fn is_leftover_tar(file_name: &str) -> (r: bool)
    ensures
        r == (has_suffix(file_name@, ".tar"@) && ({
            let stem = file_name@.take(file_name@.len() - 4);
            has_prefix(stem, "HARM43_"@) || stem == "temp_harmonie"@ || stem
                == "temp_harmonie_wind"@ || stem == "temp_harmonie_combined"@
        })),
{
    proof {
        reveal_strlit(".tar");
    }
    if !str_ends_with(file_name, ".tar") {
        return false;
    }
    let n = file_name.unicode_len();
    let stem = file_name.substring_char(0, n - 4);
    assert(stem@ =~= file_name@.take(file_name@.len() - 4));
    str_starts_with(stem, "HARM43_") || str_eq(stem, "temp_harmonie") || str_eq(
        stem,
        "temp_harmonie_wind",
    ) || str_eq(stem, "temp_harmonie_combined")
}

/// How long observation files are kept, in seconds.
pub const RTCOR_FILE_RETENTION_SECS: i64 = 14400;

/// Whether a cached observation file is older than the retention period at
/// time `now`.
pub fn is_expired_rtcor_file(file_name: &str, now: i64) -> (r: bool)
    requires
        now >= i64::MIN + RTCOR_FILE_RETENTION_SECS,
    ensures
        r == (has_suffix(file_name@, ".h5"@) && match rtcor_timestamp_spec(file_name@) {
            Some(ts) => ts < now - RTCOR_FILE_RETENTION_SECS,
            None => false,
        }),
{
    if !str_ends_with(file_name, ".h5") {
        return false;
    }
    let cutoff = now - RTCOR_FILE_RETENTION_SECS;
    match parse_rtcor_filename_timestamp(file_name) {
        Some(ts) => ts < cutoff,
        None => false,
    }
}

/// The reference time of the cached forecast runs: the earliest of the four.
pub fn cached_reference_time(temp: i64, wind: i64, solar: i64, rain: i64) -> (r: i64)
    ensures
        r <= temp && r <= wind && r <= solar && r <= rain,
        r == temp || r == wind || r == solar || r == rain,
{
    let mut m = temp;
    if wind < m {
        m = wind;
    }
    if solar < m {
        m = solar;
    }
    if rain < m {
        m = rain;
    }
    m
}

/// Whether the latest run listed by the API (by its archive name) is newer
/// than the cached runs.
pub fn newer_run_available(cached_reference: i64, latest_file_name: &str) -> (r: bool)
    ensures
        r == match tar_run_time_spec(latest_file_name@) {
            Some(t) => t > cached_reference,
            None => false,
        },
{
    match parse_tar_run_time(latest_file_name) {
        Some(t) => t > cached_reference,
        None => false,
    }
}

} // verus!
