use weer::knmi::{
    cached_reference_time, download_url_request, is_expired_rtcor_file, is_leftover_tar,
    is_superseded_nc_file, is_trusted_api_url, newer_run_available, notice_for, notice_for_payload,
    notification_file_name, safe_file_name, Feed, JsonField, NotificationFields,
};

fn fields(data_filename: JsonField, top: JsonField, url: JsonField) -> NotificationFields {
    NotificationFields {
        data_filename,
        data_file_name_camel: JsonField::Absent,
        data_file_name_snake: JsonField::Absent,
        file_name_camel: top,
        file_name_snake: JsonField::Absent,
        data_url: url,
    }
}

#[test]
fn notification_name_precedence() {
    let n = fields(
        JsonField::Text("a.nc".to_string()),
        JsonField::Text("b.nc".to_string()),
        JsonField::Absent,
    );
    assert_eq!(notification_file_name(&n), Some("a.nc".to_string()));
    let n = fields(JsonField::Other, JsonField::Text("b.nc".to_string()), JsonField::Absent);
    assert_eq!(notification_file_name(&n), Some("b.nc".to_string()));
    let n = NotificationFields {
        data_filename: JsonField::Absent,
        data_file_name_camel: JsonField::Other,
        data_file_name_snake: JsonField::Text("c.nc".to_string()),
        file_name_camel: JsonField::Absent,
        file_name_snake: JsonField::Text("d.nc".to_string()),
        data_url: JsonField::Absent,
    };
    assert_eq!(notification_file_name(&n), Some("d.nc".to_string()));
    let n = fields(JsonField::Absent, JsonField::Other, JsonField::Absent);
    assert_eq!(notification_file_name(&n), None);
}

#[test]
fn notices_follow_the_feed_suffix() {
    let n = fields(
        JsonField::Text("KNMI_PYSTEPS_BLEND_ENS_202311142200.nc".to_string()),
        JsonField::Absent,
        JsonField::Text("https://api.dataplatform.knmi.nl/x".to_string()),
    );
    let notice = notice_for(Feed::RadarEnsemble, &n).expect("radar file");
    assert_eq!(notice.file_name, "KNMI_PYSTEPS_BLEND_ENS_202311142200.nc");
    assert_eq!(notice.url, Some("https://api.dataplatform.knmi.nl/x".to_string()));
    assert!(notice_for(Feed::Harmonie, &n).is_none());
    assert!(notice_for(Feed::Rtcor, &n).is_none());
    let t = fields(JsonField::Text("HARM43_V1_P1_2023111422.tar".to_string()), JsonField::Absent, JsonField::Other);
    let notice = notice_for(Feed::Harmonie, &t).expect("tar file");
    assert_eq!(notice.url, None);
}

#[test]
fn download_urls() {
    assert!(is_trusted_api_url("https://api.dataplatform.knmi.nl/open-data/v1"));
    assert!(!is_trusted_api_url("https://evil.example/https://api.dataplatform.knmi.nl/"));
    assert_eq!(
        download_url_request("ds", "f.nc", None).ok(),
        Some("https://api.dataplatform.knmi.nl/open-data/v1/datasets/ds/versions/1.0/files/f.nc/url".to_string())
    );
    assert_eq!(
        download_url_request("ds", "f.nc", Some("https://api.dataplatform.knmi.nl/u")).ok(),
        Some("https://api.dataplatform.knmi.nl/u".to_string())
    );
    let err = download_url_request("ds", "f.nc", Some("http://api.dataplatform.knmi.nl/u")).err();
    assert_eq!(err.map(|e| e.url), Some("http://api.dataplatform.knmi.nl/u".to_string()));
}

#[test]
fn safe_file_names() {
    assert_eq!(safe_file_name("../../etc/passwd"), Some("passwd".to_string()));
    assert_eq!(safe_file_name("dir/file.h5/."), Some("file.h5".to_string()));
    assert_eq!(safe_file_name("a/.."), None);
    assert_eq!(safe_file_name("/"), None);
    assert_eq!(safe_file_name(""), None);
    assert_eq!(safe_file_name("x.nc"), Some("x.nc".to_string()));
}

#[test]
fn cache_file_decisions() {
    assert!(is_superseded_nc_file("KNMI_PYSTEPS_BLEND_ENS_1.nc", "KNMI_PYSTEPS_BLEND_ENS_2.nc"));
    assert!(!is_superseded_nc_file("KNMI_PYSTEPS_BLEND_ENS_2.nc", "KNMI_PYSTEPS_BLEND_ENS_2.nc"));
    assert!(!is_superseded_nc_file("other.nc", "KNMI_PYSTEPS_BLEND_ENS_2.nc"));
    assert!(is_leftover_tar("HARM43_stale_archive.tar"));
    assert!(is_leftover_tar("temp_harmonie_combined.tar"));
    assert!(!is_leftover_tar("temp_harmonie_other.tar"));
    assert!(!is_leftover_tar("HARM43_x.bin"));
    let now = 1700000000 + 4 * 3600 + 1;
    assert!(is_expired_rtcor_file("RAD_NL25_RAC_RT_202311142213.h5", now + 60));
    assert!(!is_expired_rtcor_file("RAD_NL25_RAC_RT_202311142215.h5", now));
    assert!(!is_expired_rtcor_file("RAD_NL25_RAC_RT_bad.h5", now));
}

#[test]
fn newer_runs() {
    assert_eq!(cached_reference_time(5, 3, 9, 4), 3);
    assert!(newer_run_available(1699999200 - 3600, "HARM43_V1_P1_2023111422.tar"));
    assert!(!newer_run_available(1699999200, "HARM43_V1_P1_2023111422.tar"));
    assert!(!newer_run_available(0, "latest.tar"));
}

// Which cached files the startup cleanup removes is decided by
// `is_leftover_tar`; the directory walk itself belongs to the service.

#[test]
fn test_t2_f05_preserves_non_tar_files_in_cache() {
    assert!(!is_leftover_tar("keep_me.txt"));
}

#[test]
fn test_f05_03_tar_cleanup_stale_files() {
    assert!(is_leftover_tar("HARM43_stale_archive.tar"));
}

#[test]
fn payload_notices() {
    let p = r#"{"data": {"filename": "KNMI_PYSTEPS_BLEND_ENS_1.nc", "url": "https://api.dataplatform.knmi.nl/x"}}"#;
    let n = notice_for_payload(Feed::RadarEnsemble, p).expect("radar file");
    assert_eq!(n.file_name, "KNMI_PYSTEPS_BLEND_ENS_1.nc");
    assert_eq!(n.url.as_deref(), Some("https://api.dataplatform.knmi.nl/x"));
    assert!(notice_for_payload(Feed::Harmonie, p).is_none());
    // Top-level names are read when the data object names no file.
    let top = r#"{"data": {"url": 5}, "fileName": "HARM43_V1_P1_2024010100.tar"}"#;
    let t = notice_for_payload(Feed::Harmonie, top).expect("tar file");
    assert_eq!(t.file_name, "HARM43_V1_P1_2024010100.tar");
    assert!(t.url.is_none());
    // A non-string filename in data hides the other data names.
    let other = r#"{"data": {"filename": 3, "file_name": "x.h5"}, "file_name": "y.h5"}"#;
    assert_eq!(notice_for_payload(Feed::Rtcor, other).unwrap().file_name, "y.h5");
    assert!(notice_for_payload(Feed::Rtcor, "not json").is_none());
    assert!(notice_for_payload(Feed::Rtcor, "{}").is_none());
}
