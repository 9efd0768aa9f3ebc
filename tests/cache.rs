use csv_partition::cache::{
    check_download, classify_cache, contains_denied_marker, CacheProbe, CacheState, DownloadError,
    STALE_AFTER_SECS,
};

const MARKER: &str = "<TITLE>Access Denied</TITLE>";

fn probe(head: &[u8], age_secs: Option<u64>) -> Option<CacheProbe> {
    Some(CacheProbe { len: head.len() as u64, head: head.to_vec(), age_secs })
}

#[test]
fn missing_file_is_fetched() {
    let s = classify_cache(&None);
    assert_eq!(s, CacheState::Missing);
    assert!(s.must_fetch());
    assert!(!s.must_delete());
}

#[test]
fn empty_file_is_deleted_and_fetched() {
    let s = classify_cache(&probe(b"", Some(10)));
    assert_eq!(s, CacheState::Empty);
    assert!(s.must_delete());
    assert!(s.must_fetch());
}

#[test]
fn denied_page_is_deleted_and_fetched_even_with_valid_csv_after_it() {
    let mut head = format!("<HTML><HEAD>{}</HEAD></HTML>\n", MARKER).into_bytes();
    head.extend_from_slice(b"id,name,disaster\n1,A,100\n");
    let s = classify_cache(&probe(&head, Some(10)));
    assert_eq!(s, CacheState::AccessDenied);
    assert!(s.must_delete());
    assert!(s.must_fetch());
}

#[test]
fn marker_past_first_kilobyte_is_not_seen() {
    let mut head = vec![b'x'; 1024];
    head.extend_from_slice(MARKER.as_bytes());
    assert_eq!(classify_cache(&probe(&head, Some(10))), CacheState::Fresh);
    let mut head = vec![b'x'; 1024 - MARKER.len()];
    head.extend_from_slice(MARKER.as_bytes());
    assert_eq!(classify_cache(&probe(&head, Some(10))), CacheState::AccessDenied);
    let mut head = vec![b'x'; 1025 - MARKER.len()];
    head.extend_from_slice(MARKER.as_bytes());
    assert_eq!(classify_cache(&probe(&head, Some(10))), CacheState::Fresh);
}

#[test]
fn old_file_is_fetched_without_deleting() {
    let s = classify_cache(&probe(b"id\n1\n", Some(8 * 24 * 60 * 60)));
    assert_eq!(s, CacheState::Stale);
    assert!(s.must_fetch());
    assert!(!s.must_delete());
}

#[test]
fn unknown_age_counts_as_stale() {
    assert_eq!(classify_cache(&probe(b"id\n1\n", None)), CacheState::Stale);
}

#[test]
fn staleness_threshold_is_seven_days() {
    assert_eq!(STALE_AFTER_SECS, 7 * 24 * 60 * 60);
    assert_eq!(classify_cache(&probe(b"id\n", Some(STALE_AFTER_SECS))), CacheState::Fresh);
    assert_eq!(classify_cache(&probe(b"id\n", Some(STALE_AFTER_SECS + 1))), CacheState::Stale);
}

#[test]
fn fresh_sound_file_is_reused() {
    let s = classify_cache(&probe(b"id,name\n1,A\n", Some(0)));
    assert_eq!(s, CacheState::Fresh);
    assert!(!s.must_fetch());
    assert!(!s.must_delete());
}

#[test]
fn marker_search() {
    assert!(contains_denied_marker(MARKER.as_bytes()));
    assert!(contains_denied_marker(format!("ab{}cd", MARKER).as_bytes()));
    assert!(!contains_denied_marker(b"<TITLE>Access Denied</TITLE"));
    assert!(!contains_denied_marker(b"<title>access denied</title>"));
    assert!(!contains_denied_marker(b""));
}

#[test]
fn download_with_marker_anywhere_is_refused() {
    let mut content = vec![b'x'; 5000];
    content.extend_from_slice(MARKER.as_bytes());
    assert_eq!(check_download(&content), Err(DownloadError::AccessDenied));
    assert_eq!(check_download(b"id,name\n1,A\n"), Ok(()));
}
