use mytube::clock::{civil_from_days, format_unix, now_iso};

#[test]
fn epoch_and_known_days() {
    assert_eq!(civil_from_days(0), (1970, 1, 1));
    assert_eq!(civil_from_days(-1), (1969, 12, 31));
    assert_eq!(civil_from_days(11016), (2000, 2, 29));
    assert_eq!(civil_from_days(19737), (2024, 1, 15));
}

#[test]
fn timestamps_are_iso_utc() {
    assert_eq!(format_unix(0), "1970-01-01T00:00:00Z");
    assert_eq!(format_unix(1705314645), "2024-01-15T10:30:45Z");
    assert_eq!(format_unix(951782400), "2000-02-29T00:00:00Z");
}

#[test]
fn now_has_the_timestamp_shape() {
    let t = now_iso();
    assert_eq!(t.len(), 20);
    assert!(t.ends_with('Z'));
    assert_eq!(&t[4..5], "-");
    assert_eq!(&t[10..11], "T");
}

#[test]
fn later_instants_give_later_texts() {
    let samples = [0u64, 59, 60, 3599, 86399, 86400, 951782399, 951782400, 1705314645, 253402300799];
    for w in samples.windows(2) {
        assert!(format_unix(w[0]) < format_unix(w[1]), "{} {}", w[0], w[1]);
    }
    assert_eq!(format_unix(253402300799), "9999-12-31T23:59:59Z");
}
