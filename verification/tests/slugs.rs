use mytube::slug::channel_slug;

#[test]
fn veritasium_is_stable() {
    assert_eq!(channel_slug("Veritasium"), "veritasium");
    assert_eq!(channel_slug("Veritasium"), channel_slug("veritasium"));
}

#[test]
fn punctuation_becomes_single_hyphen() {
    assert_eq!(channel_slug("  Hello, World!!  "), "hello-world");
}

#[test]
fn empty_after_strip_uses_hash_prefix() {
    let s = channel_slug("---");
    assert!(s.starts_with("channel-"), "{s}");
    assert_eq!(s, channel_slug("---"));
}

#[test]
fn unicode_letters_are_kept_lowercased() {
    assert_eq!(channel_slug("Ärzte Über"), "ärzte-über");
    assert_eq!(channel_slug("3Blue1Brown"), "3blue1brown");
}

#[test]
fn hash_slug_uses_first_four_digest_bytes() {
    // SHA-256 of "---" starts with cb3f91d5.
    assert_eq!(channel_slug("---"), "channel-cb3f91d5");
    assert_eq!(channel_slug(""), "channel-e3b0c442");
}

#[test]
fn slug_of_a_slug_is_the_same_slug() {
    for name in ["  Linus Tech Tips!! ", "Ünïcödé -- Ção", "!!!", "", "a--b__c"] {
        let once = channel_slug(name);
        assert_eq!(channel_slug(&once), once);
    }
}
