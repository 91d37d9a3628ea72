use c0mpute::supervisor::update_interval_secs;

#[test]
fn update_interval_has_a_one_minute_floor() {
    assert_eq!(update_interval_secs(0), 60);
    assert_eq!(update_interval_secs(59), 60);
    assert_eq!(update_interval_secs(60), 60);
    assert_eq!(update_interval_secs(3600), 3600);
}
