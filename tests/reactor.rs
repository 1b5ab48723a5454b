use mqtt_async::readiness::{collect, route, Route, READABLE, WRITABLE};

#[test]
fn events_merge_per_descriptor_in_ascending_order() {
    let events = [(7, READABLE), (3, WRITABLE), (7, WRITABLE), (9, READABLE)];
    let r = collect(&events, 9, &[3, 12]);
    assert_eq!(r.entries(), vec![(3, 5), (7, 5), (12, 5)]);
}

#[test]
fn wake_event_without_wakes_adds_nothing() {
    let r = collect(&[(9, READABLE), (4, READABLE)], 9, &[]);
    assert_eq!(r.entries(), vec![(4, 1)]);
}

#[test]
fn routes_follow_flags() {
    assert_eq!(route(3, READABLE, 3, false), Route::Accept);
    assert_eq!(route(5, READABLE | WRITABLE, 3, true), Route::Read);
    assert_eq!(route(5, WRITABLE, 3, true), Route::Write);
    assert_eq!(route(5, 0x008, 3, true), Route::Stale);
    assert_eq!(route(6, READABLE, 3, false), Route::Stale);
}
