use cb_registry::body::{BodyStore, RecordingBody};
use cb_registry::event::{State, TableState, C, V};
use cb_registry::registry::{Manager, RegRequest, RegResponse, CB};

fn count_of(store: &BodyStore<RecordingBody>, r: cb_registry::body::BodyRef) -> u64 {
    store.body(r).expect("body should be live").count
}

fn last_of(store: &BodyStore<RecordingBody>, r: cb_registry::body::BodyRef) -> Option<V> {
    store.body(r).expect("body should be live").last
}

#[test]
fn occupied_iff_bucket_nonempty_across_ops() {
    let mut store: BodyStore<RecordingBody> = BodyStore::new();
    let mut m = Manager::new();
    let c = C(1);
    assert!(!m.occupied_contains(c));
    assert_eq!(m.bucket_len(c), 0);

    let r1 = store.insert(RecordingBody::new());
    let h1 = m.register(CB::new(c, r1));
    assert!(m.occupied_contains(c));
    assert_eq!(m.bucket_len(c), 1);

    let r2 = store.insert(RecordingBody::new());
    let h2 = m.register(CB::new(c, r2));
    assert!(m.occupied_contains(c));
    assert_eq!(m.bucket_len(c), 2);

    m.unregister(h1);
    assert!(m.occupied_contains(c));
    assert_eq!(m.bucket_len(c), 1);

    m.unregister(h2);
    assert!(!m.occupied_contains(c));
    assert_eq!(m.bucket_len(c), 0);
    assert_eq!(m.occupied_count(), 0);
}

#[test]
fn register_multiple_categories_occupied() {
    let mut store: BodyStore<RecordingBody> = BodyStore::new();
    let mut m = Manager::new();
    let r1 = store.insert(RecordingBody::new());
    let r2 = store.insert(RecordingBody::new());
    m.register(CB::new(C(1), r1));
    m.register(CB::new(C(2), r2));
    assert!(m.occupied_contains(C(1)));
    assert!(m.occupied_contains(C(2)));
    assert!(!m.occupied_contains(C(3)));
    assert_eq!(m.occupied_count(), 2);
}

#[test]
fn poll_dispatch_invokes_all_same_category_once() {
    let mut store: BodyStore<RecordingBody> = BodyStore::new();
    let mut m = Manager::new();
    let c = C(7);
    let refs: Vec<_> = (0..3).map(|_| store.insert(RecordingBody::new())).collect();
    for r in &refs {
        m.register(CB::new(c, *r));
    }
    let mut state = TableState::new();
    let v = V::Occurred(c, 42);
    state.set(c, v);

    m.fire_and_clean_all(&mut store, &state);
    for r in &refs {
        assert_eq!(count_of(&store, *r), 1);
        assert_eq!(last_of(&store, *r), Some(v));
    }
    assert_eq!(m.bucket_len(c), 3);
}

#[test]
fn dead_subscription_pruned_on_next_dispatch() {
    let mut store: BodyStore<RecordingBody> = BodyStore::new();
    let mut m = Manager::new();
    let c = C(3);
    let dead_ref = store.insert(RecordingBody::new());
    let live_ref = store.insert(RecordingBody::new());
    m.register(CB::new(c, dead_ref));
    m.register(CB::new(c, live_ref));

    // the subscriber destroys its callback body before the next dispatch
    store.release(dead_ref);
    assert!(store.is_dead(dead_ref));
    assert_eq!(m.bucket_len(c), 2);

    let state = TableState::new();
    m.fire_and_clean_all(&mut store, &state);
    // silently removed from the bucket after the dispatch pass
    assert_eq!(m.bucket_len(c), 1);
    assert!(m.occupied_contains(c));
    assert_eq!(count_of(&store, live_ref), 1);

    // a second dispatch only reaches the remaining live subscription
    m.fire_and_clean_all(&mut store, &state);
    assert_eq!(m.bucket_len(c), 1);
    assert_eq!(count_of(&store, live_ref), 2);
}

#[test]
fn bucket_emptied_by_pruning_drops_category() {
    let mut store: BodyStore<RecordingBody> = BodyStore::new();
    let mut m = Manager::new();
    let c = C(4);
    let r = store.insert(RecordingBody::new());
    m.register(CB::new(c, r));
    store.release(r);

    let state = TableState::new();
    m.fire_and_clean_all(&mut store, &state);
    assert_eq!(m.bucket_len(c), 0);
    assert!(!m.occupied_contains(c));
}

#[test]
fn push_dispatch_skips_ignored_and_fires_matching_once() {
    let mut store: BodyStore<RecordingBody> = BodyStore::new();
    let mut m = Manager::new();
    let hit = C(1);
    let other = C(2);
    let hit_ref = store.insert(RecordingBody::new());
    let other_ref = store.insert(RecordingBody::new());
    m.register(CB::new(hit, hit_ref));
    m.register(CB::new(other, other_ref));

    let state = TableState::new();
    let v = V::Occurred(hit, 99);
    let mut batch = vec![V::Ignored, v];
    m.fire_and_clean_listing(&mut store, &state, &mut batch);

    assert!(batch.is_empty());
    assert_eq!(count_of(&store, hit_ref), 1);
    assert_eq!(last_of(&store, hit_ref), Some(v));
    assert_eq!(count_of(&store, other_ref), 0);
}

#[test]
fn push_dispatch_delivers_each_matching_event_in_batch() {
    let mut store: BodyStore<RecordingBody> = BodyStore::new();
    let mut m = Manager::new();
    let c = C(5);
    let r = store.insert(RecordingBody::new());
    m.register(CB::new(c, r));

    let state = TableState::new();
    let v1 = V::Occurred(c, 1);
    let v2 = V::Occurred(c, 2);
    let mut batch = vec![v1, V::Ignored, v2];
    m.fire_and_clean_listing(&mut store, &state, &mut batch);

    assert_eq!(count_of(&store, r), 2);
    assert_eq!(last_of(&store, r), Some(v2));
}

#[test]
fn unregister_pruned_handle_is_noop() {
    let mut store: BodyStore<RecordingBody> = BodyStore::new();
    let mut m = Manager::new();
    let c = C(6);
    let doomed = store.insert(RecordingBody::new());
    let kept = store.insert(RecordingBody::new());
    let doomed_handle = m.register(CB::new(c, doomed));
    m.register(CB::new(c, kept));

    store.release(doomed);
    let state = TableState::new();
    m.fire_and_clean_all(&mut store, &state);
    assert_eq!(m.bucket_len(c), 1);

    // the handle's entry was pruned by the dispatch pass: a no-op
    m.unregister(doomed_handle);
    assert_eq!(m.bucket_len(c), 1);
    assert!(m.occupied_contains(c));

    // and unregistering twice through the same handle is just as silent
    m.unregister(doomed_handle);
    assert_eq!(m.bucket_len(c), 1);
}

#[test]
fn equal_category_subscriptions_independent() {
    let mut store: BodyStore<RecordingBody> = BodyStore::new();
    let mut m = Manager::new();
    let c = C(8);
    let r1 = store.insert(RecordingBody::new());
    let r2 = store.insert(RecordingBody::new());
    let h1 = m.register(CB::new(c, r1));
    let _h2 = m.register(CB::new(c, r2));

    m.unregister(h1);
    assert_eq!(m.bucket_len(c), 1);
    assert!(m.occupied_contains(c));

    let mut state = TableState::new();
    let v = V::Occurred(c, 11);
    state.set(c, v);
    m.fire_and_clean_all(&mut store, &state);
    // the structurally identical sibling is still invoked
    assert_eq!(count_of(&store, r2), 1);
    assert_eq!(last_of(&store, r2), Some(v));
    assert_eq!(count_of(&store, r1), 0);
}

#[test]
fn resize_scenario_poll_dispatch_then_drop() {
    let resize = C(1);
    let mut store: BodyStore<RecordingBody> = BodyStore::new();
    let mut m = Manager::new();
    let a = store.insert(RecordingBody::new());
    m.register(CB::new(resize, a));

    let mut state = TableState::new();
    let v1 = V::Occurred(resize, 640);
    state.set(resize, v1);

    m.fire_and_clean_all(&mut store, &state);
    assert_eq!(count_of(&store, a), 1);
    assert_eq!(last_of(&store, a), Some(v1));

    // the subscriber drops A's callback body
    store.release(a);
    m.fire_and_clean_all(&mut store, &state);
    assert!(store.body(a).is_none());
    assert_eq!(m.bucket_len(resize), 0);
    assert!(!m.occupied_contains(resize));
}

#[test]
fn poisoned_body_is_silently_skipped_and_kept() {
    let mut store: BodyStore<RecordingBody> = BodyStore::new();
    let mut m = Manager::new();
    let c = C(2);
    let r = store.insert(RecordingBody::new());
    m.register(CB::new(c, r));
    store.poison(r);
    assert!(!store.is_live(r));
    assert!(!store.is_dead(r));

    let state = TableState::new();
    m.fire_and_clean_all(&mut store, &state);
    // never escalated, never removed: retried on the next dispatch
    assert_eq!(m.bucket_len(c), 1);
    assert!(m.occupied_contains(c));
}

#[test]
fn call_reports_dead_only_for_released_body() {
    let mut store: BodyStore<RecordingBody> = BodyStore::new();
    let r = store.insert(RecordingBody::new());
    let cb = CB::new(C(1), r);
    let state = TableState::new();
    let v = V::Occurred(C(1), 5);

    assert_eq!(cb.call(&mut store, &state, &v), Ok(()));
    assert_eq!(count_of(&store, r), 1);
    assert_eq!(last_of(&store, r), Some(v));

    store.poison(r);
    // poisoned: a successful no-op, not a dead report
    assert_eq!(cb.call(&mut store, &state, &v), Ok(()));

    store.release(r);
    assert_eq!(cb.call(&mut store, &state, &v), Err(()));
}

#[test]
fn release_is_idempotent() {
    let mut store: BodyStore<RecordingBody> = BodyStore::new();
    let r = store.insert(RecordingBody::new());
    assert!(store.is_live(r));
    store.release(r);
    assert!(store.is_dead(r));
    store.release(r);
    assert!(store.is_dead(r));
    assert!(store.body(r).is_none());
}

#[test]
fn poll_delivers_ignored_when_state_has_no_value() {
    // poll-mode dispatch fires whatever the state provider returns for an
    // occupied category, the reserved ignored value included
    let mut store: BodyStore<RecordingBody> = BodyStore::new();
    let mut m = Manager::new();
    let c = C(9);
    let r = store.insert(RecordingBody::new());
    m.register(CB::new(c, r));
    let state = TableState::new();
    m.fire_and_clean_all(&mut store, &state);
    assert_eq!(count_of(&store, r), 1);
    assert_eq!(last_of(&store, r), Some(V::Ignored));
}

#[test]
fn table_state_last_set_wins() {
    let mut state = TableState::new();
    let c = C(1);
    assert_eq!(state.get(&c), V::Ignored);
    state.set(c, V::Occurred(c, 1));
    assert_eq!(state.get(&c), V::Occurred(c, 1));
    state.set(c, V::Occurred(c, 2));
    assert_eq!(state.get(&c), V::Occurred(c, 2));
    assert_eq!(state.get(&C(2)), V::Ignored);
}

#[test]
fn handle_req_register_returns_handles_in_order() {
    let mut store: BodyStore<RecordingBody> = BodyStore::new();
    let mut m = Manager::new();
    let c = C(3);
    let r1 = store.insert(RecordingBody::new());
    let r2 = store.insert(RecordingBody::new());
    // the outer category only tags the transport; each subscription's own
    // category governs its placement
    let resp = m.handle_req(RegRequest::Register(c, vec![CB::new(C(3), r1), CB::new(C(4), r2)]));
    match resp {
        RegResponse::Register(rc, hs) => {
            assert_eq!(rc, C(3));
            assert_eq!(hs.len(), 2);
            assert_eq!(m.bucket_len(C(3)), 1);
            assert_eq!(m.bucket_len(C(4)), 1);

            let resp2 = m.handle_req(RegRequest::Unregister(hs));
            assert!(matches!(resp2, RegResponse::Unregister));
            assert_eq!(m.bucket_len(C(3)), 0);
            assert_eq!(m.bucket_len(C(4)), 0);
            assert!(!m.occupied_contains(C(3)));
            assert!(!m.occupied_contains(C(4)));
        },
        RegResponse::Unregister => panic!("wrong response variant"),
    }
}

#[test]
fn handle_req_unregister_skips_stale_handles() {
    let mut store: BodyStore<RecordingBody> = BodyStore::new();
    let mut m = Manager::new();
    let c = C(5);
    let r1 = store.insert(RecordingBody::new());
    let r2 = store.insert(RecordingBody::new());
    let h1 = m.register(CB::new(c, r1));
    let h2 = m.register(CB::new(c, r2));
    m.unregister(h1);
    // one stale and one live handle: the stale one is silently skipped
    let resp = m.handle_req(RegRequest::Unregister(vec![h1, h2]));
    assert!(matches!(resp, RegResponse::Unregister));
    assert_eq!(m.bucket_len(c), 0);
    assert!(!m.occupied_contains(c));
}
