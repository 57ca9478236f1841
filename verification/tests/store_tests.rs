use telemetry_fusion::record::TelemetryRecord;
use telemetry_fusion::store::{
    handle_datagram, is_stale, now_ms, FusionConfig, FusionStore, StoreSnapshot,
};

fn rec(id: u32, x_milli: i64, y_milli: i64, ts_ms: u128) -> TelemetryRecord {
    TelemetryRecord {
        id,
        x: x_milli,
        y: y_milli,
        z: 10_000,
        battery: 100_000,
        status: b"OK".to_vec(),
        ts_ms,
    }
}

fn count_entries(snap: &StoreSnapshot, id: u32) -> usize {
    snap.entities.iter().filter(|e| e.id == id).count()
}

#[test]
fn scenario_two_updates_smooth_one_quarter() {
    // alpha = 0.25: raw x goes 0 then 10, smoothed x ends at 2.5.
    let mut st = FusionStore::new(FusionConfig::reference());
    let mut r1 = rec(1, 0, 0, 1000);
    r1.battery = 100_000;
    st.update(&r1, 1);
    let mut r2 = rec(1, 10_000, 0, 1200);
    r2.battery = 99_000;
    st.update(&r2, 2);
    let snap = st.snapshot();
    assert_eq!(snap.entities.len(), 1);
    let e = &snap.entities[0];
    assert_eq!(e.id, 1);
    assert_eq!(e.state.x, 10_000);
    assert_eq!(e.state.smoothed_x, 2_500);
    assert_eq!(e.state.smoothed_y, 0);
    assert_eq!(e.state.battery, 99_000);
    assert_eq!(e.state.ts_ms, 1200);
    assert_eq!(snap.total_packets, 2);
    assert_eq!(snap.last_packet_ms, Some(2));
}

#[test]
fn scenario_seven_hundred_records_trail_caps_at_six_hundred() {
    // One record per millisecond; the trail keeps the newest 600 points,
    // so the oldest retained point belongs to the 101st record sent.
    let mut st = FusionStore::new(FusionConfig::reference());
    let base: u64 = 1_000;
    for k in 0..700u64 {
        st.update(&rec(2, k as i64, 0, k as u128), base + k);
    }
    let snap = st.snapshot();
    let e = &snap.entities[0];
    assert_eq!(e.state.trail.len(), 600);
    assert_eq!(e.state.trail[0].at_ms, base + 100);
    assert_eq!(e.state.trail[599].at_ms, base + 699);
    assert_eq!(snap.total_packets, 700);
}

#[test]
fn scenario_interleaved_ids_make_two_entities() {
    let mut st = FusionStore::new(FusionConfig::reference());
    let mut now: u64 = 10;
    for k in 0..50u64 {
        st.update(&rec(1, k as i64, 0, k as u128), now);
        now += 1;
        st.update(&rec(2, -(k as i64), 0, k as u128), now);
        now += 1;
    }
    let snap = st.snapshot();
    assert_eq!(snap.entities.len(), 2);
    assert_eq!(snap.total_packets, 100);
    assert_eq!(count_entries(&snap, 1), 1);
    assert_eq!(count_entries(&snap, 2), 1);
}

#[test]
fn scenario_malformed_datagram_leaves_store_unchanged() {
    let mut st = FusionStore::new(FusionConfig::reference());
    let good = b"{\"id\":1,\"x\":0,\"y\":0,\"z\":10,\"battery\":100,\"status\":\"OK\",\"ts_ms\":1000}";
    assert!(handle_datagram(&mut st, good, 5));
    let before = st.snapshot();
    assert!(!handle_datagram(&mut st, b"!! arbitrary non-conforming text {{", 6));
    let after = st.snapshot();
    assert_eq!(after.entities.len(), 1);
    assert_eq!(after.total_packets, 1);
    assert_eq!(after.last_packet_ms, before.last_packet_ms);
    assert_eq!(after.entities[0].state.x, before.entities[0].state.x);
    assert_eq!(after.entities[0].state.trail.len(), before.entities[0].state.trail.len());
}

#[test]
fn creation_is_idempotent_on_identity() {
    // Any number of records for one id leaves exactly one entity.
    let mut st = FusionStore::new(FusionConfig::reference());
    for k in 0..10u64 {
        st.update(&rec(42, (k * 1000) as i64, 0, k as u128), k + 1);
    }
    let snap = st.snapshot();
    assert_eq!(snap.entities.len(), 1);
    assert_eq!(count_entries(&snap, 42), 1);
    assert_eq!(st.entity_count(42), 1);
    assert_eq!(st.entity_count(7), 0);
}

#[test]
fn smoothing_converges_monotonically_without_overshoot() {
    // Feeding a constant raw value moves the smoothed value toward it,
    // never past it, with the distance never growing.
    let mut st = FusionStore::new(FusionConfig::reference());
    st.update(&rec(1, 0, 0, 0), 1);
    let target: i64 = 16_000;
    let mut prev: i64 = 0;
    for k in 0..60u64 {
        st.update(&rec(1, target, 0, k as u128), k + 2);
        let snap = st.snapshot();
        let s = snap.entities[0].state.smoothed_x;
        assert!(s >= prev, "smoothed value moved away from the target");
        assert!(s <= target, "smoothed value overshot the target");
        assert!(target - s <= target - prev);
        prev = s;
    }
    // alpha = 1/4 with milli-unit rounding settles within 4 thousandths.
    assert!(target - prev <= 3);
}

#[test]
fn trail_bounds_hold_after_every_update() {
    let cfg = FusionConfig { alpha_num: 1, alpha_den: 4, max_points: 5, max_age_ms: 50 };
    let mut st = FusionStore::new(cfg);
    for k in 0..40u64 {
        let now = k * 7;
        st.update(&rec(9, k as i64, 0, 0), now);
        let snap = st.snapshot();
        let tr = &snap.entities[0].state.trail;
        assert!(tr.len() <= 5);
        if !tr.is_empty() {
            assert!(now - tr[0].at_ms <= 50);
        }
    }
}

#[test]
fn age_eviction_keeps_point_exactly_at_bound() {
    let cfg = FusionConfig { alpha_num: 1, alpha_den: 4, max_points: 600, max_age_ms: 100 };
    let mut st = FusionStore::new(cfg);
    st.update(&rec(1, 0, 0, 0), 0);
    st.update(&rec(1, 0, 0, 0), 60);
    // at 100 ms the first point is exactly at the age bound and stays
    st.update(&rec(1, 0, 0, 0), 100);
    let snap = st.snapshot();
    assert_eq!(snap.entities[0].state.trail.len(), 3);
    // at 101 ms the first point is over the bound and goes
    st.update(&rec(1, 0, 0, 0), 101);
    let snap2 = st.snapshot();
    let tr = &snap2.entities[0].state.trail;
    assert_eq!(tr.len(), 3);
    assert_eq!(tr[0].at_ms, 60);
}

#[test]
fn snapshot_is_an_independent_copy() {
    let mut st = FusionStore::new(FusionConfig::reference());
    st.update(&rec(1, 1_000, 2_000, 7), 3);
    let snap = st.snapshot();
    st.update(&rec(1, 9_000, 9_000, 8), 4);
    // the copy still shows the state at the instant it was taken
    assert_eq!(snap.entities[0].state.x, 1_000);
    assert_eq!(snap.total_packets, 1);
    let snap2 = st.snapshot();
    assert_eq!(snap2.entities[0].state.x, 9_000);
    assert_eq!(snap2.total_packets, 2);
}

#[test]
fn last_seen_never_runs_backwards() {
    let mut st = FusionStore::new(FusionConfig::reference());
    st.update(&rec(1, 0, 0, 900), 10);
    // a producer timestamp in the past does not move last_seen back
    st.update(&rec(1, 0, 0, 100), 11);
    let snap = st.snapshot();
    assert_eq!(snap.entities[0].state.last_seen_ms, 11);
    assert_eq!(snap.entities[0].state.ts_ms, 100);
}

#[test]
fn freshness_boundary_is_deterministic() {
    // threshold 2000 ms: below it fresh, at or above it stale
    assert!(!is_stale(1999, 0, 2000));
    assert!(is_stale(2000, 0, 2000));
    assert!(is_stale(2001, 0, 2000));
    assert!(!is_stale(5000, 3001, 2000));
    assert!(is_stale(5000, 3000, 2000));
    assert!(is_stale(5000, 2999, 2000));
}

#[test]
fn datagram_pipeline_matches_direct_updates() {
    let mut st = FusionStore::new(FusionConfig::reference());
    assert!(handle_datagram(
        &mut st,
        b"{\"id\":1,\"x\":0,\"y\":0,\"z\":10,\"battery\":100,\"status\":\"OK\",\"ts_ms\":1000}",
        1,
    ));
    assert!(handle_datagram(
        &mut st,
        b"{\"id\":1,\"x\":10,\"y\":0,\"z\":10,\"battery\":99,\"status\":\"OK\",\"ts_ms\":1200}",
        2,
    ));
    let snap = st.snapshot();
    assert_eq!(snap.entities[0].state.smoothed_x, 2_500);
    assert_eq!(snap.entities[0].state.status, b"OK".to_vec());
    assert_eq!(snap.total_packets, 2);
}

#[test]
fn clock_reads_something() {
    // the wall clock wrapper returns a value; nothing more is promised
    let t = now_ms();
    let _ = t;
}

#[test]
fn smoothing_holds_for_other_alphas() {
    // alpha = 3/4 is snappier but still never overshoots.
    let cfg = FusionConfig { alpha_num: 3, alpha_den: 4, max_points: 600, max_age_ms: 20_000 };
    let mut st = FusionStore::new(cfg);
    st.update(&rec(1, 0, 0, 0), 1);
    let target: i64 = 16_000;
    let mut prev: i64 = 0;
    for k in 0..30u64 {
        st.update(&rec(1, target, 0, k as u128), k + 2);
        let s = st.snapshot().entities[0].state.smoothed_x;
        assert!(s >= prev && s <= target);
        prev = s;
    }
    assert!(target - prev <= 3);
    // first step from zero: 0 + 3*(16000-0)/4 = 12000
    let mut st2 = FusionStore::new(cfg);
    st2.update(&rec(2, 0, 0, 0), 1);
    st2.update(&rec(2, target, 0, 0), 2);
    assert_eq!(st2.snapshot().entities[0].state.smoothed_x, 12_000);
}
