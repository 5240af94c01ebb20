use pingmon::app::{App, AxisWindow, poll_budget, CAPACITY, TICK_SAMPLES, WINDOW_WIDTH};
use pingmon::app::TICK_INTERVAL_MS;
use pingmon::ping::{Ping, ProbeError, ProbeOutcome, Target, outcome_value};
use pingmon::series::{Sample, SlidingSeries};
use pingmon::statistics::{Mean, Statistics, BUFFER_SIZE};

#[test]
fn series_capacity_is_never_exceeded() {
    let mut s = SlidingSeries::new(3, 2);
    for i in 0..5u64 {
        s.append(Sample { pos: i * 2, value: i as u32 });
        assert!(s.len() <= 3);
    }
    assert_eq!(s.len(), 3);
    assert_eq!(s.get(0), Sample { pos: 4, value: 2 });
    assert_eq!(s.get(1), Sample { pos: 6, value: 3 });
    assert_eq!(s.get(2), Sample { pos: 8, value: 4 });
}

#[test]
fn series_stays_full_once_full() {
    let mut s = SlidingSeries::new(2, 1);
    s.append(Sample { pos: 0, value: 1 });
    assert_eq!(s.len(), 1);
    s.append(Sample { pos: 1, value: 2 });
    assert_eq!(s.len(), 2);
    for i in 2..10u64 {
        s.append(Sample { pos: i, value: i as u32 });
        assert_eq!(s.len(), 2);
    }
}

#[test]
fn steady_state_eviction_keeps_length() {
    let mut s = SlidingSeries::new(4, 1);
    let seed: Vec<Sample> = (0..4u64).map(|i| Sample { pos: i, value: 0 }).collect();
    s.extend(&seed);
    assert_eq!(s.len(), 4);
    let batch = vec![Sample { pos: 4, value: 7 }, Sample { pos: 5, value: 9 }];
    s.extend(&batch);
    assert_eq!(s.len(), 4);
    assert_eq!(s.get(0), Sample { pos: 2, value: 0 });
    assert_eq!(s.get(1), Sample { pos: 3, value: 0 });
    assert_eq!(s.get(2), Sample { pos: 4, value: 7 });
    assert_eq!(s.get(3), Sample { pos: 5, value: 9 });
}

#[test]
fn extending_by_more_than_the_capacity_keeps_the_newest() {
    let mut s = SlidingSeries::new(2, 1);
    let batch: Vec<Sample> = (0..5u64).map(|i| Sample { pos: i, value: i as u32 }).collect();
    s.extend(&batch);
    assert_eq!(s.len(), 2);
    assert_eq!(s.get(0), Sample { pos: 3, value: 3 });
    assert_eq!(s.get(1), Sample { pos: 4, value: 4 });
}

#[test]
fn extending_by_nothing_changes_nothing() {
    let mut s = SlidingSeries::new(2, 1);
    s.append(Sample { pos: 9, value: 1 });
    s.extend(&Vec::new());
    assert_eq!(s.len(), 1);
    assert_eq!(s.get(0), Sample { pos: 9, value: 1 });
}

#[test]
fn average_is_no_data_on_empty_buffer() {
    let st = Statistics::new();
    assert_eq!(st.average(), None);
    assert_eq!(st.last_average(), None);
    assert_eq!(st.history_len(), 0);
}

#[test]
fn average_is_exact() {
    let mut st = Statistics::new();
    st.push(4);
    st.push(6);
    assert_eq!(st.average(), Some(Mean { sum: 10, count: 2 }));
}

#[test]
fn flush_waits_for_the_push_after_a_full_block() {
    let mut st = Statistics::new();
    for v in 1..=BUFFER_SIZE as u32 {
        st.push(v);
    }
    // a block of exactly BUFFER_SIZE values still sits in the buffer
    assert_eq!(st.history_len(), 0);
    assert_eq!(st.last_average(), None);
    st.push(99);
    // the 11th push flushed the first 10 values: 1 + 2 + ... + 10 == 55
    assert_eq!(st.history_len(), 1);
    assert_eq!(st.last_average(), Some(Mean { sum: 55, count: BUFFER_SIZE }));
    // the 11th value alone occupies the buffer
    assert_eq!(st.average(), Some(Mean { sum: 99, count: 1 }));
}

#[test]
fn last_average_stays_defined_and_history_grows_in_order() {
    let mut st = Statistics::new();
    for v in 0..(2 * BUFFER_SIZE as u32 + 1) {
        st.push(v);
    }
    // two completed blocks: 0..10 (sum 45) and 10..20 (sum 145)
    assert_eq!(st.history_len(), 2);
    assert_eq!(st.last_average(), Some(Mean { sum: 145, count: BUFFER_SIZE }));
    st.push(7);
    st.push(7);
    // no new block completed, the last average stays defined and unchanged
    assert_eq!(st.history_len(), 2);
    assert_eq!(st.last_average(), Some(Mean { sum: 145, count: BUFFER_SIZE }));
}

#[test]
fn record_maps_success_to_rtt_and_failure_to_sentinel() {
    let mut p = Ping::for_target(Target::V4([8, 8, 8, 8]));
    assert_eq!(p.x, 0);
    let s0 = p.record(&Ok(42), 1);
    assert_eq!(s0, Sample { pos: 0, value: 42 });
    let s1 = p.record(&Err(ProbeError::Timeout), 1);
    assert_eq!(s1, Sample { pos: 1, value: 0 });
    let s2 = p.record(&Err(ProbeError::Unreachable), 1);
    assert_eq!(s2, Sample { pos: 2, value: 0 });
    let s3 = p.record(&Err(ProbeError::Other(String::from("socket closed"))), 1);
    assert_eq!(s3, Sample { pos: 3, value: 0 });
    assert_eq!(p.x, 4);
}

#[test]
fn outcome_values() {
    assert_eq!(outcome_value(&Ok(17)), 17);
    assert_eq!(outcome_value(&Err(ProbeError::Timeout)), 0);
}

#[test]
fn to_host_accepts_dotted_quads() {
    let p = Ping::to_host("8.8.8.8").unwrap();
    assert_eq!(p.addr, Target::V4([8, 8, 8, 8]));
    assert_eq!(p.data, [1, 2, 3, 4]);
    assert_eq!(p.timeout_ms, 500);
    assert!(p.timeout_ms < TICK_INTERVAL_MS);
    assert_eq!(p.ttl, 128);
    assert!(p.dont_fragment);
    assert_eq!(Ping::to_host("0.0.0.0").unwrap().addr, Target::V4([0, 0, 0, 0]));
    assert_eq!(
        Ping::to_host("255.255.255.255").unwrap().addr,
        Target::V4([255, 255, 255, 255])
    );
    assert_eq!(Ping::to_host("192.168.0.1").unwrap().addr, Target::V4([192, 168, 0, 1]));
}

#[test]
fn to_host_accepts_ipv6_texts() {
    assert_eq!(Ping::to_host("::").unwrap().addr, Target::V6([0, 0, 0, 0, 0, 0, 0, 0]));
    assert_eq!(Ping::to_host("::1").unwrap().addr, Target::V6([0, 0, 0, 0, 0, 0, 0, 1]));
    assert_eq!(Ping::to_host("1::").unwrap().addr, Target::V6([1, 0, 0, 0, 0, 0, 0, 0]));
    assert_eq!(
        Ping::to_host("1:2:3:4:5:6:7:8").unwrap().addr,
        Target::V6([1, 2, 3, 4, 5, 6, 7, 8])
    );
    assert_eq!(
        Ping::to_host("2001:db8::ff00:42:8329").unwrap().addr,
        Target::V6([0x2001, 0x0db8, 0, 0, 0, 0xff00, 0x42, 0x8329])
    );
    assert_eq!(
        Ping::to_host("ABCD::eF").unwrap().addr,
        Target::V6([0xabcd, 0, 0, 0, 0, 0, 0, 0xef])
    );
    assert_eq!(
        Ping::to_host("::ffff:192.168.0.1").unwrap().addr,
        Target::V6([0, 0, 0, 0, 0, 0xffff, 0xc0a8, 0x0001])
    );
    assert_eq!(
        Ping::to_host("1:2:3:4:5:6:1.2.3.4").unwrap().addr,
        Target::V6([1, 2, 3, 4, 5, 6, 0x0102, 0x0304])
    );
    assert_eq!(
        Ping::to_host("1:2:3:4:5:6:7::").unwrap().addr,
        Target::V6([1, 2, 3, 4, 5, 6, 7, 0])
    );
    assert_eq!(
        Ping::to_host("0001::").unwrap().addr,
        Target::V6([1, 0, 0, 0, 0, 0, 0, 0])
    );
    assert_eq!(
        Ping::to_host("1:2::3:4:5:6:7").unwrap().addr,
        Target::V6([1, 2, 0, 3, 4, 5, 6, 7])
    );
    assert_eq!(
        Ping::to_host("1::2:1.2.3.4").unwrap().addr,
        Target::V6([1, 0, 0, 0, 0, 2, 0x0102, 0x0304])
    );
}

#[test]
fn to_host_rejects_malformed_ipv6_texts() {
    assert!(Ping::to_host(":").is_none());
    assert!(Ping::to_host(":::").is_none());
    assert!(Ping::to_host(":1").is_none());
    assert!(Ping::to_host("1:").is_none());
    assert!(Ping::to_host("1::2::3").is_none());
    assert!(Ping::to_host("12345::").is_none());
    assert!(Ping::to_host("g::").is_none());
    assert!(Ping::to_host("1:2:3:4:5:6:7").is_none());
    assert!(Ping::to_host("1:2:3:4:5:6:7:8:9").is_none());
    assert!(Ping::to_host("1:2:3:4:5:6:7:8::").is_none());
    assert!(Ping::to_host("::1:2:3:4:5:6:7:8").is_none());
    assert!(Ping::to_host("1.2.3.4::5").is_none());
    assert!(Ping::to_host("1:2:3:4:5:6::1.2.3.4").is_none());
}

#[test]
fn to_host_rejects_anything_else() {
    assert!(Ping::to_host("").is_none());
    assert!(Ping::to_host("8.8.8").is_none());
    assert!(Ping::to_host("8.8.8.8.8").is_none());
    assert!(Ping::to_host("256.1.1.1").is_none());
    assert!(Ping::to_host("01.2.3.4").is_none());
    assert!(Ping::to_host("1.2.3.04").is_none());
    assert!(Ping::to_host("1.2.3.1000").is_none());
    assert!(Ping::to_host("1..2.3").is_none());
    assert!(Ping::to_host("a.b.c.d").is_none());
    assert!(Ping::to_host("8.8.8.8 ").is_none());
    assert!(Ping::to_host("8888").is_none());
    assert!(Ping::to_host(".8.8.8").is_none());
    assert!(Ping::to_host("8.8.8.").is_none());
}

#[test]
fn startup_seeds_the_chart_and_feeds_the_aggregator() {
    let initial: Vec<ProbeOutcome> =
        vec![Ok(12), Err(ProbeError::Timeout), Ok(30), Ok(7), Err(ProbeError::Unreachable)];
    let app = App::new(&initial);
    assert_eq!(app.data.len(), CAPACITY);
    for i in 0..95 {
        assert_eq!(app.data.get(i), Sample { pos: i as u64, value: 0 });
    }
    let tail: Vec<u32> = (95..100).map(|i| app.data.get(i).value).collect();
    assert_eq!(tail, vec![12, 0, 30, 7, 0]);
    assert_eq!(app.data.get(99).pos, 99);
    assert_eq!(app.window, AxisWindow { low: 0, high: WINDOW_WIDTH });
    assert_eq!(app.ping.x, CAPACITY as u64);
    assert_eq!(app.stats.average(), Some(Mean { sum: 49, count: 5 }));
    assert_eq!(app.stats.history_len(), 0);
}

#[test]
fn one_tick_slides_the_window_of_a_full_chart() {
    let initial: Vec<ProbeOutcome> = vec![Ok(1), Ok(2), Ok(3), Ok(4), Ok(5)];
    let mut app = App::new(&initial);
    assert_eq!(initial.len(), TICK_SAMPLES);
    let outcomes: Vec<ProbeOutcome> =
        vec![Ok(21), Ok(22), Err(ProbeError::Timeout), Ok(24), Ok(25)];
    app.on_tick(&outcomes);
    // the length is unchanged: the five oldest seed samples were evicted
    assert_eq!(app.data.len(), CAPACITY);
    assert_eq!(app.data.get(0), Sample { pos: 5, value: 0 });
    // the new samples form the tail in issued order, the failure as 0
    let tail: Vec<u32> = (95..100).map(|i| app.data.get(i).value).collect();
    assert_eq!(tail, vec![21, 22, 0, 24, 25]);
    assert_eq!(app.data.get(95).pos, 100);
    assert_eq!(app.data.get(99).pos, 104);
    // the window advanced by one position per sample, width unchanged
    assert_eq!(app.window, AxisWindow { low: 5, high: WINDOW_WIDTH + 5 });
    // ten raw values so far: the block is full but not yet flushed
    assert_eq!(app.stats.history_len(), 0);
    assert_eq!(app.stats.last_average(), None);
    assert_eq!(
        app.stats.average(),
        Some(Mean { sum: 1 + 2 + 3 + 4 + 5 + 21 + 22 + 24 + 25, count: BUFFER_SIZE })
    );
    // the next tick's first push flushes that block
    let more: Vec<ProbeOutcome> =
        vec![Ok(31), Ok(32), Ok(33), Err(ProbeError::Other(String::from("io"))), Ok(35)];
    app.on_tick(&more);
    assert_eq!(app.stats.history_len(), 1);
    assert_eq!(
        app.stats.last_average(),
        Some(Mean { sum: 1 + 2 + 3 + 4 + 5 + 21 + 22 + 24 + 25, count: BUFFER_SIZE })
    );
    assert_eq!(app.stats.average(), Some(Mean { sum: 31 + 32 + 33 + 35, count: 5 }));
    assert_eq!(app.data.get(0), Sample { pos: 10, value: 0 });
    assert_eq!(app.window, AxisWindow { low: 10, high: WINDOW_WIDTH + 10 });
}

#[test]
fn window_advances_keeping_width() {
    let mut w = AxisWindow { low: 0, high: 100 };
    w.advance(5);
    assert_eq!(w, AxisWindow { low: 5, high: 105 });
    w.advance(5);
    assert_eq!(w, AxisWindow { low: 10, high: 110 });
}

#[test]
fn poll_budget_saturates_at_zero() {
    assert_eq!(poll_budget(1000, 300), 700);
    assert_eq!(poll_budget(1000, 1000), 0);
    assert_eq!(poll_budget(1000, 1500), 0);
}
