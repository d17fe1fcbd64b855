use scsync::congestion::{CongestionInfo, MovingAverage, WINDOW};
use scsync::timeout::TimeoutStream;

#[test]
fn mean_is_taken_over_the_last_samples() {
    let mut avg = MovingAverage::new();
    assert_eq!(avg.mean(), 0);
    avg.push(10);
    assert_eq!(avg.mean(), 10);
    avg.push(21);
    assert_eq!(avg.mean(), 15);
    for _ in 0..WINDOW {
        avg.push(100);
    }
    assert_eq!(avg.len(), WINDOW);
    assert_eq!(avg.mean(), 100);
    avg.push(0);
    assert_eq!(avg.mean(), 90);
}

#[test]
fn mean_of_large_samples_does_not_overflow() {
    let mut avg = MovingAverage::new();
    for _ in 0..WINDOW {
        avg.push(u64::MAX);
    }
    assert_eq!(avg.mean(), u64::MAX);
    avg.push(u64::MAX - 10);
    assert_eq!(avg.mean(), u64::MAX - 1);
}

#[test]
fn round_trip_is_timed_once_at_a_time() {
    let mut info = CongestionInfo::new(0);
    assert!(!info.is_rtt_running());
    assert_eq!(info.rtt(), None);
    assert_eq!(info.stop_rtt(5), None);
    assert!(info.start_rtt(100));
    assert!(info.is_rtt_running());
    assert!(!info.start_rtt(150));
    assert_eq!(info.stop_rtt(400), Some(300));
    assert!(!info.is_rtt_running());
    assert_eq!(info.rtt(), Some(300));
    assert!(info.start_rtt(1000));
    assert_eq!(info.stop_rtt(900), Some(0));
    assert_eq!(info.rtt(), Some(150));
}

#[test]
fn time_between_packets_starts_with_the_second_packet() {
    let mut info = CongestionInfo::new(0);
    assert_eq!(info.ipt(), 0);
    info.ipt_packet(1_000);
    assert_eq!(info.ipt(), 0);
    info.ipt_packet(1_400);
    assert_eq!(info.ipt(), 400);
    info.ipt_packet(2_000);
    assert_eq!(info.ipt(), 500);
    info.ipt_packet(1_500);
    assert_eq!(info.ipt(), 333);
}

#[test]
fn status_is_due_after_the_expected_packets_or_the_delay() {
    let mut info = CongestionInfo::new(1_000);
    assert!(!info.poll(5_000, 0));
    info.start_rtt(1_000);
    info.stop_rtt(1_200);
    info.ipt_packet(1_300);
    info.ipt_packet(1_400);
    info.update_delay(3);
    // due at 1000 + 3 * 100 + 200
    assert!(!info.poll(1_499, 3));
    assert!(info.poll(1_500, 3));
    // counted anew: due at 1500 + 300 + 200
    assert!(!info.poll(1_999, 3));
    info.ipt_packet(1_500);
    info.ipt_packet(1_600);
    assert!(!info.poll(1_700, 3));
    info.ipt_packet(1_700);
    assert!(info.poll(1_700, 3));
    assert!(!info.poll(1_701, 3));
    info.shutdown();
    assert!(!info.poll(u64::MAX, 0));
}

#[test]
fn delay_stops_at_the_largest_moment() {
    let mut info = CongestionInfo::new(u64::MAX - 10);
    info.ipt_packet(0);
    info.ipt_packet(1_000);
    info.update_delay(u32::MAX);
    assert!(!info.poll(u64::MAX - 1, u32::MAX));
    assert!(info.poll(u64::MAX, u32::MAX));
}

#[test]
fn stream_times_out_when_nothing_came_between_two_ticks() {
    let mut watch = TimeoutStream::new();
    watch.item();
    assert!(!watch.tick());
    assert!(watch.tick());
    watch.item();
    watch.item();
    assert!(!watch.tick());
    let mut silent = TimeoutStream::new();
    assert!(silent.tick());
}
