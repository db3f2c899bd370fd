use shredstream_proxy::prom::{
    inc_packets_by_source, inc_packets_deduped, inc_packets_forward_failed, inc_packets_forwarded,
    inc_packets_received, inc_routing_drop, inc_routing_send, LabelCounts, PacketCounters,
};

fn labels(texts: &[&str]) -> Vec<String> {
    texts.iter().map(|t| t.to_string()).collect()
}

#[test]
fn each_event_is_counted_in_its_own_total() {
    let mut c = PacketCounters::new();
    inc_packets_received(&mut c, 5);
    inc_packets_deduped(&mut c, 2);
    inc_packets_forwarded(&mut c, 3);
    inc_packets_forward_failed(&mut c, 1);
    inc_routing_drop(&mut c);
    inc_routing_drop(&mut c);
    assert_eq!(c.packets_received, 5);
    assert_eq!(c.packets_deduped, 2);
    assert_eq!(c.packets_forwarded, 3);
    assert_eq!(c.packets_forward_failed, 1);
    assert_eq!(c.routing_drop, 2);
}

#[test]
fn labelled_events_are_counted_apart() {
    let mut c = PacketCounters::new();
    inc_routing_send(&mut c, "0");
    inc_routing_send(&mut c, "1");
    inc_routing_send(&mut c, "0");
    assert_eq!(c.routing_send.get(&labels(&["0"])), 2);
    assert_eq!(c.routing_send.get(&labels(&["1"])), 1);
    assert_eq!(c.routing_send.get(&labels(&["2"])), 0);
    inc_packets_by_source(&mut c, "10.0.0.1", "ok", 4);
    inc_packets_by_source(&mut c, "10.0.0.1", "dup", 1);
    inc_packets_by_source(&mut c, "10.0.0.1", "ok", 3);
    assert_eq!(c.packets_by_source.get(&labels(&["10.0.0.1", "ok"])), 7);
    assert_eq!(c.packets_by_source.get(&labels(&["10.0.0.1", "dup"])), 1);
    assert_eq!(c.packets_by_source.get(&labels(&["10.0.0.1"])), 0);
}

#[test]
fn totals_stop_at_the_largest_number() {
    let mut c = PacketCounters::new();
    inc_packets_received(&mut c, u64::MAX);
    inc_packets_received(&mut c, 1);
    assert_eq!(c.packets_received, u64::MAX);
}

#[test]
fn labelled_counters_wrap_around() {
    let mut counts = LabelCounts::new();
    counts.inc_by(labels(&["a"]), u64::MAX);
    counts.inc_by(labels(&["a"]), 3);
    assert_eq!(counts.get(&labels(&["a"])), 2);
}

#[test]
fn the_labels_that_came_up_can_be_listed() {
    let mut c = PacketCounters::new();
    assert_eq!(c.packets_by_source.len(), 0);
    inc_packets_by_source(&mut c, "10.0.0.1", "ok", 2);
    inc_packets_by_source(&mut c, "10.0.0.2", "ok", 3);
    inc_packets_by_source(&mut c, "10.0.0.1", "ok", 4);
    assert_eq!(c.packets_by_source.len(), 2);
    assert_eq!(c.packets_by_source.labels(0), &labels(&["10.0.0.1", "ok"]));
    assert_eq!(c.packets_by_source.labels(1), &labels(&["10.0.0.2", "ok"]));
    assert_eq!(c.packets_by_source.get(c.packets_by_source.labels(0)), 6);
}
