use link_set::adaptors::peekable::Peekable;
use link_set::error::LinkSetError;
use link_set::links::link_entry::{check_link_size, payload_size, LinkIds};
use link_set::links::latency::{LatencyHistory, DEFAULT_LATENCY_NANOS, MAX_LATENCY_NANOS};
use link_set::links::link::Link;
use link_set::links::link_entry::{LinkEntry, OVERHEAD};
use link_set::links::link_manager::LinkManager;
use link_set::links::wrapped_link::WrappedLink;

struct TestLink {
    max: u32,
    closed: bool,
    scheme: &'static str,
}

impl TestLink {
    fn open(max: u32) -> TestLink {
        TestLink { max, closed: false, scheme: "test" }
    }
}

impl Link for TestLink {
    fn scheme(&self) -> &'static str {
        self.scheme
    }

    fn max_size(&self) -> u32 {
        self.max
    }

    fn is_closed(&mut self) -> bool {
        self.closed
    }
}

fn ids(m: &LinkManager<TestLink>) -> Vec<u64> {
    m.link_entries().iter().map(|e| e.id()).collect()
}

#[test]
fn new_history_assumes_the_default_latency() {
    let h = LatencyHistory::new();
    assert_eq!(h.latency(), DEFAULT_LATENCY_NANOS);
    assert_eq!(DEFAULT_LATENCY_NANOS, 100_000_000);
    assert!(!h.is_pinging());
}

#[test]
fn latency_is_the_average_of_the_last_six_samples() {
    let mut h = LatencyHistory::new();
    h.add_latency(700_000_000);
    // (700 + 5 * 100) / 6 ms
    assert_eq!(h.latency(), 200_000_000);
    for _ in 0..6 {
        h.add_latency(10);
    }
    assert_eq!(h.latency(), 10);
    h.add_latency(16);
    // (16 + 5 * 10) / 6, rounded down
    assert_eq!(h.latency(), 11);
}

#[test]
fn pings_record_a_sample() {
    let mut h = LatencyHistory::new();
    h.end_ping();
    assert_eq!(h.latency(), DEFAULT_LATENCY_NANOS);
    h.begin_ping();
    assert!(h.is_pinging());
    h.end_ping();
    assert!(!h.is_pinging());
    // the answer came almost at once: the average fell below the default
    assert!(h.latency() < DEFAULT_LATENCY_NANOS);
}

#[test]
fn link_entry_reports_its_link() {
    let mut e = LinkEntry::new(TestLink::open(100), 4);
    assert_eq!(e.id(), 4);
    assert_eq!(e.scheme(), "test");
    assert_eq!(e.max_size(), 100 - OVERHEAD);
    assert_eq!(OVERHEAD, 56);
    assert_eq!(e.latency(), DEFAULT_LATENCY_NANOS);
    assert!(!e.is_closed());
    e.link_mut().closed = true;
    assert!(e.is_closed());
    e.add_latency(1_000);
    assert!(e.latency() < DEFAULT_LATENCY_NANOS);
}

#[test]
fn small_links_leave_no_payload() {
    let e = LinkEntry::new(TestLink::open(20), 1);
    assert_eq!(e.max_size(), 0);
    let w = WrappedLink::new(TestLink::open(20), 1);
    assert_eq!(w.max_size(), 20);
    assert_eq!(w.id(), 1);
    assert_eq!(w.latency(), DEFAULT_LATENCY_NANOS);
}

#[test]
fn newest_link_is_preferred() {
    let mut m = LinkManager::new();
    assert!(m.is_empty());
    m.add_link(LinkEntry::new(TestLink::open(100), 1));
    m.add_link(LinkEntry::new(TestLink::open(100), 2));
    assert_eq!(ids(&m), vec![2, 1]);
    assert_eq!(m.len(), 2);
    let one = LinkManager::with_link(LinkEntry::new(TestLink::open(100), 9));
    assert_eq!(ids(&one), vec![9]);
}

#[test]
fn evict_removes_every_link_with_the_id() {
    let mut m = LinkManager::new();
    m.add_link(LinkEntry::new(TestLink::open(100), 1));
    m.add_link(LinkEntry::new(TestLink::open(100), 2));
    m.add_link(LinkEntry::new(TestLink::open(100), 1));
    assert!(m.evict_link(1));
    assert_eq!(ids(&m), vec![2]);
    assert!(!m.evict_link(1));
    assert_eq!(ids(&m), vec![2]);
}

#[test]
fn upkeep_drops_closed_and_slow_links() {
    let mut m = LinkManager::new();
    m.add_link(LinkEntry::new(TestLink::open(100), 1));
    let mut slow = LinkEntry::new(TestLink::open(100), 2);
    for _ in 0..6 {
        slow.add_latency(MAX_LATENCY_NANOS);
    }
    m.add_link(slow);
    let mut closed = LinkEntry::new(TestLink::open(100), 3);
    closed.link_mut().closed = true;
    m.add_link(closed);
    m.add_link(LinkEntry::new(TestLink::open(100), 4));
    m.upkeep();
    assert_eq!(ids(&m), vec![4, 1]);
}

#[test]
fn prune_front_finds_a_link_to_send_on() {
    let mut m = LinkManager::new();
    m.add_link(LinkEntry::new(TestLink::open(100), 1));
    let mut closed = LinkEntry::new(TestLink::open(100), 2);
    closed.link_mut().closed = true;
    m.add_link(closed);
    assert!(m.prune_front());
    assert_eq!(ids(&m), vec![1]);
    m.entry_mut(0).link_mut().closed = true;
    assert!(!m.prune_front());
    assert!(m.is_empty());
}

#[test]
fn prune_front_keeps_a_link_at_the_limit() {
    let mut m = LinkManager::new();
    let mut e = LinkEntry::new(TestLink::open(100), 1);
    for _ in 0..6 {
        e.add_latency(MAX_LATENCY_NANOS);
    }
    m.add_link(e);
    // sending tolerates the limit itself; upkeep does not
    assert!(m.prune_front());
    m.upkeep();
    assert!(m.is_empty());
}

#[test]
fn position_and_end_ping() {
    let mut m = LinkManager::new();
    m.add_link(LinkEntry::new(TestLink::open(100), 1));
    m.add_link(LinkEntry::new(TestLink::open(100), 2));
    assert_eq!(m.position(1), Some(1));
    assert_eq!(m.position(2), Some(0));
    assert_eq!(m.position(3), None);
    m.entry_mut(1).begin_ping();
    m.end_ping(1);
    assert!(m.link_entries()[1].latency() < DEFAULT_LATENCY_NANOS);
    assert_eq!(m.link_entries()[0].latency(), DEFAULT_LATENCY_NANOS);
    m.end_ping(3);
    assert_eq!(ids(&m), vec![2, 1]);
}

#[test]
fn peekable_holds_one_chunk() {
    let mut p = Peekable::new(TestLink::open(64));
    assert!(!p.has_peeked());
    assert!(p.peeked_data().is_none());
    p.store_peeked(vec![1, 2, 3]);
    assert!(p.has_peeked());
    assert_eq!(p.peeked_data(), Some(&vec![1u8, 2, 3]));
    assert_eq!(p.take_peeked(), Some(vec![1, 2, 3]));
    assert_eq!(p.take_peeked(), None);
    assert_eq!(p.max_size(), 64);
    assert_eq!(p.scheme(), "test");
    p.link_mut().closed = true;
    assert!(p.is_closed());
}

#[test]
fn links_without_room_for_framing_are_refused() {
    assert_eq!(check_link_size(57), Ok(()));
    assert_eq!(
        check_link_size(56),
        Err(LinkSetError::Implementation { size: 56, required_size: 56 })
    );
    assert_eq!(payload_size(100), 44);
    assert_eq!(payload_size(10), 0);

    let mut ids = LinkIds::new();
    assert_eq!(ids.next(), 0);
    let e = ids.wrap_link(TestLink::open(1000)).expect("room for framing");
    assert_eq!(e.id(), 0);
    assert!(matches!(
        ids.wrap_link(TestLink::open(10)),
        Err(LinkSetError::Implementation { size: 10, required_size: 56 })
    ));
    // the refused link used up its id
    let e = ids.wrap_link(TestLink::open(1000)).expect("room for framing");
    assert_eq!(e.id(), 2);
    assert_eq!(ids.next(), 3);
}

#[test]
fn evicting_a_fresh_link_undoes_adding_it() {
    let mut m = LinkManager::new();
    m.add_link(LinkEntry::new(TestLink::open(100), 1));
    m.add_link(LinkEntry::new(TestLink::open(100), 2));
    let before = ids(&m);
    m.add_link(LinkEntry::new(TestLink::open(100), 7));
    assert!(m.evict_link(7));
    assert_eq!(ids(&m), before);
    // evicting again changes nothing
    assert!(!m.evict_link(7));
    assert_eq!(ids(&m), before);
}
