use link_set::connector_manager::{
    after_connect, after_wait, merged_count, needs_permit, permits_to_add, AddressBook,
    ConnectOutcome, Placement, SchemeTable, TaskAction, WaitOutcome, RETRIES_MAX,
};
use link_set::debug::{describe_links, snapshot};
use link_set::epoch::Epoch;
use link_set::link_set::{
    epoch_after, message_from_decoded, reported_epoch, LinkSetMessage, LinkSetSendable,
};
use link_set::links::address::{Address, AddressRepr};
use link_set::links::link::Link;
use link_set::links::link_entry::LinkEntry;
use link_set::links::link_manager::LinkManager;
use link_set::links::pipe_link::PipeLinkError;
use link_set::state::machine::LinkSetCore;
use link_set::state::types::{Command, Event, LinkSetMessageInner};

#[derive(Debug, Clone, PartialEq, Eq)]
struct Data(String);

impl LinkSetSendable for Data {
    type E = std::string::FromUtf8Error;

    fn to_bytes(self) -> Result<Vec<u8>, Self::E> {
        Ok(self.0.as_bytes().to_vec())
    }

    fn from_bytes(bytes: Vec<u8>) -> Result<Self, Self::E> {
        Ok(Data(String::from_utf8(bytes)?))
    }
}

struct NamedLink(&'static str);

impl Link for NamedLink {
    fn scheme(&self) -> &'static str {
        self.0
    }

    fn max_size(&self) -> u32 {
        1000
    }

    fn is_closed(&mut self) -> bool {
        false
    }
}

fn epoch(v: u64) -> Epoch {
    Epoch::from_int(v).unwrap()
}

#[test]
fn permits_stay_within_the_limit() {
    assert_eq!(RETRIES_MAX, 10);
    assert_eq!(permits_to_add(0, 3), 3);
    assert_eq!(permits_to_add(8, 5), 2);
    assert_eq!(permits_to_add(10, 5), 0);
    assert_eq!(permits_to_add(12, 5), 0);
    assert_eq!(permits_to_add(0, 100), 10);
    assert_eq!(merged_count(7), 7);
    assert_eq!(merged_count(70_000), u16::MAX);
}

#[test]
fn connection_task_decisions() {
    assert!(needs_permit(false));
    assert!(!needs_permit(true));
    assert_eq!(after_wait(WaitOutcome::Acquired), TaskAction::Connect { counted: true });
    assert_eq!(after_wait(WaitOutcome::Closed), TaskAction::Stop);
    assert_eq!(after_wait(WaitOutcome::RepeatChanged), TaskAction::Restart);
    assert_eq!(after_wait(WaitOutcome::RepeatDropped), TaskAction::Stop);
    assert_eq!(after_connect(ConnectOutcome::Delivered, true), TaskAction::Pause { forget_permit: true });
    assert_eq!(after_connect(ConnectOutcome::Failed, false), TaskAction::Pause { forget_permit: false });
    assert_eq!(after_connect(ConnectOutcome::Undeliverable, true), TaskAction::Stop);
}

#[test]
fn sendable_round_trip() {
    let bytes = Data(String::from("Test Message")).to_bytes().unwrap();
    assert_eq!(Data::from_bytes(bytes).unwrap(), Data(String::from("Test Message")));
}

#[test]
fn notices_convert_for_the_user() {
    let m = LinkSetMessage::<Data>::try_from_inner(LinkSetMessageInner::Connected(epoch(3)));
    assert!(matches!(m, Ok(LinkSetMessage::Connected(e)) if e.to_int() == 3));
    let m = LinkSetMessage::<Data>::try_from_inner(LinkSetMessageInner::Disconnected);
    assert!(matches!(m, Ok(LinkSetMessage::Disconnected)));
    let m = LinkSetMessage::<Data>::try_from_inner(LinkSetMessageInner::Connecting(true));
    assert!(matches!(m, Ok(LinkSetMessage::Connecting(true))));
    let m = LinkSetMessage::<Data>::try_from_inner(LinkSetMessageInner::Message(b"hi".to_vec(), epoch(4)));
    match m {
        Ok(LinkSetMessage::Message(d, e)) => {
            assert_eq!(d, Data(String::from("hi")));
            assert_eq!(e.to_int(), 4);
        }
        other => panic!("unexpected {:?}", other),
    }
    let m = LinkSetMessage::<Data>::try_from_inner(LinkSetMessageInner::Message(vec![0xff], epoch(4)));
    assert!(m.is_err());
}

#[test]
fn decoded_messages() {
    let ok: Result<u8, String> = Ok(5);
    assert!(matches!(message_from_decoded(ok, epoch(2)), Ok(LinkSetMessage::Message(5, e)) if e.to_int() == 2));
    let bad: Result<u8, String> = Err(String::from("bad"));
    assert_eq!(message_from_decoded(bad, epoch(2)).err(), Some(String::from("bad")));
}

#[test]
fn reported_epoch_follows_notices() {
    let connected: LinkSetMessage<Data> = LinkSetMessage::Connected(epoch(8));
    assert_eq!(epoch_after(&connected, None).map(|e| e.to_int()), Some(8));
    let gone: LinkSetMessage<Data> = LinkSetMessage::Disconnected;
    assert!(epoch_after(&gone, Some(epoch(8))).is_none());
    let msg: LinkSetMessage<Data> = LinkSetMessage::Message(Data(String::new()), epoch(8));
    assert_eq!(epoch_after(&msg, Some(epoch(8))).map(|e| e.to_int()), Some(8));
    let conn: LinkSetMessage<Data> = LinkSetMessage::Connecting(true);
    assert!(epoch_after(&conn, None).is_none());
    assert!(reported_epoch(true, Some(epoch(1))).is_none());
    assert_eq!(reported_epoch(false, Some(epoch(1))).map(|e| e.to_int()), Some(1));
}

#[test]
fn link_descriptions_are_sorted_by_id() {
    let mut m = LinkManager::new();
    m.add_link(LinkEntry::new(NamedLink("tcp"), 5));
    m.add_link(LinkEntry::new(NamedLink("pipe"), 2));
    m.add_link(LinkEntry::new(NamedLink("udp"), 9));
    m.add_link(LinkEntry::new(NamedLink("tcp"), 2));
    let d = describe_links(&m);
    let got: Vec<(u64, String)> = d.iter().map(|x| (x.id, x.scheme.clone())).collect();
    assert_eq!(got.len(), 4);
    assert_eq!(got[0].0, 2);
    assert_eq!(got[1].0, 2);
    assert_eq!(got[2], (5, String::from("tcp")));
    assert_eq!(got[3], (9, String::from("udp")));
    let mut firsts = vec![got[0].1.clone(), got[1].1.clone()];
    firsts.sort();
    assert_eq!(firsts, vec![String::from("pipe"), String::from("tcp")]);
}

#[test]
fn snapshot_reports_the_state() {
    let mut core = LinkSetCore::new();
    let addrs = vec![Address::new("tcp", AddressRepr::from(String::from("h:1")))];
    let s = snapshot(&core, addrs.clone(), vec!["tcp"], Vec::new());
    assert_eq!(s.state_name, "Disconnected");
    assert!(s.epoch.is_none());
    assert_eq!(s.addrs, addrs);
    assert_eq!(s.connectors, vec!["tcp"]);
    assert!(s.links.is_empty());
    core.handle(Event::Command(Command::Connect));
    let s = snapshot(&core, Vec::new(), Vec::new(), Vec::new());
    assert_eq!(s.state_name, "Connecting");
}

#[test]
fn pipe_link_errors() {
    assert_ne!(PipeLinkError::Closed, PipeLinkError::ReceiverTaken);
    assert_eq!(format!("{:?}", PipeLinkError::Closed), "Closed");
}

fn text_addr(scheme: &str, a: &str) -> Address {
    Address::new(scheme, AddressRepr::from(String::from(a)))
}

#[test]
fn address_book_holds_each_address_once() {
    let mut book = AddressBook::new();
    assert_eq!(book.add(text_addr("tcp", "a:1")), Placement::Added(0));
    assert_eq!(book.add(text_addr("pipe", "a:1")), Placement::Added(1));
    assert_eq!(book.add(text_addr("tcp", "b:2")), Placement::Added(2));
    assert_eq!(book.add(text_addr("tcp", "a:1")), Placement::Existing(0));
    // text and bytes with the same content are different addresses
    assert_eq!(book.add(Address::new("tcp", AddressRepr::from(b"a:1".to_vec()))), Placement::Added(3));
    assert_eq!(book.add(Address::new("tcp", AddressRepr::from(b"a:1".to_vec()))), Placement::Existing(3));
    assert_eq!(book.len(), 4);
    assert_eq!(book.with_scheme("tcp"), vec![0, 2, 3]);
    assert_eq!(book.with_scheme("pipe"), vec![1]);
    assert!(book.with_scheme("udp").is_empty());
    assert_eq!(book.position(&text_addr("tcp", "b:2")), Some(2));
    assert_eq!(book.position(&text_addr("tcp", "c:3")), None);
    assert_eq!(book.get(1).scheme(), "pipe");
    assert_eq!(book.addresses().len(), 4);
}

#[test]
fn address_equality() {
    assert!(text_addr("tcp", "x").same_as(&text_addr("tcp", "x")));
    assert!(!text_addr("tcp", "x").same_as(&text_addr("tcp", "y")));
    assert!(!text_addr("tcp", "x").same_as(&text_addr("udp", "x")));
    assert!(text_addr("tcp", "x").has_scheme("tcp"));
    assert!(!text_addr("tcp", "x").has_scheme("tc"));
}

#[test]
fn scheme_table_holds_one_connector_per_scheme() {
    let mut t: SchemeTable<u32> = SchemeTable::new();
    assert!(t.is_empty());
    assert_eq!(t.insert(String::from("tcp"), 1), None);
    assert_eq!(t.insert(String::from("pipe"), 2), None);
    assert_eq!(t.insert(String::from("tcp"), 3), Some(1));
    assert_eq!(t.get("tcp"), Some(&3));
    assert_eq!(t.get("pipe"), Some(&2));
    assert_eq!(t.get("udp"), None);
    assert_eq!(t.position("pipe"), Some(1));
    assert_eq!(t.connectors(), vec![&3, &2]);
    assert!(!t.is_empty());
}
