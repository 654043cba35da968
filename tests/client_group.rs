use tokio::sync::mpsc::error::TryRecvError;
use wsbroker::client::CLIENT_QUEUE_CAPACITY;
use wsbroker::{ChannelType, Client, Delivery, Group, WsError};

#[test]
fn client_queues_message() {
    let (mut c, mut rx) = Client::new(1);
    assert!(c.is_active());
    assert_eq!(c.id(), 1);
    assert_eq!(c.write_to_channel("a".to_string()), Ok(Delivery::Queued));
    assert_eq!(rx.try_recv(), Ok("a".to_string()));
}

#[test]
fn purged_client_refuses_and_writes_nothing() {
    let (mut c, mut rx) = Client::new(1);
    c.purge();
    assert!(!c.is_active());
    assert_eq!(
        c.write_to_channel("late".to_string()),
        Err(WsError::ChannelClosed(ChannelType::Client))
    );
    assert_eq!(rx.try_recv(), Err(TryRecvError::Disconnected));
    c.purge();
    assert!(!c.is_active());
}

#[test]
fn full_client_queue_drops() {
    let (mut c, mut rx) = Client::new(1);
    for i in 0..CLIENT_QUEUE_CAPACITY {
        assert_eq!(c.write_to_channel(format!("{}", i)), Ok(Delivery::Queued));
    }
    assert_eq!(c.write_to_channel("extra".to_string()), Ok(Delivery::Dropped));
    assert!(c.is_active());
    assert_eq!(rx.try_recv(), Ok("0".to_string()));
}

#[test]
fn closed_client_queue_deactivates() {
    let (mut c, rx) = Client::new(1);
    drop(rx);
    assert_eq!(
        c.write_to_channel("x".to_string()),
        Err(WsError::ChannelClosed(ChannelType::Client))
    );
    assert!(!c.is_active());
    assert_eq!(
        c.write_to_channel("y".to_string()),
        Err(WsError::ChannelClosed(ChannelType::Client))
    );
}

#[test]
fn group_starts_with_one_member() {
    let (c, _crx) = Client::new(9);
    let (g, _grx) = Group::new(c);
    assert!(g.is_active());
    assert!(!g.empty());
    assert_eq!(g.member_ids(), vec![9]);
}

#[test]
fn add_client_overwrites_same_id() {
    let (a, _arx) = Client::new(1);
    let (b, _brx) = Client::new(2);
    let (a2, _a2rx) = Client::new(1);
    let (mut g, _grx) = Group::new(a);
    assert_eq!(g.add_client(b), Ok(()));
    assert_eq!(g.add_client(a2), Ok(()));
    assert_eq!(g.member_ids(), vec![1, 2]);
}

#[test]
fn purged_group_refuses_members_and_broadcasts() {
    let (a, mut arx) = Client::new(1);
    let (mut g, _grx) = Group::new(a);
    g.purge_group_and_clients();
    assert!(g.empty());
    assert!(!g.is_active());
    assert_eq!(arx.try_recv(), Err(TryRecvError::Disconnected));
    let (b, _brx) = Client::new(2);
    assert_eq!(g.add_client(b), Err(WsError::ChannelClosed(ChannelType::Group)));
    assert_eq!(
        g.write_to_channel("m".to_string()),
        Err(WsError::ChannelClosed(ChannelType::Group))
    );
    g.purge_group_and_clients();
    assert!(g.empty());
}

#[test]
fn group_broadcast_queues_then_reports_closed() {
    let (a, _arx) = Client::new(1);
    let (mut g, mut grx) = Group::new(a);
    assert_eq!(g.write_to_channel("m".to_string()), Ok(Delivery::Queued));
    assert_eq!(grx.try_recv(), Ok("m".to_string()));
    drop(grx);
    assert_eq!(
        g.write_to_channel("n".to_string()),
        Err(WsError::ChannelClosed(ChannelType::Group))
    );
    assert!(!g.is_active());
}

#[test]
fn removing_last_member_empties_group() {
    let (a, _arx) = Client::new(1);
    let (mut g, _grx) = Group::new(a);
    g.purge_client(2);
    assert!(!g.empty());
    g.purge_client(1);
    assert!(g.empty());
}

#[test]
fn forward_fans_out_in_order() {
    let (a, mut arx) = Client::new(1);
    let (b, mut brx) = Client::new(2);
    let (mut g, _grx) = Group::new(a);
    g.add_client(b).unwrap();
    let first = g.forward(&"o1".to_string());
    let second = g.forward(&"o2".to_string());
    assert_eq!(first, vec![Ok(Delivery::Queued), Ok(Delivery::Queued)]);
    assert_eq!(second, vec![Ok(Delivery::Queued), Ok(Delivery::Queued)]);
    assert_eq!(arx.try_recv(), Ok("o1".to_string()));
    assert_eq!(arx.try_recv(), Ok("o2".to_string()));
    assert_eq!(brx.try_recv(), Ok("o1".to_string()));
    assert_eq!(brx.try_recv(), Ok("o2".to_string()));
}

#[test]
fn full_member_does_not_block_others() {
    let (a, mut arx) = Client::new(1);
    let (b, mut brx) = Client::new(2);
    let (mut g, _grx) = Group::new(a);
    g.add_client(b).unwrap();
    for i in 0..CLIENT_QUEUE_CAPACITY {
        let _ = g.forward(&format!("{}", i));
        assert_eq!(brx.try_recv(), Ok(format!("{}", i)));
    }
    let results = g.forward(&"late".to_string());
    assert_eq!(results, vec![Ok(Delivery::Dropped), Ok(Delivery::Queued)]);
    assert_eq!(brx.try_recv(), Ok("late".to_string()));
    assert_eq!(g.member_ids(), vec![1, 2]);
    assert_eq!(arx.try_recv(), Ok("0".to_string()));
}

#[test]
fn failed_member_is_removed_after_sweep() {
    let (a, arx) = Client::new(1);
    let (b, mut brx) = Client::new(2);
    let (mut g, _grx) = Group::new(a);
    g.add_client(b).unwrap();
    drop(arx);
    let results = g.forward(&"m".to_string());
    assert_eq!(
        results,
        vec![Err(WsError::ChannelClosed(ChannelType::Client)), Ok(Delivery::Queued)]
    );
    assert_eq!(g.member_ids(), vec![2]);
    assert_eq!(brx.try_recv(), Ok("m".to_string()));
}
