use tokio::sync::mpsc::error::TryRecvError;
use wsbroker::hub::reader_step;
use wsbroker::{
    ChannelType, Client, Delivery, Envelope, FnRequest, Frame, Hub, Param, ParamError, Primitive,
    ReaderAction, Routed, WsError,
};

fn request(name: &str, params: Vec<Param>) -> FnRequest {
    FnRequest { function_name: name.to_string(), params }
}

#[test]
fn new_hub_is_empty() {
    let (hub, _rx) = Hub::<u32>::new("/chat");
    assert_eq!(hub.name(), "/chat");
    assert!(hub.group(1).is_none());
}

#[test]
fn two_clients_see_broadcasts_in_order() {
    let (mut hub, mut control) = Hub::<u32>::new("chat");
    let (a, mut arx) = Client::new(1);
    let (b, mut brx) = Client::new(2);
    let (serial, mut grx) = hub.connect_to_group(5, a).expect("group created");
    assert!(hub.connect_to_group(5, b).is_none());

    assert_eq!(hub.write_to_channel(5, "{\"n\":1}".to_string()), Ok(Delivery::Queued));
    assert_eq!(hub.write_to_channel(5, "{\"n\":2}".to_string()), Ok(Delivery::Queued));
    for _ in 0..2 {
        let envelope = control.try_recv().unwrap();
        assert_eq!(envelope.group_id, 5);
        assert_eq!(hub.dispatch_channel_message(envelope), Routed::Queued);
    }
    for _ in 0..2 {
        let message = grx.try_recv().unwrap();
        assert!(hub.forward(5, serial, &message).is_some());
    }
    assert_eq!(arx.try_recv(), Ok("{\"n\":1}".to_string()));
    assert_eq!(arx.try_recv(), Ok("{\"n\":2}".to_string()));
    assert_eq!(brx.try_recv(), Ok("{\"n\":1}".to_string()));
    assert_eq!(brx.try_recv(), Ok("{\"n\":2}".to_string()));
}

#[test]
fn unknown_function_is_dropped_silently() {
    let (mut hub, _control) = Hub::<u32>::new("chat");
    hub.register("known", 3);
    let (a, mut arx) = Client::new(1);
    let _ = hub.connect_to_group(4, a);
    let frame = Frame::Request(request("missing_fn", vec![]));
    assert_eq!(reader_step(&frame), ReaderAction::Dispatch);
    let out = hub.dispatch_function(request("missing_fn", vec![]));
    assert_eq!(out, Err(WsError::InvalidFunction("missing_fn".to_string())));
    assert_eq!(hub.group(4).unwrap().member_ids(), vec![1]);
    assert_eq!(arx.try_recv(), Err(TryRecvError::Empty));
}

#[test]
fn known_function_resolves_with_params() {
    let (mut hub, _control) = Hub::<u32>::new("chat");
    hub.register("add", 11);
    let out = hub.dispatch_function(request("add", vec![Param::Number(Some(2)), Param::Bool(true)]));
    let (handler, params) = out.unwrap();
    assert_eq!(*handler, 11);
    assert_eq!(params, vec![Primitive::Number(2), Primitive::Bool(true)]);
}

#[test]
fn invalid_params_abort_invocation() {
    let (mut hub, _control) = Hub::<u32>::new("chat");
    hub.register("add", 11);
    let out = hub.dispatch_function(request("add", vec![Param::Number(Some(1 << 33))]));
    assert_eq!(out, Err(WsError::InvalidParams(ParamError::OutOfRange)));
}

#[test]
fn set_registry_replaces_handlers() {
    let (mut hub, _control) = Hub::<u32>::new("chat");
    hub.register("old", 1);
    let mut registry = wsbroker::Registry::new();
    registry.add_fn("new", 2);
    hub.set_registry(registry);
    assert!(hub.dispatch_function(request("old", vec![])).is_err());
    assert_eq!(*hub.dispatch_function(request("new", vec![])).unwrap().0, 2);
}

#[test]
fn sole_member_leaving_purges_group_and_rejoin_is_fresh() {
    let (mut hub, _control) = Hub::<u32>::new("chat");
    let (a, mut arx) = Client::new(1);
    let _ = hub.connect_to_group(7, a);
    assert!(hub.remove_from_group(7, 1));
    assert!(hub.group(7).is_none());
    assert_eq!(arx.try_recv(), Err(TryRecvError::Disconnected));
    let (c, _crx) = Client::new(3);
    assert!(hub.connect_to_group(7, c).is_some());
    assert_eq!(hub.group(7).unwrap().member_ids(), vec![3]);
}

#[test]
fn leaving_a_populated_group_keeps_it() {
    let (mut hub, _control) = Hub::<u32>::new("chat");
    let (a, _arx) = Client::new(1);
    let (b, _brx) = Client::new(2);
    let _ = hub.connect_to_group(2, a);
    let _ = hub.connect_to_group(2, b);
    assert!(!hub.remove_from_group(2, 1));
    assert_eq!(hub.group(2).unwrap().member_ids(), vec![2]);
    assert!(!hub.remove_from_group(8, 1));
}

#[test]
fn closed_group_queue_purges_group_only() {
    let (mut hub, _control) = Hub::<u32>::new("chat");
    let (a, mut arx) = Client::new(1);
    let (b, mut brx) = Client::new(2);
    let (c, _crx) = Client::new(3);
    let (_, grx) = hub.connect_to_group(5, a).unwrap();
    let _ = hub.connect_to_group(5, b);
    let _ = hub.connect_to_group(6, c);
    drop(grx);
    let envelope = Envelope { group_id: 5, json: "x".to_string() };
    assert_eq!(hub.dispatch_channel_message(envelope), Routed::GroupPurged);
    assert!(hub.group(5).is_none());
    assert!(hub.group(6).is_some());
    assert_eq!(arx.try_recv(), Err(TryRecvError::Disconnected));
    assert_eq!(brx.try_recv(), Err(TryRecvError::Disconnected));
}

#[test]
fn envelope_for_missing_group_is_dropped() {
    let (mut hub, _control) = Hub::<u32>::new("chat");
    let envelope = Envelope { group_id: 12, json: "x".to_string() };
    assert_eq!(hub.dispatch_channel_message(envelope), Routed::NoSuchGroup);
}

#[test]
fn full_group_queue_drops_payload() {
    let (mut hub, _control) = Hub::<u32>::new("chat");
    let (a, _arx) = Client::new(1);
    let (_, _grx) = hub.connect_to_group(5, a).unwrap();
    for _ in 0..wsbroker::group::GROUP_QUEUE_CAPACITY {
        let envelope = Envelope { group_id: 5, json: "x".to_string() };
        assert_eq!(hub.dispatch_channel_message(envelope), Routed::Queued);
    }
    let envelope = Envelope { group_id: 5, json: "y".to_string() };
    assert_eq!(hub.dispatch_channel_message(envelope), Routed::Dropped);
    assert!(hub.group(5).is_some());
}

#[test]
fn closed_control_queue_purges_every_group() {
    let (mut hub, control) = Hub::<u32>::new("chat");
    let (a, mut arx) = Client::new(1);
    let (b, mut brx) = Client::new(2);
    let _ = hub.connect_to_group(1, a);
    let _ = hub.connect_to_group(2, b);
    drop(control);
    assert_eq!(
        hub.write_to_channel(1, "x".to_string()),
        Err(WsError::ChannelClosed(ChannelType::Hub))
    );
    assert!(hub.group(1).is_none());
    assert!(hub.group(2).is_none());
    assert_eq!(arx.try_recv(), Err(TryRecvError::Disconnected));
    assert_eq!(brx.try_recv(), Err(TryRecvError::Disconnected));
}

#[test]
fn full_control_queue_drops_payload() {
    let (mut hub, _control) = Hub::<u32>::new("chat");
    for _ in 0..wsbroker::hub::HUB_QUEUE_CAPACITY {
        assert_eq!(hub.write_to_channel(1, "x".to_string()), Ok(Delivery::Queued));
    }
    assert_eq!(hub.write_to_channel(1, "y".to_string()), Ok(Delivery::Dropped));
}

#[test]
fn stale_forwarder_does_nothing() {
    let (mut hub, _control) = Hub::<u32>::new("chat");
    let (a, mut arx) = Client::new(1);
    let (serial, _grx) = hub.connect_to_group(5, a).unwrap();
    assert!(hub.remove_from_group(5, 1));
    let (c, mut crx) = Client::new(3);
    let (serial2, _grx2) = hub.connect_to_group(5, c).unwrap();
    assert_ne!(serial, serial2);
    assert!(hub.forward(5, serial, &"old".to_string()).is_none());
    assert_eq!(crx.try_recv(), Err(TryRecvError::Empty));
    assert_eq!(arx.try_recv(), Err(TryRecvError::Disconnected));
    assert!(hub.forward(9, serial2, &"x".to_string()).is_none());
}

#[test]
fn reader_steps() {
    assert_eq!(reader_step(&Frame::Malformed), ReaderAction::Skip);
    assert_eq!(reader_step(&Frame::Closed), ReaderAction::Disconnect);
    assert_eq!(reader_step(&Frame::Unsupported), ReaderAction::Disconnect);
    assert_eq!(reader_step(&Frame::Failed), ReaderAction::Disconnect);
}
