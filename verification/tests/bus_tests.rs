use dbus::connection::{CallOutcome, Connection};
use dbus::message::{Message, MessageKind};
use dbus::signal::{matching_indices, SignalFilter};
use dbus::stdintf::{
    reply_to_string, reply_to_variant, value_to_managed_objects, value_to_prop_map,
    Introspectable, ObjectManagerInterfacesAdded, ObjectManagerInterfacesRemoved, Peer,
    PropertiesPropertiesChanged,
};
use dbus::value::Value;
use dbus::variant::DynamicValue;
use dbus::Error;

fn sig(text: &str) -> Vec<u8> {
    text.as_bytes().to_vec()
}

fn s(text: &str) -> String {
    String::from(text)
}

#[test]
fn serial_correlation_any_order() {
    let mut c = Connection::new();
    let s1 = c.send_call(s("d"), s("/p"), s("i"), s("m1"), vec![]);
    let s2 = c.send_call(s("d"), s("/p"), s("i"), s("m2"), vec![]);
    let s3 = c.send_call(s("d"), s("/p"), s("i"), s("m3"), vec![]);
    assert!(s1 != s2 && s2 != s3 && s1 != s3);
    // replies delivered out of order
    c.deliver(Message::method_return(101, s3, vec![Value::Byte(3)]));
    c.deliver(Message::method_return(102, s1, vec![Value::Byte(1)]));
    c.deliver(Message::method_return(103, s2, vec![Value::Byte(2)]));
    match c.take_reply(s1) {
        Some(CallOutcome::Replied(b)) => assert_eq!(b, vec![Value::Byte(1)]),
        other => panic!("wrong outcome for s1: {:?}", outcome_kind(&other)),
    }
    match c.take_reply(s2) {
        Some(CallOutcome::Replied(b)) => assert_eq!(b, vec![Value::Byte(2)]),
        other => panic!("wrong outcome for s2: {:?}", outcome_kind(&other)),
    }
    match c.take_reply(s3) {
        Some(CallOutcome::Replied(b)) => assert_eq!(b, vec![Value::Byte(3)]),
        other => panic!("wrong outcome for s3: {:?}", outcome_kind(&other)),
    }
    // each serial is retired once resolved
    assert!(c.take_reply(s1).is_none());
}

fn outcome_kind(o: &Option<CallOutcome>) -> &'static str {
    match o {
        None => "none",
        Some(CallOutcome::Replied(_)) => "replied",
        Some(CallOutcome::Failed(_, _)) => "failed",
    }
}

#[test]
fn timeout_releases_entry_and_spares_others() {
    let mut c = Connection::new();
    let s1 = c.send_call(s("d"), s("/p"), s("i"), s("slow"), vec![]);
    let s2 = c.send_call(s("d"), s("/p"), s("i"), s("fast"), vec![]);
    // the first call times out: its entry is released
    c.cancel(s1);
    assert!(!c.is_pending(s1));
    assert!(c.is_pending(s2));
    // a late reply to the timed-out call is dropped
    c.deliver(Message::method_return(7, s1, vec![Value::Byte(9)]));
    assert!(c.take_reply(s1).is_none());
    // the other call still resolves normally
    c.deliver(Message::method_return(8, s2, vec![Value::Boolean(true)]));
    match c.take_reply(s2) {
        Some(CallOutcome::Replied(b)) => assert_eq!(b, vec![Value::Boolean(true)]),
        other => panic!("wrong outcome: {:?}", outcome_kind(&other)),
    }
}

#[test]
fn error_reply_surfaces_bus_error() {
    let mut c = Connection::new();
    let s1 = c.send_call(s("d"), s("/p"), s("i"), s("m"), vec![]);
    c.deliver(Message::error_reply(
        9,
        s1,
        s("org.freedesktop.DBus.Error.Failed"),
        s("no such method"),
    ));
    match c.take_reply(s1) {
        Some(CallOutcome::Failed(name, desc)) => {
            assert_eq!(name, s("org.freedesktop.DBus.Error.Failed"));
            assert_eq!(desc, s("no such method"));
        }
        other => panic!("wrong outcome: {:?}", outcome_kind(&other)),
    }
}

#[test]
fn call_without_reply_times_out() {
    let c = Connection::new();
    let mut p = c.with_path(s("org.example"), s("/org/example"), 1000);
    match p.ping() {
        Err(Error::TimedOut) => {}
        other => panic!("expected a timeout, got {:?}", other.is_ok()),
    }
    // the connection stays usable afterwards
    match p.introspect() {
        Err(Error::TimedOut) => {}
        other => panic!("expected a timeout, got {:?}", other.is_ok()),
    }
}

#[test]
fn property_mapping_scenario() {
    // {"Color": Variant(String("red")), "Count": Variant(Int32(3))}
    let entries = vec![
        Value::DictEntry(
            Box::new(Value::Str(s("Color"))),
            Box::new(Value::Variant(Box::new(Value::Str(s("red"))))),
        ),
        Value::DictEntry(
            Box::new(Value::Str(s("Count"))),
            Box::new(Value::Variant(Box::new(Value::Int32(3)))),
        ),
    ];
    let map_value = Value::Array(sig("{sv}"), entries);
    let bytes = dbus::codec::encode_body(&vec![map_value]).expect("encode");
    let mut back =
        dbus::codec::decode_body(&bytes, &sig("a{sv}"), dbus::wire::Endian::Little).expect("decode");
    let m = value_to_prop_map(back.remove(0)).expect("prop map");
    assert_eq!(m.len(), 2);
    assert_eq!(m[0].0, s("Color"));
    assert_eq!(m[1].0, s("Count"));
    let count = m.into_iter().nth(1).unwrap().1;
    let unboxed = count.unbox_as(&sig("i")).expect("unbox");
    assert_eq!(unboxed, Value::Int32(3));
}

#[test]
fn property_get_wrong_type_fails() {
    // A reply variant holding a string, requested as an integer, fails
    // with a type mismatch instead of a garbage integer.
    let mut c = Connection::new();
    let serial = c.send_call(
        s("org.example.Widget"),
        s("/org/example/widget"),
        s("org.freedesktop.DBus.Properties"),
        s("Get"),
        vec![Value::Str(s("org.example.Widget")), Value::Str(s("Size"))],
    );
    c.deliver(Message::method_return(
        1,
        serial,
        vec![Value::Variant(Box::new(Value::Str(s("large"))))],
    ));
    let vals = match c.take_reply(serial) {
        Some(CallOutcome::Replied(b)) => b,
        other => panic!("wrong outcome: {:?}", outcome_kind(&other)),
    };
    let dv = reply_to_variant(vals).expect("one variant");
    match dv.unbox_as(&sig("i")) {
        Err(Error::TypeMismatch) => {}
        Ok(v) => panic!("type confusion: {:?}", v),
        Err(e) => panic!("wrong error: {:?}", e),
    }
}

#[test]
fn managed_objects_scenario() {
    // One path with two interfaces, one property each: three nested
    // levels decode with exact key counts.
    let prop = |name: &str, v: Value| {
        Value::DictEntry(
            Box::new(Value::Str(s(name))),
            Box::new(Value::Variant(Box::new(v))),
        )
    };
    let iface = |name: &str, p: Value| {
        Value::DictEntry(Box::new(Value::Str(s(name))), Box::new(Value::Array(sig("{sv}"), vec![p])))
    };
    let object = Value::DictEntry(
        Box::new(Value::ObjectPath(s("/org/example/thing"))),
        Box::new(Value::Array(
            sig("{sa{sv}}"),
            vec![
                iface("org.example.A", prop("PropA", Value::Uint32(1))),
                iface("org.example.B", prop("PropB", Value::Str(s("two")))),
            ],
        )),
    );
    let reply = Value::Array(sig("{oa{sa{sv}}}"), vec![object]);
    let bytes = dbus::codec::encode_body(&vec![reply]).expect("encode");
    let mut back = dbus::codec::decode_body(
        &bytes,
        &sig("a{oa{sa{sv}}}"),
        dbus::wire::Endian::Little,
    )
    .expect("decode");
    let objects = value_to_managed_objects(back.remove(0)).expect("managed objects");
    assert_eq!(objects.len(), 1);
    let (path, ifaces) = objects.into_iter().next().unwrap();
    assert_eq!(path, s("/org/example/thing"));
    assert_eq!(ifaces.len(), 2);
    for (name, props) in ifaces {
        assert!(name == s("org.example.A") || name == s("org.example.B"));
        assert_eq!(props.len(), 1);
    }
}

#[test]
fn introspect_reply_decodes() {
    let xml = s("<node><interface name=\"org.example\"/></node>");
    let vals = vec![Value::Str(xml.clone())];
    assert_eq!(reply_to_string(vals).expect("string"), xml);
    assert!(reply_to_string(vec![Value::Byte(1)]).is_err());
    assert!(reply_to_string(vec![]).is_err());
}

#[test]
fn signal_filter_matching() {
    let m = Message::signal(
        5,
        s("/org/example/widget"),
        s("org.freedesktop.DBus.Properties"),
        s("PropertiesChanged"),
        vec![],
    );
    let broad = SignalFilter {
        interface: s("org.freedesktop.DBus.Properties"),
        member: s("PropertiesChanged"),
        path: None,
        sender: None,
    };
    let narrow = SignalFilter {
        interface: s("org.freedesktop.DBus.Properties"),
        member: s("PropertiesChanged"),
        path: Some(s("/org/other")),
        sender: None,
    };
    let other = SignalFilter {
        interface: s("org.example"),
        member: s("PropertiesChanged"),
        path: None,
        sender: None,
    };
    assert!(broad.matches(&m));
    assert!(!narrow.matches(&m));
    assert!(!other.matches(&m));
    let subs = vec![narrow, broad, other];
    let hits = matching_indices(&subs, &m);
    assert_eq!(hits, vec![1]);
}

#[test]
fn properties_changed_roundtrip() {
    let changed = vec![(
        s("Volume"),
        DynamicValue::box_value(Value::Uint32(11)),
    )];
    let sigstruct = PropertiesPropertiesChanged {
        interface_name: s("org.example.Player"),
        changed_properties: changed,
        invalidated_properties: vec![s("Position")],
    };
    let mut body = Vec::new();
    sigstruct.append(&mut body);
    assert_eq!(body.len(), 3);
    let back = PropertiesPropertiesChanged::read(body).expect("read");
    assert_eq!(back.interface_name, s("org.example.Player"));
    assert_eq!(back.changed_properties.len(), 1);
    assert_eq!(back.changed_properties[0].0, s("Volume"));
    assert_eq!(back.invalidated_properties, vec![s("Position")]);
    assert_eq!(PropertiesPropertiesChanged::name(), "PropertiesChanged");
    assert_eq!(
        PropertiesPropertiesChanged::interface(),
        "org.freedesktop.DBus.Properties"
    );
}

#[test]
fn interfaces_added_roundtrip() {
    let added = ObjectManagerInterfacesAdded {
        object: s("/org/example/new"),
        interfaces: vec![(
            s("org.example.A"),
            vec![(s("P"), DynamicValue::box_value(Value::Boolean(true)))],
        )],
    };
    let mut body = Vec::new();
    added.append(&mut body);
    assert_eq!(body.len(), 2);
    let back = ObjectManagerInterfacesAdded::read(body).expect("read");
    assert_eq!(back.object, s("/org/example/new"));
    assert_eq!(back.interfaces.len(), 1);
    assert_eq!(ObjectManagerInterfacesAdded::name(), "InterfacesAdded");
}

#[test]
fn interfaces_removed_roundtrip() {
    let removed = ObjectManagerInterfacesRemoved {
        object: s("/org/example/old"),
        interfaces: vec![s("org.example.A"), s("org.example.B")],
    };
    let mut body = Vec::new();
    removed.append(&mut body);
    assert_eq!(body.len(), 2);
    let back = ObjectManagerInterfacesRemoved::read(body).expect("read");
    assert_eq!(back.object, s("/org/example/old"));
    assert_eq!(back.interfaces.len(), 2);
    assert_eq!(ObjectManagerInterfacesRemoved::name(), "InterfacesRemoved");
}

#[test]
fn exhausted_serials_fail_without_panicking() {
    let mut c = Connection::new();
    c.next_serial = u32::MAX;
    let mut p = c.with_path(s("org.example"), s("/"), 100);
    match Peer::ping(&mut p) {
        Err(Error::Disconnected) => {}
        other => panic!("expected disconnected, got {:?}", other.is_ok()),
    }
    match Introspectable::introspect(&mut p) {
        Err(Error::Disconnected) => {}
        other => panic!("expected disconnected, got {:?}", other.is_ok()),
    }
}

#[test]
fn signals_join_the_inbox() {
    let mut c = Connection::new();
    let m = Message::signal(3, s("/p"), s("org.example"), s("Changed"), vec![]);
    c.deliver(m);
    assert_eq!(c.inbox.len(), 1);
    assert_eq!(c.inbox[0].kind, MessageKind::Signal);
}

#[test]
fn outbox_carries_framed_calls() {
    let mut c = Connection::new();
    let serial = c.send_call(s("dest"), s("/path"), s("iface"), s("member"), vec![Value::Byte(1)]);
    assert_eq!(serial, 1);
    assert_eq!(c.outbox.len(), 1);
    let m = &c.outbox[0];
    assert_eq!(m.kind, MessageKind::Call);
    assert_eq!(m.serial, serial);
    assert_eq!(m.path, Some(s("/path")));
    assert_eq!(m.member, Some(s("member")));
    assert_eq!(m.body, vec![Value::Byte(1)]);
}

#[test]
fn frame_and_parse_call() {
    let m = Message::method_call(
        42,
        s("org.example.Dest"),
        s("/org/example/widget"),
        s("org.example.Widget"),
        s("Resize"),
        vec![Value::Uint32(800), Value::Str(s("px"))],
    );
    let bytes = dbus::message::frame_message(&m).expect("frame");
    assert_eq!(bytes[0], 108); // little-endian marker
    assert_eq!(bytes[1], 1); // call
    assert_eq!(bytes[3], 1); // protocol version
    let back = dbus::message::parse_message(&bytes).expect("parse");
    assert_eq!(back.kind, MessageKind::Call);
    assert_eq!(back.serial, 42);
    assert_eq!(back.path, Some(s("/org/example/widget")));
    assert_eq!(back.interface, Some(s("org.example.Widget")));
    assert_eq!(back.member, Some(s("Resize")));
    assert_eq!(back.destination, Some(s("org.example.Dest")));
    assert_eq!(back.body, vec![Value::Uint32(800), Value::Str(s("px"))]);
}

#[test]
fn frame_and_parse_error_reply() {
    let m = Message::error_reply(7, 3, s("org.freedesktop.DBus.Error.Failed"), s("boom"));
    let bytes = dbus::message::frame_message(&m).expect("frame");
    assert_eq!(bytes[1], 3); // error
    let back = dbus::message::parse_message(&bytes).expect("parse");
    assert_eq!(back.kind, MessageKind::Error);
    assert_eq!(back.reply_serial, Some(3));
    assert_eq!(back.error_name, Some(s("org.freedesktop.DBus.Error.Failed")));
    assert_eq!(back.body, vec![Value::Str(s("boom"))]);
}

#[test]
fn frame_and_parse_empty_body_signal() {
    let m = Message::signal(9, s("/p"), s("org.example"), s("Ping"), vec![]);
    let bytes = dbus::message::frame_message(&m).expect("frame");
    assert_eq!(bytes[1], 4); // signal
    assert_eq!(bytes.len() % 8, 0); // empty body: frame ends at the boundary
    let back = dbus::message::parse_message(&bytes).expect("parse");
    assert_eq!(back.kind, MessageKind::Signal);
    assert_eq!(back.serial, 9);
    assert!(back.body.is_empty());
    assert_eq!(back.member, Some(s("Ping")));
}

#[test]
fn truncated_frame_rejected() {
    let m = Message::signal(9, s("/p"), s("org.example"), s("Ping"), vec![]);
    let bytes = dbus::message::frame_message(&m).expect("frame");
    let short = bytes[..10].to_vec();
    assert!(dbus::message::parse_message(&short).is_err());
}

#[test]
fn introspect_succeeds_through_conn_path() {
    let xml = s("<node><interface name=\"org.example\"/></node>");
    let mut c = Connection::new();
    // the transport delivers the reply to the serial the call will use
    c.receive(Message::method_return(50, c.next_serial, vec![Value::Str(xml.clone())]));
    let mut p = c.with_path(s("org.example"), s("/org/example"), 1000);
    assert_eq!(p.introspect().expect("introspect"), xml);
}

#[test]
fn get_succeeds_through_conn_path() {
    let mut c = Connection::new();
    c.receive(Message::method_return(
        50,
        c.next_serial,
        vec![Value::Variant(Box::new(Value::Int32(3)))],
    ));
    let mut p = c.with_path(s("org.example.Widget"), s("/org/example/widget"), 1000);
    let v = p.get("org.example.Widget", "Count", &sig("i")).expect("get");
    assert_eq!(v, Value::Int32(3));
}

#[test]
fn get_wrong_type_fails_through_conn_path() {
    // The reply variant holds a string; requested as an integer, the call
    // fails with a type mismatch instead of a garbage integer.
    let mut c = Connection::new();
    c.receive(Message::method_return(
        50,
        c.next_serial,
        vec![Value::Variant(Box::new(Value::Str(s("small"))))],
    ));
    let mut p = c.with_path(s("org.example.Widget"), s("/org/example/widget"), 1000);
    match p.get("org.example.Widget", "Size", &sig("i")) {
        Err(Error::TypeMismatch) => {}
        Ok(v) => panic!("type confusion: {:?}", v),
        Err(e) => panic!("wrong error: {:?}", e),
    }
}

#[test]
fn get_all_succeeds_through_conn_path() {
    let entries = vec![
        Value::DictEntry(
            Box::new(Value::Str(s("Color"))),
            Box::new(Value::Variant(Box::new(Value::Str(s("red"))))),
        ),
        Value::DictEntry(
            Box::new(Value::Str(s("Count"))),
            Box::new(Value::Variant(Box::new(Value::Int32(3)))),
        ),
    ];
    let mut c = Connection::new();
    c.receive(Message::method_return(
        50,
        c.next_serial,
        vec![Value::Array(sig("{sv}"), entries)],
    ));
    let mut p = c.with_path(s("org.example.Widget"), s("/org/example/widget"), 1000);
    let m = p.get_all("org.example.Widget").expect("get_all");
    assert_eq!(m.len(), 2);
    assert_eq!(m[0].0, s("Color"));
    assert_eq!(m[1].0, s("Count"));
    let count = m.into_iter().nth(1).unwrap().1;
    assert_eq!(count.unbox_as(&sig("i")).expect("unbox"), Value::Int32(3));
}

#[test]
fn ping_and_set_succeed_through_conn_path() {
    let mut c = Connection::new();
    c.receive(Message::method_return(50, c.next_serial, vec![]));
    let mut p = c.with_path(s("org.example"), s("/org/example"), 1000);
    p.ping().expect("ping");
    // next call uses the next serial
    let mut c = p.into_connection();
    c.receive(Message::method_return(51, c.next_serial, vec![]));
    let mut p = c.with_path(s("org.example"), s("/org/example"), 1000);
    p.set("org.example.Widget", "Count", Value::Int32(4)).expect("set");
    // the framed Set call carries the variant-boxed value
    let c = p.into_connection();
    let last = c.outbox.last().expect("outbox");
    assert_eq!(last.member, Some(s("Set")));
    assert_eq!(
        last.body,
        vec![
            Value::Str(s("org.example.Widget")),
            Value::Str(s("Count")),
            Value::Variant(Box::new(Value::Int32(4))),
        ]
    );
}

#[test]
fn bus_error_surfaces_through_conn_path() {
    let mut c = Connection::new();
    c.receive(Message::error_reply(
        50,
        c.next_serial,
        s("org.freedesktop.DBus.Error.UnknownMethod"),
        s("no Frobnicate here"),
    ));
    let mut p = c.with_path(s("org.example"), s("/org/example"), 1000);
    match p.ping() {
        Err(Error::Bus(name, desc)) => {
            assert_eq!(name, s("org.freedesktop.DBus.Error.UnknownMethod"));
            assert_eq!(desc, s("no Frobnicate here"));
        }
        other => panic!("expected a bus error, got ok={:?}", other.is_ok()),
    }
}

#[test]
fn managed_objects_succeed_through_conn_path() {
    let prop = |name: &str, v: Value| {
        Value::DictEntry(
            Box::new(Value::Str(s(name))),
            Box::new(Value::Variant(Box::new(v))),
        )
    };
    let iface = |name: &str, pr: Value| {
        Value::DictEntry(Box::new(Value::Str(s(name))), Box::new(Value::Array(sig("{sv}"), vec![pr])))
    };
    let object = Value::DictEntry(
        Box::new(Value::ObjectPath(s("/org/example/thing"))),
        Box::new(Value::Array(
            sig("{sa{sv}}"),
            vec![
                iface("org.example.A", prop("PropA", Value::Uint32(1))),
                iface("org.example.B", prop("PropB", Value::Str(s("two")))),
            ],
        )),
    );
    let mut c = Connection::new();
    c.receive(Message::method_return(
        50,
        c.next_serial,
        vec![Value::Array(sig("{oa{sa{sv}}}"), vec![object])],
    ));
    let mut p = c.with_path(s("org.example"), s("/"), 1000);
    let objects = p.get_managed_objects().expect("managed objects");
    assert_eq!(objects.len(), 1);
    assert_eq!(objects[0].0, s("/org/example/thing"));
    assert_eq!(objects[0].1.len(), 2);
    for (_, props) in &objects[0].1 {
        assert_eq!(props.len(), 1);
    }
}

#[test]
fn timeout_then_next_call_resolves_through_conn_path() {
    // A timed-out call releases its entry; the next call on the same
    // connection registers under a fresh serial and resolves normally.
    let c = Connection::new();
    let mut p = c.with_path(s("org.example"), s("/"), 1000);
    match p.ping() {
        Err(Error::TimedOut) => {}
        other => panic!("expected a timeout, got ok={:?}", other.is_ok()),
    }
    let mut c = p.into_connection();
    assert!(c.pending.is_empty()); // the entry was released
    c.receive(Message::method_return(9, c.next_serial, vec![]));
    let mut p = c.with_path(s("org.example"), s("/"), 1000);
    p.ping().expect("second call resolves");
}

#[test]
fn call_consumes_only_its_own_answer() {
    let mut c = Connection::new();
    // a frame for a later serial sits in the queue already
    let later = c.next_serial + 1;
    c.receive(Message::method_return(60, later, vec![Value::Byte(2)]));
    c.receive(Message::method_return(61, c.next_serial, vec![]));
    let mut p = c.with_path(s("org.example"), s("/"), 1000);
    p.ping().expect("first call");
    let mut c = p.into_connection();
    assert_eq!(c.incoming.len(), 1); // the other frame is still queued
    c.receive(Message::method_return(62, c.next_serial, vec![Value::Byte(9)]));
    // second call resolves against ITS answer, not the leftover one...
    let mut p = c.with_path(s("org.example"), s("/"), 1000);
    match p.method_call("org.example", "M", vec![], &sig("y")) {
        Ok(vals) => assert_eq!(vals, vec![Value::Byte(2)]),
        Err(e) => panic!("unexpected error: {:?}", e),
    }
}

#[test]
fn signal_read_rejects_wrong_element_signature() {
    // A body of signature sa{sy}as: the dictionary's element signature is
    // not {sv}, so the read must fail even when the dictionary is empty.
    let body = vec![
        Value::Str(s("org.example")),
        Value::Array(sig("{sy}"), vec![]),
        Value::Array(sig("s"), vec![]),
    ];
    match PropertiesPropertiesChanged::read(body) {
        Err(Error::TypeMismatch) => {}
        Ok(_) => panic!("accepted a mismatched element signature"),
        Err(e) => panic!("wrong error: {:?}", e),
    }
}

#[test]
fn interfaces_added_rejects_wrong_element_signature() {
    // An empty interface array of element signature {sa{sy}} is not of
    // the interface-mapping type and must be rejected.
    let body = vec![
        Value::ObjectPath(s("/org/example/new")),
        Value::Array(sig("{sa{sy}}"), vec![]),
    ];
    match ObjectManagerInterfacesAdded::read(body) {
        Err(Error::TypeMismatch) => {}
        Ok(_) => panic!("accepted a mismatched element signature"),
        Err(e) => panic!("wrong error: {:?}", e),
    }
}

#[test]
fn string_list_rejects_wrong_element_signature() {
    let body = vec![
        Value::ObjectPath(s("/org/example/old")),
        Value::Array(sig("y"), vec![]),
    ];
    assert!(ObjectManagerInterfacesRemoved::read(body).is_err());
}
