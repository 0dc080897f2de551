use wol_registry::device::Device;
use wol_registry::json::{parse_devices, serialize_devices};
use wol_registry::store::{add_device, delete_device, load_devices, update_device, StoreError};

fn device(id: &str, name: &str, mac: &str, addr: Option<&str>, port: Option<u16>) -> Device {
    Device {
        id: String::from(id),
        name: String::from(name),
        mac: String::from(mac),
        target_addr: addr.map(String::from),
        port,
    }
}

#[test]
fn missing_document_loads_empty_list() {
    let r = load_devices(None).unwrap();
    assert!(r.is_empty());
}

#[test]
fn garbage_document_is_a_deserialization_error() {
    let text = String::from("not json at all");
    assert!(matches!(
        load_devices(Some(&text)),
        Err(StoreError::DeserializationError)
    ));
    let text = String::from("{\"id\":\"x\"}");
    assert!(matches!(
        load_devices(Some(&text)),
        Err(StoreError::DeserializationError)
    ));
}

#[test]
fn serialized_form_is_exact() {
    let l = vec![device("i1", "desk", "AA:BB:CC:DD:EE:FF", Some("10.0.0.9"), Some(7))];
    let text = serialize_devices(&l);
    assert_eq!(
        text,
        "[{\"id\":\"i1\",\"name\":\"desk\",\"mac\":\"AA:BB:CC:DD:EE:FF\",\"targetAddr\":\"10.0.0.9\",\"port\":7}]"
    );
    let l = vec![device("i2", "shelf", "00:11:22:33:44:55", None, None)];
    let text = serialize_devices(&l);
    assert_eq!(
        text,
        "[{\"id\":\"i2\",\"name\":\"shelf\",\"mac\":\"00:11:22:33:44:55\"}]"
    );
    let empty: Vec<Device> = Vec::new();
    assert_eq!(serialize_devices(&empty), "[]");
}

#[test]
fn round_trip_keeps_lists_equal() {
    let l = vec![
        device("a", "desk", "AA:BB:CC:DD:EE:FF", Some("10.0.0.9"), Some(7)),
        device("b", "shelf", "00:11:22:33:44:55", None, None),
        device("c", "attic", "0a:1b:2c:3d:4e:5f", Some("host.local"), None),
        device("d", "cellar", "ff:ee:dd:cc:bb:aa", None, Some(65535)),
    ];
    let text = serialize_devices(&l);
    let back = load_devices(Some(&text)).unwrap();
    assert_eq!(back, l);
    assert!(back[1].target_addr.is_none());
    assert!(back[1].port.is_none());
    assert!(back[2].port.is_none());
}

#[test]
fn round_trip_keeps_odd_names() {
    let l = vec![device(
        "x",
        "quote \" backslash \\ newline \n tab \t nul \u{0} emoji \u{1F980} end",
        "AA:BB:CC:DD:EE:FF",
        None,
        None,
    )];
    let text = serialize_devices(&l);
    let back = load_devices(Some(&text)).unwrap();
    assert_eq!(back, l);
}

#[test]
fn round_trip_of_empty_list() {
    let empty: Vec<Device> = Vec::new();
    let text = serialize_devices(&empty);
    let back = load_devices(Some(&text)).unwrap();
    assert!(back.is_empty());
}

#[test]
fn create_discards_draft_id_and_never_collides() {
    let draft1 = device("forged-id", "one", "AA:BB:CC:DD:EE:FF", None, None);
    let (text1, l1) = add_device(None, draft1).unwrap();
    assert_eq!(l1.len(), 1);
    assert_ne!(l1[0].id, "forged-id");
    assert_eq!(l1[0].id.chars().count(), 36);

    let draft2 = device("forged-id", "two", "00:11:22:33:44:55", None, None);
    let (_text2, l2) = add_device(Some(&text1), draft2).unwrap();
    assert_eq!(l2.len(), 2);
    assert_ne!(l2[0].id, l2[1].id);
    assert_ne!(l2[1].id, "forged-id");
    assert_eq!(l2[0], l1[0]);
    assert_eq!(l2[1].name, "two");
}

#[test]
fn update_of_unknown_id_fails_not_found_and_changes_nothing() {
    let l = vec![device("a", "desk", "AA:BB:CC:DD:EE:FF", None, None)];
    let text = serialize_devices(&l);
    let r = update_device(Some(&text), device("ghost", "new", "00:11:22:33:44:55", None, None));
    match r {
        Err(StoreError::NotFound { id }) => assert_eq!(id, "ghost"),
        _ => panic!("expected NotFound"),
    }
    assert_eq!(load_devices(Some(&text)).unwrap(), l);
}

#[test]
fn update_replaces_in_place() {
    let l = vec![
        device("a", "desk", "AA:BB:CC:DD:EE:FF", None, None),
        device("b", "shelf", "00:11:22:33:44:55", None, None),
        device("c", "attic", "0a:1b:2c:3d:4e:5f", None, None),
    ];
    let text = serialize_devices(&l);
    let updated = device("b", "renamed", "00:11:22:33:44:55", Some("10.0.0.2"), Some(9));
    let (newtext, nl) = update_device(Some(&text), updated.clone()).unwrap();
    assert_eq!(nl.len(), 3);
    assert_eq!(nl[0], l[0]);
    assert_eq!(nl[1], updated);
    assert_eq!(nl[2], l[2]);
    assert_eq!(load_devices(Some(&newtext)).unwrap(), nl);
}

#[test]
fn delete_of_unknown_id_fails_not_found() {
    let l = vec![device("a", "desk", "AA:BB:CC:DD:EE:FF", None, None)];
    let text = serialize_devices(&l);
    let missing = String::from("ghost");
    let r = delete_device(Some(&text), &missing);
    match r {
        Err(StoreError::NotFound { id }) => assert_eq!(id, "ghost"),
        _ => panic!("expected NotFound"),
    }
    let none_id = String::from("a");
    assert!(matches!(
        delete_device(None, &none_id),
        Err(StoreError::NotFound { .. })
    ));
}

#[test]
fn delete_removes_exactly_the_matching_entry() {
    let l = vec![
        device("a", "desk", "AA:BB:CC:DD:EE:FF", None, None),
        device("b", "shelf", "00:11:22:33:44:55", None, None),
        device("c", "attic", "0a:1b:2c:3d:4e:5f", None, None),
    ];
    let text = serialize_devices(&l);
    let target = String::from("b");
    let (newtext, nl) = delete_device(Some(&text), &target).unwrap();
    assert_eq!(nl.len(), 2);
    assert_eq!(nl[0], l[0]);
    assert_eq!(nl[1], l[2]);
    assert!(nl.iter().all(|d| d.id != "b"));
    assert_eq!(load_devices(Some(&newtext)).unwrap(), nl);
}

#[test]
fn parser_rejects_near_misses() {
    assert!(parse_devices("[{\"id\":\"a\",\"name\":\"n\",\"mac\":\"m\"}").is_none());
    assert!(parse_devices("[{\"id\":\"a\",\"name\":\"n\",\"mac\":\"m\"}]x").is_none());
    assert!(parse_devices("[{\"id\":\"a\",\"name\":\"n\"}]").is_none());
    assert!(parse_devices("[{\"id\":\"a\",\"name\":\"n\",\"mac\":\"m\",\"port\":70000}]").is_none());
    assert!(parse_devices("[{\"id\":\"a\",\"name\":\"n\",\"mac\":\"m\",\"port\":007}]").is_none());
    assert!(parse_devices("[]").map(|v| v.len()) == Some(0));
}

#[test]
fn port_digits_round_trip() {
    for p in [0u16, 1, 9, 10, 99, 6553, 65535] {
        let l = vec![device("i", "n", "AA:BB:CC:DD:EE:FF", None, Some(p))];
        let text = serialize_devices(&l);
        let back = parse_devices(&text).unwrap();
        assert_eq!(back[0].port, Some(p));
    }
}
