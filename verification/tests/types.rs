use meshbus::types::{LinkId, MonoTime, NodeId};

#[test]
fn node_id_display_is_fixed_width_hex() {
    let mut bytes = [0_u8; 32];
    bytes[0] = 0x0a;
    bytes[31] = 0xff;

    let rendered = NodeId::from_bytes(bytes).to_string();

    assert_eq!(rendered.len(), 64);
    assert!(rendered.starts_with("0a00"));
    assert!(rendered.ends_with("00ff"));
}

#[test]
fn node_ids_keep_their_bytes_and_order() {
    let mut low = [0_u8; 32];
    low[31] = 9;
    let mut high = [0_u8; 32];
    high[0] = 1;
    let low = NodeId::from_bytes(low);
    let high = NodeId::from_bytes(high);

    assert_eq!(low.as_bytes()[31], 9);
    assert!(low < high);
    assert_ne!(low, high);
    assert_eq!(NodeId::default().as_bytes(), &[0_u8; 32]);
    assert_eq!(NodeId::default().to_string(), "0".repeat(64));
}

#[test]
fn links_and_times_keep_their_numbers() {
    assert_eq!(LinkId::new(u64::MAX).get(), u64::MAX);
    assert!(LinkId::new(1) < LinkId::new(2));
    assert_eq!(MonoTime::zero().as_millis(), 0);
    assert_eq!(MonoTime::default(), MonoTime::zero());
    assert_eq!(MonoTime::from_millis(17).as_millis(), 17);
    assert!(MonoTime::zero() < MonoTime::from_millis(1));
}
