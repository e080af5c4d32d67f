use ntl::delivery::DeliveryClass;
use ntl::order::{bytes_less, same_bytes, same_text, text_less};
use ntl::scalar::Scalar;
use ntl::signal::SignalType;
use ntl::store::Affinity;
use ntl::testing::{test_acknowledged_signal, test_node_id, test_signal, test_signal_from, TEST_EPOCH_NS};
use ntl::text::{hex_prefix, le_bytes};
use ntl::time::saturating_product;

fn f(x: f32) -> Scalar {
    Scalar::from_bits(x.to_bits())
}

#[test]
fn texts_and_bytes_are_ordered_as_the_host_orders_them() {
    let samples = ["", "a", "ab", "b", "B", "\u{e9}", "\u{ffff}", "\u{10000}"];
    for a in samples {
        for b in samples {
            assert_eq!(text_less(a, b), a < b, "{a:?} {b:?}");
            assert_eq!(same_text(a, b), a == b);
            let (x, y) = (a.as_bytes().to_vec(), b.as_bytes().to_vec());
            assert_eq!(bytes_less(&x, &y), x < y);
            assert_eq!(same_bytes(&x, &y), x == y);
        }
    }
}

#[test]
fn bytes_are_written_out() {
    assert_eq!(hex_prefix(&vec![0x0f, 0xa0, 0xff], 2), "0fa0");
    assert_eq!(hex_prefix(&vec![0x0f], 8), "0f");
    assert_eq!(le_bytes(0x0102_0304_0506_0708), 0x0102_0304_0506_0708u64.to_le_bytes().to_vec());
}

#[test]
fn products_saturate() {
    assert_eq!(saturating_product(3, 4), 12);
    assert_eq!(saturating_product(u64::MAX, 2), u64::MAX);
    assert_eq!(saturating_product(0, u64::MAX), 0);
}

#[test]
fn fractions_of_the_unit_are_exact() {
    for k in [0u32, 1, 2, 0x7f_ffff, 0x80_0000, 0xff_ffff] {
        assert_eq!(Scalar::unit_fraction(k), f(k as f32 / 16_777_216.0));
    }
}

#[test]
fn affinity_counts_by_name() {
    let mut affinity = Affinity::new();
    affinity.bump("Data");
    affinity.bump("Data");
    affinity.bump("Query");
    assert_eq!(affinity.get("Data"), 2);
    assert_eq!(affinity.get("Event"), 0);
    assert_eq!(affinity.total(), 3);
    assert_eq!(affinity.len(), 2);
    assert_eq!(affinity.entry(0), ("Data".to_string(), 2));
    affinity.insert("Data", u64::MAX);
    affinity.bump("Data");
    assert_eq!(affinity.get("Data"), u64::MAX);
}

#[test]
fn test_signals_are_deterministic() {
    let signal = test_signal(SignalType::Query, f(0.4));
    assert_eq!(signal.signal_type, SignalType::Query);
    assert_eq!(signal.weight, f(0.4));
    assert_eq!(signal.timestamp, TEST_EPOCH_NS);
    assert_eq!(signal.signature, vec![0u8; 64]);
    assert_eq!(signal.origin, test_node_id(0));
    assert_eq!(signal.id, test_signal(SignalType::Query, f(0.4)).id);

    let other = test_signal_from(SignalType::Data, f(0.4), 3);
    assert_eq!(other.origin, test_node_id(3));
    assert_ne!(other.id, signal.id);

    let acknowledged = test_acknowledged_signal(f(0.4));
    assert_eq!(acknowledged.delivery, DeliveryClass::Acknowledged);
    assert!(acknowledged.requires_receipt());
}
