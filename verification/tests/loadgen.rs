//! Blocks of the traffic generator.

use h2core::hpack::Decoder;
use h2core::loadgen::request_block;

#[test]
fn a_request_is_these_bytes() {
    let mut want = vec![0x82, 0x87, 0x84, 0x40, 13];
    want.extend_from_slice(b"x-load-000042");
    want.push(20);
    want.extend_from_slice(b"imsi-000000000001042");
    want.push(0xbe);
    assert_eq!(request_block(1042), want);
}

#[test]
fn every_request_refers_to_what_it_inserted() {
    let mut d = Decoder::new_exact();
    for n in [0, 1, 999, 1000, 123_456_789_012_345, u64::MAX] {
        let f = d.decode(&request_block(n)).unwrap();
        assert_eq!(f.len(), 5);
        assert_eq!(f[0].value_str(), "GET");
        assert_eq!(f[3], f[4]);
        assert_eq!(f[3].name_str(), format!("x-load-{:06}", n % 1000));
        assert_eq!(f[3].value_str(), format!("imsi-{n:015}"));
    }
}
