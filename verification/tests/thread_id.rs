//! The written form of thread ids.

use reverse_search::thread_id::ThreadId;

#[test]
fn ids_are_written_with_hyphens() {
    let id = ThreadId {
        value: 0x0123_4567_89ab_cdef_fedc_ba98_7654_3210,
    };
    assert_eq!(id.to_string(), "01234567-89ab-cdef-fedc-ba9876543210");
    assert_eq!(
        ThreadId { value: 0 }.to_string(),
        "00000000-0000-0000-0000-000000000000"
    );
    assert_eq!(
        ThreadId { value: u128::MAX }.to_string(),
        "ffffffff-ffff-ffff-ffff-ffffffffffff"
    );
}

#[test]
fn ids_are_read_back() {
    for value in [0, 1, 0xdead_beef, u128::MAX / 3, u128::MAX] {
        let id = ThreadId { value };
        assert_eq!(ThreadId::from_string(&id.to_string()), Some(id));
        assert_eq!(
            ThreadId::from_string(&id.to_string().to_uppercase()),
            Some(id)
        );
    }
}

#[test]
fn other_texts_are_no_ids() {
    for text in [
        "",
        "00000000-0000-0000-0000-00000000000",
        "00000000-0000-0000-0000-0000000000011",
        "00000000-0000-0000-0000_000000000001",
        "0000000-00000-0000-0000-000000000001",
        "00000000-0000-0000-0000-00000000000g",
        "00000000-0000-0000-0000-00000000000\u{e9}",
    ] {
        assert_eq!(ThreadId::from_string(text), None, "{text}");
    }
}

#[test]
fn written_order_is_number_order() {
    let values = [0_u128, 9, 10, 0xf, 0x10, 0xff00, 1 << 100, u128::MAX];
    for a in values {
        for b in values {
            assert_eq!(
                ThreadId { value: a }.to_string() < ThreadId { value: b }.to_string(),
                a < b
            );
        }
    }
}
