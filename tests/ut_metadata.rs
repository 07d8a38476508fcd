use magnet_dht::ut_metadata::{Extension, UTMetadata};

#[test]
fn first_request_asks_for_piece_zero() {
    let m = UTMetadata::new();
    assert_eq!(m.next_piece_index(), 0);
    assert_eq!(m.get_request_message(), b"d8:msg_typei0e5:piecei0ee".to_vec());
    assert_eq!(m.name(), "ut_metadata");
}
