use webimint::protocol::Protocol;

#[test]
fn protocol_tabs_are_numbered_in_order() {
    assert_eq!(Protocol::from_idx(0), Protocol::OnChain);
    assert_eq!(Protocol::from_idx(1), Protocol::Lightning);
    assert_eq!(Protocol::from_idx(2), Protocol::ECash);
    assert_eq!(Protocol::OnChain.into_idx(), 0);
    assert_eq!(Protocol::Lightning.into_idx(), 1);
    assert_eq!(Protocol::ECash.into_idx(), 2);
}

#[test]
fn protocol_index_round_trips() {
    for idx in 0..3usize {
        assert_eq!(Protocol::from_idx(idx).into_idx(), idx);
    }
}
