use webimint::client::RpcError;
use webimint::error::StoreError;

#[test]
fn rpc_error_messages() {
    assert_eq!(RpcError::InvalidResponse.message(), "Invalid response");
    assert_eq!(RpcError::ClientStopped("channel closed".to_string()).message(), "Client stopped");
    assert_eq!(RpcError::client_stopped("gone".to_string()).message(), "Client stopped");
}

#[test]
fn rpc_error_keeps_the_reason() {
    match RpcError::client_stopped("gone".to_string()) {
        RpcError::ClientStopped(why) => assert_eq!(why, "gone"),
        RpcError::InvalidResponse => panic!("wrong variant"),
    }
}

#[test]
fn store_error_messages() {
    assert_eq!(StoreError::SavepointsUnsupported.message(), "savepoints are not supported");
    assert_eq!(StoreError::CorruptEntry.message(), "stored entry is not hexadecimal");
    assert_eq!(StoreError::TransactionFinished.message(), "transaction is already committed");
}
