use namib_enforcer::transport::{on_decoded, on_received, CallbackResult, TransportAction, TransportError};

#[test]
fn received_bytes_are_decoded() {
    assert_eq!(on_received(Ok(48)), TransportAction::Decode(48));
}

#[test]
fn nothing_received_finishes() {
    assert_eq!(on_received(Ok(0)), TransportAction::Finish);
}

#[test]
fn receive_failure_fails() {
    assert_eq!(
        on_received(Err(TransportError::Receive)),
        TransportAction::Fail(TransportError::Receive)
    );
}

#[test]
fn decoded_messages_drive_the_loop() {
    assert_eq!(on_decoded(Ok(CallbackResult::Continue)), TransportAction::ReadNext);
    assert_eq!(on_decoded(Ok(CallbackResult::Stop)), TransportAction::Finish);
    assert_eq!(
        on_decoded(Err(TransportError::Kernel)),
        TransportAction::Fail(TransportError::Kernel)
    );
}
