use std::sync::mpsc::{Receiver, SyncSender};
use vstd::prelude::*;

verus! {

#[verifier::external_type_specification]
#[verifier::external_body]
#[verifier::reject_recursive_types(T)]
pub struct ExReceiver<T>(Receiver<T>);

#[verifier::external_type_specification]
#[verifier::external_body]
#[verifier::reject_recursive_types(T)]
pub struct ExSyncSender<T>(SyncSender<T>);

/// Relies on std::sync::mpsc::sync_channel: a bounded channel, returned as its
/// sending and receiving ends.
#[verifier::external_body]
pub(crate) fn bounded_channel(capacity: usize) -> (SyncSender<i64>, Receiver<i64>) {
    std::sync::mpsc::sync_channel(capacity)
}

/// Relies on std::sync::mpsc::SyncSender::send: blocks while the channel is full,
/// and reports whether the receiving end was still there to take the value.
#[verifier::external_body]
pub(crate) fn send_value(tx: &SyncSender<i64>, v: i64) -> bool {
    tx.send(v).is_ok()
}

/// Relies on std::sync::mpsc::Receiver::recv: blocks until a value arrives, and
/// gives `None` once every sender is gone and nothing is pending. What arrives
/// depends on other threads, so nothing is stated of it.
#[verifier::external_body]
pub(crate) fn receive_value(rx: &Receiver<i64>) -> Option<i64> {
    rx.recv().ok()
}

} // verus!
