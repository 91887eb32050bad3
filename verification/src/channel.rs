//! Handing bytes to the channel of a connection. A send leaves a receipt
//! that only a real send can produce, recording the channel, the bytes and
//! whether the channel took them.

use vstd::prelude::*;

verus! {

/// What one send handed over: the channel it went to and the bytes.
pub type SendRecord = (tokio::sync::broadcast::Sender<Vec<u8>>, Seq<u8>);

/// The receipt of one send. Only a send can make one.
pub struct SendReceipt {
    handed: Ghost<SendRecord>,
    receivers: Option<usize>,
}

impl SendReceipt {
    /// The channel the send went to and the bytes it handed over.
    pub closed spec fn handed(&self) -> SendRecord {
        self.handed@
    }

    /// How many receivers the channel had when it took the bytes, or `None`
    /// when it had none and did not take them.
    pub closed spec fn receiver_count(&self) -> Option<usize> {
        self.receivers
    }

    /// Whether the channel took the bytes.
    pub fn taken(&self) -> (b: bool)
        ensures
            b == (self.receiver_count() is Some),
    {
        self.receivers.is_some()
    }

    /// How many receivers the channel had when it took the bytes.
    pub fn receivers(&self) -> (r: Option<usize>)
        ensures
            r == self.receiver_count(),
    {
        self.receivers
    }
}

/// `tokio::sync::broadcast::Sender::send`: hands `value` to the channel of
/// `sender`; the receipt records which channel and which bytes. The send fails
/// when the channel has no receiver; on success it gives the number of
/// receivers, which is at least one. Whether it fails depends on the
/// receivers alive at the time, so nothing more is stated of the outcome.
#[verifier::external_body]
pub(crate) fn broadcast_send(sender: &tokio::sync::broadcast::Sender<Vec<u8>>, value: Vec<u8>) -> (r: SendReceipt)
    ensures
        r.handed() == (*sender, value@),
        r.receiver_count() matches Some(n) ==> n >= 1,
{
    let handed = Ghost((*sender, value@));
    match sender.send(value) {
        Ok(n) => SendReceipt { handed, receivers: Some(n) },
        Err(_) => SendReceipt { handed, receivers: None },
    }
}

} // verus!
