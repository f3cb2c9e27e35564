//! Envelope and consumer interface of a single-channel carousel variant,
//! in which all pollers compete for one shared receive end instead of each
//! owning a lane. A host that wants such competing consumers wires these
//! two leaf items up itself; the broadcast engine lives in
//! [`crate::asynch`].

use vstd::prelude::*;

verus! {

/// The envelope type of the single-channel variant: either an owned byte
/// payload, or the sentinel that stops one poller.
pub enum Event {
    Message(Vec<u8>),
    Terminate,
}

impl View for Event {
    type V = crate::asynch::EventView;

    open spec fn view(&self) -> crate::asynch::EventView {
        match self {
            Event::Message(data) => crate::asynch::EventView::Message(data@),
            Event::Terminate => crate::asynch::EventView::Terminate,
        }
    }
}

/// The processing capability a consumer offers: accept one owned byte
/// payload and handle it synchronously.
pub trait Consumer {
    fn consume(&self, data: Vec<u8>);
}

} // verus!
