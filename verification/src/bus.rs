//! The external bus: what a unit may ask of it, and the controller that
//! lets one transaction through at a time.

use crate::execution_path::views;
use vstd::prelude::*;

verus! {

/// A transaction on the external bus.
#[derive(Clone, Copy, Debug, PartialEq, Eq, Structural)]
pub enum BusAccess {
    /// Read the byte at the address.
    Read(u32),
    /// Write the byte to the address.
    Write(u32, u8),
}

/// A queued request as the contracts see it.
pub struct RequestView {
    pub request: BusAccess,
    pub handler: Seq<char>,
}

struct BusAccessRequest {
    request: BusAccess,
    handler: String,
}

impl View for BusAccessRequest {
    type V = RequestView;

    closed spec fn view(&self) -> RequestView {
        RequestView { request: self.request, handler: self.handler@ }
    }
}

/// The controller as the contracts see it: the requests that wait, oldest
/// first, and the name of the unit whose response is outstanding.
pub struct ControllerView {
    pub queue: Seq<RequestView>,
    pub handler: Option<Seq<char>>,
}

/// The controller after `pop`: while a response is outstanding, or while no
/// request waits, nothing changes; else the oldest request leaves the queue
/// and its unit becomes the one whose response is outstanding.
pub open spec fn popped(controller: ControllerView) -> ControllerView {
    if controller.handler is Some || controller.queue.len() == 0 {
        controller
    } else {
        ControllerView {
            queue: controller.queue.drop_first(),
            handler: Some(controller.queue.first().handler),
        }
    }
}

/// What `pop` returns: the oldest request, unless a response is outstanding
/// or no request waits.
pub open spec fn pop_result(controller: ControllerView) -> Option<BusAccess> {
    if controller.handler is Some || controller.queue.len() == 0 {
        None
    } else {
        Some(controller.queue.first().request)
    }
}

/// The controller after the response has been taken: none is outstanding.
pub open spec fn responded(controller: ControllerView) -> ControllerView {
    ControllerView { queue: controller.queue, handler: None }
}

/// Serialises the transactions on the external bus. Requests are served in
/// the order in which they were pushed, and the next one is handed out only
/// after the response to the last has been delivered.
pub struct BusController {
    access_queue: Vec<BusAccessRequest>,
    response_handler: Option<String>,
}

impl View for BusController {
    type V = ControllerView;

    closed spec fn view(&self) -> ControllerView {
        ControllerView {
            queue: views(self.access_queue@),
            handler: match self.response_handler {
                Some(name) => Some(name@),
                None => None,
            },
        }
    }
}

impl BusController {
    /// A controller with no request waiting and no response outstanding.
    pub fn new() -> (controller: BusController)
        ensures
            controller@ == (ControllerView { queue: Seq::empty(), handler: None }),
    {
        let controller = BusController { access_queue: Vec::new(), response_handler: None };
        assert(controller@.queue =~= Seq::empty());
        controller
    }

    /// Queues `request` for the unit called `handler`.
    pub fn push(&mut self, request: BusAccess, handler: String)
        ensures
            final(self)@ == (ControllerView {
                queue: old(self)@.queue.push(RequestView { request, handler: handler@ }),
                handler: old(self)@.handler,
            }),
    {
        self.access_queue.push(BusAccessRequest { request, handler });
        assert(self@.queue =~= old(self)@.queue.push(RequestView { request, handler: handler@ }));
    }

    /// Hands out the oldest request and notes its unit as the one whose
    /// response is outstanding. While a response is outstanding nothing is
    /// handed out, so that the noted unit is never overwritten.
    pub fn pop(&mut self) -> (request: Option<BusAccess>)
        ensures
            final(self)@ == popped(old(self)@),
            request == pop_result(old(self)@),
    {
        if self.response_handler.is_some() || self.access_queue.len() == 0 {
            return None;
        }
        let oldest = self.access_queue.remove(0);
        assert(self@.queue =~= old(self)@.queue.drop_first());
        assert(old(self)@.queue.first() == oldest@);
        self.response_handler = Some(oldest.handler);
        Some(oldest.request)
    }

    /// Takes the name of the unit whose response is outstanding, so that the
    /// response can be delivered to it once.
    pub fn take_handler(&mut self) -> (handler: Option<String>)
        ensures
            final(self)@ == responded(old(self)@),
            match handler {
                Some(name) => old(self)@.handler == Some(name@),
                None => old(self)@.handler is None,
            },
    {
        self.response_handler.take()
    }
}

/// A request that has been handed out can be answered once: after `pop` has
/// returned a request, the first taking of the handler gives the unit that
/// made it, and a second finds none.
pub proof fn lemma_round_trip(controller: ControllerView)
    requires
        pop_result(controller) is Some,
    ensures
        popped(controller).handler == Some(controller.queue.first().handler),
        pop_result(controller) == Some(controller.queue.first().request),
        responded(popped(controller)).handler is None,
        pop_result(popped(controller)) is None,
{
}

} // verus!
