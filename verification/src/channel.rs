//! The two ends of an unbounded channel of `futures_channel`, held as one value.
//!
//! Each end alone says little: what the receiver yields depends on what was sent through the
//! other. A [`TaskChannel`] owns both, so its methods can say what they do to the items that wait.

use std::pin::Pin;
use std::task::{Context, Poll};

use futures_channel::mpsc::{
    unbounded, SendError as ChannelError, UnboundedReceiver, UnboundedSender,
};
use futures_core::Stream;
use futures_sink::Sink;
use vstd::prelude::*;

verus! {

/// The sending end of an unbounded channel.
#[verifier::external_type_specification]
#[verifier::external_body]
#[verifier::reject_recursive_types(T)]
pub struct ExUnboundedSender<T>(UnboundedSender<T>);

/// The receiving end of an unbounded channel.
#[verifier::external_type_specification]
#[verifier::external_body]
#[verifier::reject_recursive_types(T)]
pub struct ExUnboundedReceiver<T>(UnboundedReceiver<T>);

/// Why the sending end refused.
#[verifier::external_type_specification]
#[verifier::external_body]
pub struct ExChannelError(ChannelError);

/// The asynchronous task that polls.
#[verifier::external_type_specification]
#[verifier::external_body]
pub struct ExContext<'a>(Context<'a>);

/// Why a task could not be sent.
#[derive(Clone, Copy, Debug, PartialEq, Eq, Structural)]
pub enum SendError {
    /// The channel no longer takes tasks.
    Disconnected,
}

/// What came of polling: a value, or the promise to be woken when there is one.
#[derive(Clone, Copy, Debug, PartialEq, Eq)]
pub enum Polled<T> {
    Ready(T),
    Pending,
}

/// What a channel holds.
pub struct ChannelState<T> {
    /// The items that were sent and not yet received, the oldest first.
    pub waiting: Seq<T>,
    /// Whether the channel still takes items.
    pub open: bool,
}

impl<T> ChannelState<T> {
    /// A channel as it is made.
    pub open spec fn fresh() -> Self {
        ChannelState { waiting: Seq::empty(), open: true }
    }

    /// Whether the channel can count one more item: the sending end panics once it holds this
    /// many.
    pub open spec fn has_room(self) -> bool {
        self.waiting.len() < usize::MAX / 2
    }

    /// The state after `item` was offered: only an open channel takes it.
    pub open spec fn offered(self, item: T) -> Self {
        if self.open {
            ChannelState { waiting: self.waiting.push(item), ..self }
        } else {
            self
        }
    }

    /// What sending returns.
    pub open spec fn answer(self) -> Result<(), SendError> {
        if self.open {
            Ok(())
        } else {
            Err(SendError::Disconnected)
        }
    }

    /// What polling for the next item returns: the oldest, or, where nothing waits, that there
    /// is nothing yet (open) or that nothing will follow (closed).
    pub open spec fn next(self) -> Polled<Option<T>> {
        if self.waiting.len() > 0 {
            Polled::Ready(Some(self.waiting[0]))
        } else if self.open {
            Polled::Pending
        } else {
            Polled::Ready(None)
        }
    }

    /// The state after polling for the next item.
    pub open spec fn advanced(self) -> Self {
        if self.waiting.len() > 0 {
            ChannelState { waiting: self.waiting.drop_first(), ..self }
        } else {
            self
        }
    }

    /// The state after closing: what waits can still be received.
    pub open spec fn closed(self) -> Self {
        ChannelState { open: false, ..self }
    }
}

impl<T> ChannelState<T> {
    /// The state after polling `n` times for the next item.
    pub open spec fn advanced_by(self, n: nat) -> Self
        decreases n,
    {
        if n == 0 {
            self
        } else {
            self.advanced_by((n - 1) as nat).advanced()
        }
    }
}

/// Items come out in the order in which they went in: of all polls, the one after `n` others
/// gives the item that had `n` before it, as long as there is one. After that the channel holds
/// nothing, and polls say so.
pub proof fn law_received_in_order<T>(channel: ChannelState<T>, n: nat)
    ensures
        channel.advanced_by(n).open == channel.open,
        n < channel.waiting.len() ==> channel.advanced_by(n).next() == Polled::Ready(
            Some(channel.waiting[n as int]),
        ),
        n <= channel.waiting.len() ==> channel.advanced_by(n).waiting == channel.waiting.skip(
            n as int,
        ),
        n >= channel.waiting.len() ==> channel.advanced_by(n).waiting == Seq::<T>::empty()
            && channel.advanced_by(n).next() == (if channel.open {
            Polled::<Option<T>>::Pending
        } else {
            Polled::<Option<T>>::Ready(None)
        }),
    decreases n,
{
    if n > 0 {
        law_received_in_order(channel, (n - 1) as nat);
        if n <= channel.waiting.len() {
            assert(channel.waiting.skip(n - 1).drop_first() =~= channel.waiting.skip(n as int));
        }
    }
}

/// An unbounded channel with both its ends.
///
/// `state` is what the ends hold between them. Nobody else has either of them, so it changes only
/// as the methods say that call them.
#[verifier::reject_recursive_types(T)]
pub struct TaskChannel<T> {
    sender: UnboundedSender<T>,
    receiver: UnboundedReceiver<T>,
    state: Ghost<ChannelState<T>>,
}

impl<T> View for TaskChannel<T> {
    type V = ChannelState<T>;

    closed spec fn view(&self) -> ChannelState<T> {
        self.state@
    }
}

impl<T> TaskChannel<T> {
    /// `futures_channel::mpsc::unbounded` makes two connected ends. They are claimed to be open
    /// and to hold nothing.
    #[verifier::external_body]
    fn connected() -> (channel: Self)
        ensures
            channel@ == ChannelState::<T>::fresh(),
    {
        let (sender, receiver) = unbounded();
        TaskChannel { sender, receiver, state: Ghost(ChannelState::fresh()) }
    }

    /// `Sink::poll_ready` of `UnboundedSender` is claimed to be ready at once, with an error
    /// exactly if the channel is closed, and to change nothing.
    #[verifier::external_body]
    fn sender_ready(&mut self, cx: &mut Context<'_>) -> (polled: Polled<Result<(), ChannelError>>)
        ensures
            polled is Ready,
            polled->Ready_0 is Ok <==> old(self)@.open,
            final(self)@ == old(self)@,
    {
        match Sink::<T>::poll_ready(Pin::new(&mut self.sender), cx) {
            Poll::Ready(ready) => Polled::Ready(ready),
            Poll::Pending => Polled::Pending,
        }
    }

    /// `Sink::start_send` of `UnboundedSender` is claimed to put the item behind those that wait
    /// if the channel is open, and to change nothing and return an error if it is closed. The
    /// receiver is woken, which is not stated.
    #[verifier::external_body]
    fn sender_start(&mut self, item: T) -> (sent: Result<(), ChannelError>)
        requires
            old(self)@.open ==> old(self)@.has_room(),
        ensures
            sent is Ok <==> old(self)@.open,
            final(self)@ == old(self)@.offered(item),
    {
        Sink::<T>::start_send(Pin::new(&mut self.sender), item)
    }

    /// `Sink::poll_flush` of `UnboundedSender` is claimed to be ready at once, without an error,
    /// and to change nothing.
    #[verifier::external_body]
    fn sender_flush(&mut self, cx: &mut Context<'_>) -> (polled: Polled<Result<(), ChannelError>>)
        ensures
            polled is Ready,
            polled->Ready_0 is Ok,
            final(self)@ == old(self)@,
    {
        match Sink::<T>::poll_flush(Pin::new(&mut self.sender), cx) {
            Poll::Ready(flushed) => Polled::Ready(flushed),
            Poll::Pending => Polled::Pending,
        }
    }

    /// `Sink::poll_close` of `UnboundedSender` is claimed to be ready at once, without an error,
    /// and to close the channel while what waits stays. The receiver is woken, which is not
    /// stated.
    #[verifier::external_body]
    fn sender_close(&mut self, cx: &mut Context<'_>) -> (polled: Polled<Result<(), ChannelError>>)
        ensures
            polled is Ready,
            polled->Ready_0 is Ok,
            final(self)@ == old(self)@.closed(),
    {
        match Sink::<T>::poll_close(Pin::new(&mut self.sender), cx) {
            Poll::Ready(closed) => Polled::Ready(closed),
            Poll::Pending => Polled::Pending,
        }
    }

    /// `UnboundedSender::disconnect` is claimed to close the channel while what waits stays. The
    /// receiver is woken, which is not stated.
    #[verifier::external_body]
    pub(crate) fn disconnect(&mut self)
        ensures
            final(self)@ == old(self)@.closed(),
    {
        self.sender.disconnect();
    }

    /// `Stream::poll_next` of `UnboundedReceiver` is claimed to take the oldest item that waits
    /// and, where none does, to be pending if the channel is open and at its end if it is closed.
    /// A pending receiver keeps the waker of `cx`, which is not stated.
    #[verifier::external_body]
    fn receiver_next(&mut self, cx: &mut Context<'_>) -> (polled: Polled<Option<T>>)
        ensures
            polled == old(self)@.next(),
            final(self)@ == old(self)@.advanced(),
    {
        match Stream::poll_next(Pin::new(&mut self.receiver), cx) {
            Poll::Ready(item) => Polled::Ready(item),
            Poll::Pending => Polled::Pending,
        }
    }

    /// Makes an open channel that holds nothing.
    pub fn new() -> (channel: Self)
        ensures
            channel@ == ChannelState::<T>::fresh(),
    {
        Self::connected()
    }

    /// Whether the channel takes items.
    pub fn poll_ready(&mut self, cx: &mut Context<'_>) -> (polled: Polled<Result<(), SendError>>)
        ensures
            polled == Polled::Ready(old(self)@.answer()),
            final(self)@ == old(self)@,
    {
        own_error(self.sender_ready(cx))
    }

    /// Offers `item` to the channel.
    pub fn start_send(&mut self, item: T) -> (sent: Result<(), SendError>)
        requires
            old(self)@.open ==> old(self)@.has_room(),
        ensures
            sent == old(self)@.answer(),
            final(self)@ == old(self)@.offered(item),
    {
        match self.sender_start(item) {
            Ok(()) => Ok(()),
            Err(_) => Err(SendError::Disconnected),
        }
    }

    /// Waits for what was sent to be passed on: it always was.
    pub fn poll_flush(&mut self, cx: &mut Context<'_>) -> (polled: Polled<Result<(), SendError>>)
        ensures
            polled == Polled::Ready(Ok::<(), SendError>(())),
            final(self)@ == old(self)@,
    {
        own_error(self.sender_flush(cx))
    }

    /// Closes the channel.
    pub fn poll_close(&mut self, cx: &mut Context<'_>) -> (polled: Polled<Result<(), SendError>>)
        ensures
            polled == Polled::Ready(Ok::<(), SendError>(())),
            final(self)@ == old(self)@.closed(),
    {
        own_error(self.sender_close(cx))
    }

    /// Takes the oldest item that waits.
    pub fn poll_next(&mut self, cx: &mut Context<'_>) -> (polled: Polled<Option<T>>)
        ensures
            polled == old(self)@.next(),
            final(self)@ == old(self)@.advanced(),
    {
        self.receiver_next(cx)
    }
}

/// Puts this crate's error for that of the sending end, which refuses for one reason only.
fn own_error(polled: Polled<Result<(), ChannelError>>) -> (own: Polled<Result<(), SendError>>)
    ensures
        own == (match polled {
            Polled::Ready(Ok(())) => Polled::Ready(Ok(())),
            Polled::Ready(Err(_)) => Polled::Ready(Err(SendError::Disconnected)),
            Polled::Pending => Polled::Pending,
        }),
{
    match polled {
        Polled::Ready(Ok(())) => Polled::Ready(Ok(())),
        Polled::Ready(Err(_)) => Polled::Ready(Err(SendError::Disconnected)),
        Polled::Pending => Polled::Pending,
    }
}

} // verus!
