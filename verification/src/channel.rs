use vstd::prelude::*;

verus! {

/// Sending failed because the channel is closed; the unsent value comes
/// back to the caller.
pub struct SendError<T> {
    pub value: T,
}

/// Why a receive produced nothing.
#[derive(Debug, PartialEq, Eq, Structural)]
pub enum ReceiveError {
    /// Nothing is buffered right now, but senders remain.
    Empty,
    /// Nothing is buffered and the channel is closed.
    Closed,
}

/// The state of a bounded single-threaded channel: the buffered values in
/// arrival order, whether the channel has hung up, and how many send handles
/// are alive.  The handles that share one channel live outside the library;
/// every transition of the state is decided here.
pub struct Channel<T> {
    buffer: std::collections::VecDeque<T>,
    is_hup: bool,
    senders_amount: usize,
}

impl<T> View for Channel<T> {
    type V = Seq<T>;

    closed spec fn view(&self) -> Seq<T> {
        self.buffer@
    }
}

impl<T> Channel<T> {
    pub closed spec fn spec_hup(self) -> bool {
        self.is_hup
    }

    pub closed spec fn spec_senders(self) -> nat {
        self.senders_amount as nat
    }

    /// A fresh channel: nothing buffered, open, one sender.
    pub fn new() -> (r: Self)
        ensures
            r@ == Seq::<T>::empty(),
            !r.spec_hup(),
            r.spec_senders() == 1,
    {
        Self { buffer: std::collections::VecDeque::new(), is_hup: false, senders_amount: 1 }
    }

    /// Buffers the value while the channel is open; a closed channel hands
    /// the value back as the error.
    pub fn send(&mut self, value: T) -> (r: Result<(), SendError<T>>)
        ensures
            final(self).spec_hup() == old(self).spec_hup(),
            final(self).spec_senders() == old(self).spec_senders(),
            !old(self).spec_hup() ==> r is Ok && final(self)@ == old(self)@.push(value),
            old(self).spec_hup() ==> final(self)@ == old(self)@ && (r matches Err(e) && e.value
                == value),
    {
        if !self.is_hup {
            self.buffer.push_back(value);
            Ok(())
        } else {
            Err(SendError { value })
        }
    }

    /// Takes the oldest buffered value; an empty channel reports whether it
    /// is merely empty or closed for good.
    pub fn recv(&mut self) -> (r: Result<T, ReceiveError>)
        ensures
            final(self).spec_hup() == old(self).spec_hup(),
            final(self).spec_senders() == old(self).spec_senders(),
            old(self)@.len() > 0 ==> final(self)@ == old(self)@.drop_first() && (r matches Ok(v)
                && v == old(self)@[0]),
            old(self)@.len() == 0 ==> final(self)@ == old(self)@ && r == (if old(
                self,
            ).spec_hup() {
                Err::<T, ReceiveError>(ReceiveError::Closed)
            } else {
                Err::<T, ReceiveError>(ReceiveError::Empty)
            }),
    {
        if self.buffer.len() != 0 {
            match self.buffer.pop_front() {
                Some(v) => Ok(v),
                None => {
                    proof {
                        assert(false);
                    }
                    vstd::pervasive::unreached()
                },
            }
        } else if self.is_hup {
            Err(ReceiveError::Closed)
        } else {
            Err(ReceiveError::Empty)
        }
    }

    /// Closes the channel for good.
    pub fn hup(&mut self)
        ensures
            final(self)@ == old(self)@,
            final(self).spec_hup(),
            final(self).spec_senders() == old(self).spec_senders(),
    {
        self.is_hup = true;
    }

    /// True when the channel is closed.
    pub fn is_hup(&self) -> (r: bool)
        ensures
            r == self.spec_hup(),
    {
        self.is_hup
    }

    /// Records one more live send handle.
    pub fn inc_senders_amount(&mut self)
        requires
            old(self).spec_senders() < usize::MAX,
        ensures
            final(self)@ == old(self)@,
            final(self).spec_hup() == old(self).spec_hup(),
            final(self).spec_senders() == old(self).spec_senders() + 1,
    {
        self.senders_amount = self.senders_amount + 1;
    }

    /// Records that one send handle went away.
    pub fn dec_senders_amount(&mut self)
        requires
            old(self).spec_senders() > 0,
        ensures
            final(self)@ == old(self)@,
            final(self).spec_hup() == old(self).spec_hup(),
            final(self).spec_senders() == old(self).spec_senders() - 1,
    {
        self.senders_amount = self.senders_amount - 1;
    }

    /// How many send handles are alive.
    pub fn senders_amount(&self) -> (r: usize)
        ensures
            r == self.spec_senders(),
    {
        self.senders_amount
    }
}

} // verus!
