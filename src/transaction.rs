//! The per-connection transaction queue of `MULTI` / `EXEC`.

use crate::bytes::{ascii_bytes, str_bytes};
use crate::resp::{Value, ValueView};
use vstd::prelude::*;

verus! {

/// The mathematical form of a transaction queue.
pub struct TransactionView {
    /// `MULTI` was seen and `EXEC` not yet.
    pub queuing: bool,
    /// The commands queued so far, oldest first.
    pub pending: Seq<ValueView>,
}

/// A connection's transaction state: idle, or queuing commands.
pub struct Transaction {
    queuing: bool,
    queue: Vec<Value>,
}

pub open spec fn value_views(s: Seq<Value>) -> Seq<ValueView> {
    Seq::new(s.len(), |i: int| s[i]@)
}

/// The acknowledgement of a queued command.
pub open spec fn queued_reply() -> ValueView {
    ValueView::SimpleString(ascii_bytes("QUEUED"@))
}

impl View for Transaction {
    type V = TransactionView;

    closed spec fn view(&self) -> TransactionView {
        TransactionView { queuing: self.queuing, pending: value_views(self.queue@) }
    }
}

impl Transaction {
    /// An idle transaction with nothing queued.
    pub fn new() -> (r: Transaction)
        ensures
            r@ == (TransactionView { queuing: false, pending: Seq::empty() }),
    {
        let r = Transaction { queuing: false, queue: Vec::new() };
        assert(value_views(r.queue@) =~= Seq::<ValueView>::empty());
        r
    }

    /// `MULTI`: starts queuing. Returns whether the transaction was idle.
    pub fn begin(&mut self) -> (r: bool)
        ensures
            r == !old(self)@.queuing,
            final(self)@ == (TransactionView { queuing: true, pending: old(self)@.pending }),
    {
        let was_idle = !self.queuing;
        self.queuing = true;
        was_idle
    }

    /// Whether `MULTI` was seen and `EXEC` not yet.
    pub fn is_queuing(&self) -> (r: bool)
        ensures
            r == self@.queuing,
    {
        self.queuing
    }

    /// Appends a copy of `value` to the queue.
    pub fn push_back(&mut self, value: &Value)
        ensures
            final(self)@ == (TransactionView {
                queuing: old(self)@.queuing,
                pending: old(self)@.pending.push(value@),
            }),
    {
        let c = value.copy();
        let ghost before = self.queue@;
        self.queue.push(c);
        assert(value_views(self.queue@) =~= value_views(before).push(value@));
    }

    /// The oldest queued command.
    pub fn get_font(&self) -> (r: Option<&Value>)
        ensures
            match r {
                Some(v) => self@.pending.len() > 0 && v@ == self@.pending[0],
                None => self@.pending.len() == 0,
            },
    {
        if self.queue.len() == 0 {
            None
        } else {
            Some(&self.queue[0])
        }
    }

    /// Takes the oldest queued command out of the queue.
    pub fn get_font_value(&mut self) -> (r: Option<Value>)
        ensures
            match r {
                Some(v) => old(self)@.pending.len() > 0 && v@ == old(self)@.pending[0]
                    && final(self)@ == (TransactionView {
                        queuing: old(self)@.queuing,
                        pending: old(self)@.pending.subrange(1, old(self)@.pending.len() as int),
                    }),
                None => old(self)@.pending.len() == 0 && final(self)@ == old(self)@,
            },
    {
        if self.queue.len() == 0 {
            return None;
        }
        let ghost before = self.queue@;
        let v = self.queue.remove(0);
        assert(value_views(self.queue@) =~= value_views(before).subrange(1, before.len() as int));
        Some(v)
    }

    /// The number of queued commands.
    pub fn len(&self) -> (r: usize)
        ensures
            r == self@.pending.len(),
    {
        self.queue.len()
    }

    /// Queues a copy of `command` when queuing, and returns the acknowledgement;
    /// returns `None`, and changes nothing, when idle.
    pub fn enqueue_or_none(&mut self, command: &Value) -> (r: Option<Value>)
        ensures
            old(self)@.queuing ==> r is Some && r->0@ == queued_reply() && final(self)@ == (TransactionView {
                queuing: true,
                pending: old(self)@.pending.push(command@),
            }),
            !old(self)@.queuing ==> r is None && final(self)@ == old(self)@,
    {
        if !self.queuing {
            return None;
        }
        self.push_back(command);
        let s = "QUEUED";
        proof {
            reveal_strlit("QUEUED");
        }
        Some(Value::SimpleString(str_bytes(s)))
    }

    /// `EXEC`: hands out the queued commands, oldest first, and goes back to
    /// idle; `None`, and nothing changes, when `MULTI` was not seen.
    pub fn take_all(&mut self) -> (r: Option<Vec<Value>>)
        ensures
            old(self)@.queuing ==> r is Some && value_views(r->0@) == old(self)@.pending && final(self)@ == (TransactionView {
                queuing: false,
                pending: Seq::empty(),
            }),
            !old(self)@.queuing ==> r is None && final(self)@ == old(self)@,
    {
        if !self.queuing {
            return None;
        }
        let mut taken: Vec<Value> = Vec::new();
        std::mem::swap(&mut taken, &mut self.queue);
        self.queuing = false;
        assert(value_views(self.queue@) =~= Seq::<ValueView>::empty());
        Some(taken)
    }
}

} // verus!
