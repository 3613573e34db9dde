//! Data structures for queue manipulation.

use vstd::prelude::*;
use vstd::std_specs::convert::FromSpecImpl;

verus! {

/// The mathematical model of a [`Queue`]: the held piece and the pieces to
/// come.
pub struct QueueView<T> {
    pub hold: Option<T>,
    pub next: Seq<T>,
}

impl<T> QueueView<T> {
    /// Whether a queue without a held piece has no piece to come either.
    pub open spec fn wf(self) -> bool {
        self.hold.is_none() ==> self.next.len() == 0
    }

    /// The queue of `hold` and `next`, whose first piece to come is held
    /// where nothing else is.
    pub open spec fn normalized(hold: Option<T>, next: Seq<T>) -> QueueView<T> {
        if hold.is_none() && next.len() > 0 {
            QueueView { hold: Some(next[0]), next: next.skip(1) }
        } else {
            QueueView { hold, next }
        }
    }

    /// The number of pieces in the queue.
    pub open spec fn count(self) -> nat {
        if self.hold.is_some() {
            self.next.len() + 1
        } else {
            self.next.len()
        }
    }

    /// The pieces that can be played next, each with the queue that it
    /// leaves: first the held piece, then, if a piece is to come, that piece,
    /// for which the held piece stays held.
    pub open spec fn successors(self) -> Seq<(T, QueueView<T>)> {
        match self.hold {
            None => Seq::empty(),
            Some(held) => {
                if self.next.len() == 0 {
                    seq![(held, QueueView { hold: None, next: Seq::empty() })]
                } else {
                    seq![
                        (held, QueueView { hold: Some(self.next[0]), next: self.next.skip(1) }),
                        (self.next[0], QueueView { hold: Some(held), next: self.next.skip(1) }),
                    ]
                }
            },
        }
    }
}

/// Every successor leaves a well-formed queue with one piece less.
pub proof fn lemma_successors_shrink<T>(q: QueueView<T>, i: int)
    requires
        q.wf(),
        0 <= i < q.successors().len(),
    ensures
        q.successors()[i].1.wf(),
        q.successors()[i].1.count() + 1 == q.count(),
{
}

/// Represents the upcoming pieces in the queue, incl. held piece.
#[derive(Debug, Eq, PartialEq)]
pub struct Queue<'a, T> {
    hold: Option<T>,
    next: &'a [T],
}

impl<'a, T: Copy> Clone for Queue<'a, T> {
    fn clone(&self) -> (queue: Self)
        ensures
            queue == *self,
    {
        *self
    }
}

impl<'a, T: Copy> Copy for Queue<'a, T> {

}

impl<'a, T> View for Queue<'a, T> {
    type V = QueueView<T>;

    closed spec fn view(&self) -> QueueView<T> {
        QueueView { hold: self.hold, next: self.next@ }
    }
}

impl<'a, T> Queue<'a, T> {
    /// The invariant of every queue: see [`QueueView::wf`].
    #[verifier::type_invariant]
    pub open spec fn wf(self) -> bool {
        self@.wf()
    }

    /// The queue whose model is `v`.
    pub closed spec fn of_view(v: QueueView<T>) -> Queue<'a, T> {
        choose|q: Queue<'a, T>| q@ == v
    }

    /// Two queues with the same model are the same queue.
    pub proof fn lemma_view_injective(a: Queue<'a, T>, b: Queue<'a, T>)
        requires
            a@ == b@,
        ensures
            a == b,
    {
        assert(a.next@ == b.next@);
        assert(a.next =~= b.next);
    }

    /// Every queue is the queue of its model.
    pub proof fn lemma_of_view(self)
        ensures
            Self::of_view(self@) == self,
    {
        Self::lemma_view_injective(Self::of_view(self@), self);
    }
}

impl<'a, T: Copy> Queue<'a, T> {
    /// Constructs a new queue from the hold and next pieces. If `hold` is empty (`None`),
    /// then this will automatically try to take a piece from `next` and put it into the
    /// hold.
    pub fn new(hold: Option<T>, next: &'a [T]) -> (queue: Self)
        ensures
            queue@ == QueueView::normalized(hold, next@),
            queue == Self::of_view(QueueView::normalized(hold, next@)),
            queue.wf(),
    {
        let queue = if hold.is_none() && next.len() > 0 {
            let back = vstd::slice::slice_subrange(next, 1, next.len());
            assert(back@ =~= next@.skip(1));
            Self { hold: Some(next[0]), next: back }
        } else {
            Self { hold, next }
        };
        proof {
            queue.lemma_of_view();
        }
        queue
    }

    /// Get the held piece.
    pub fn hold(&self) -> (hold: Option<T>)
        ensures
            hold == self@.hold,
    {
        self.hold
    }

    /// Get the next pieces.
    pub fn next(&self) -> (next: &'a [T])
        ensures
            next@ == self@.next,
    {
        self.next
    }

    /// Returns the running list of `(piece, new_queue)`, where `piece` is an immediately
    /// reachable piece (maybe requiring hold), and `new_queue` is the queue afterwards.
    pub fn pop(&self) -> (pop: Pop<'a, T>)
        ensures
            pop@ == self@.successors(),
    {
        proof {
            use_type_invariant(self);
        }
        let succ = Queue::new(None, self.next);
        let pop = Pop { did_hold: false, curr: self.hold, succ };
        proof {
            let want = self@.successors();
            if self.hold.is_some() {
                assert(pop@[0].1.next =~= want[0].1.next);
                if self.next@.len() > 0 {
                    assert(pop@[1].1.next =~= want[1].1.next);
                }
            }
            assert(pop@ =~= want);
        }
        pop
    }
}

impl<'a, T: Copy> From<&'a [T]> for Queue<'a, T> {
    fn from(pieces: &'a [T]) -> (queue: Self) {
        Self::new(None, pieces)
    }
}

impl<'a, T: Copy> FromSpecImpl<&'a [T]> for Queue<'a, T> {
    open spec fn obeys_from_spec() -> bool {
        true
    }

    open spec fn from_spec(pieces: &'a [T]) -> Self {
        Self::of_view(QueueView::normalized(None, pieces@))
    }
}

impl<'a, T: Copy, const N: usize> From<&'a [T; N]> for Queue<'a, T> {
    fn from(pieces: &'a [T; N]) -> (queue: Self) {
        Self::new(None, vstd::array::array_as_slice(pieces))
    }
}

impl<'a, T: Copy, const N: usize> FromSpecImpl<&'a [T; N]> for Queue<'a, T> {
    open spec fn obeys_from_spec() -> bool {
        true
    }

    open spec fn from_spec(pieces: &'a [T; N]) -> Self {
        Self::of_view(QueueView::normalized(None, pieces@))
    }
}

/// The pieces that can be played next from a queue, handed out one by one.
pub struct Pop<'a, T: Copy> {
    did_hold: bool,
    curr: Option<T>,
    succ: Queue<'a, T>,
}

impl<'a, T: Copy> View for Pop<'a, T> {
    type V = Seq<(T, QueueView<T>)>;

    /// The successors that are still to be handed out.
    closed spec fn view(&self) -> Seq<(T, QueueView<T>)> {
        match self.curr {
            None => Seq::empty(),
            Some(curr) => {
                if self.did_hold || self.succ@.hold.is_none() {
                    seq![(curr, self.succ@)]
                } else {
                    seq![
                        (curr, self.succ@),
                        (
                            self.succ@.hold.unwrap(),
                            QueueView { hold: Some(curr), next: self.succ@.next },
                        ),
                    ]
                }
            },
        }
    }
}

impl<'a, T: Copy> Pop<'a, T> {
    /// Hands out the next successor, if one is left.
    pub fn next(&mut self) -> (item: Option<(T, Queue<'a, T>)>)
        ensures
            match item {
                Some((piece, queue)) => {
                    &&& old(self)@.len() > 0
                    &&& (piece, queue@) == old(self)@[0]
                    &&& final(self)@ == old(self)@.skip(1)
                    &&& queue.wf()
                },
                None => old(self)@.len() == 0 && final(self)@.len() == 0,
            },
    {
        let curr = match self.curr {
            Some(curr) => curr,
            None => {
                return None;
            },
        };
        let succ = self.succ;
        proof {
            use_type_invariant(&succ);
        }
        if self.did_hold {
            self.curr = None;
        } else {
            self.did_hold = true;
            core::mem::swap(&mut self.curr, &mut self.succ.hold);
        }
        assert(self@ =~~= old(self)@.skip(1));
        Some((curr, succ))
    }
}

} // verus!
