//! A first-in first-out queue built from singly linked, boxed nodes.
//!
//! The queue keeps two chains of nodes: the front chain holds the oldest
//! elements in the order they leave the queue, the back chain holds the
//! newest elements, most recent first.  Enqueueing links a node in front of
//! the back chain; dequeueing unlinks the first node of the front chain, and
//! when the front chain runs dry the back chain is turned around to become
//! the new front.  Every element is moved at most twice, so both operations
//! take constant amortized time, and no raw pointer is needed.
use vstd::prelude::*;

verus! {

/// A node of a singly linked chain.
pub struct Node<T> {
    value: T,
    next: Option<Box<Node<T>>>,
}

/// The elements of a chain, first node first.
spec fn forward<T>(link: Option<Box<Node<T>>>) -> Seq<T>
    decreases link,
{
    match link {
        None => Seq::empty(),
        Some(node) => seq![node.value] + forward(node.next),
    }
}

/// The elements of a chain, last node first.
spec fn backward<T>(link: Option<Box<Node<T>>>) -> Seq<T>
    decreases link,
{
    match link {
        None => Seq::empty(),
        Some(node) => backward(node.next).push(node.value),
    }
}

/// A first-in first-out queue.
pub struct Queue<T> {
    head: Option<Box<Node<T>>>,
    back: Option<Box<Node<T>>>,
}

impl<T> Queue<T> {
    /// The back chain is only in use while the front chain holds an element,
    /// so the first element of the queue is always the first front node.
    #[verifier::type_invariant]
    spec fn well_formed(self) -> bool {
        self.head is None ==> self.back is None
    }
}

impl<T> View for Queue<T> {
    type V = Seq<T>;

    /// The elements in the order in which they leave the queue.
    closed spec fn view(&self) -> Seq<T> {
        forward(self.head) + backward(self.back)
    }
}

/// What `dequeue` gives back for a queue whose elements are `s`: nothing for
/// an empty queue, else the first element and the element that now leads.
pub open spec fn dequeue_result<T>(s: Seq<T>) -> Option<(T, Option<T>)> {
    if s.len() == 0 {
        None
    } else {
        Some((s[0], if s.len() > 1 { Some(s[1]) } else { None }))
    }
}

/// The elements of a queue after `dequeue` on a queue whose elements are `s`.
pub open spec fn after_dequeue<T>(s: Seq<T>) -> Seq<T> {
    if s.len() == 0 { s } else { s.drop_first() }
}

/// The elements of a queue after `enqueue(v)` on a queue whose elements are `s`.
pub open spec fn after_enqueue<T>(s: Seq<T>, v: T) -> Seq<T> {
    s.push(v)
}

/// The elements of a queue whose elements were `s` after `enqueue` was
/// called with each element of `xs` in turn.
pub open spec fn after_enqueue_all<T>(s: Seq<T>, xs: Seq<T>) -> Seq<T>
    decreases xs.len(),
{
    if xs.len() == 0 {
        s
    } else {
        after_enqueue_all(after_enqueue(s, xs[0]), xs.drop_first())
    }
}

/// The elements that successive calls of `dequeue` give back, until the
/// queue whose elements are `s` is empty.
pub open spec fn dequeued_all<T>(s: Seq<T>) -> Seq<T>
    decreases s.len(),
{
    match dequeue_result(s) {
        None => Seq::empty(),
        Some((v, _)) => seq![v] + dequeued_all(after_dequeue(s)),
    }
}

/// First in, first out: the elements enqueued into a queue leave it, behind
/// the elements that were already there, in the order in which they came.
pub proof fn lemma_first_in_first_out<T>(s: Seq<T>, xs: Seq<T>)
    ensures
        after_enqueue_all(s, xs) == s + xs,
        dequeued_all(after_enqueue_all(s, xs)) == s + xs,
    decreases xs.len(),
{
    if xs.len() > 0 {
        lemma_first_in_first_out(after_enqueue(s, xs[0]), xs.drop_first());
        assert(s.push(xs[0]) + xs.drop_first() =~= s + xs);
    } else {
        assert(s + xs =~= s);
    }
    lemma_dequeue_gives_all(s + xs);
}

/// Dequeueing until the queue is empty gives back all its elements, first
/// element first.
pub proof fn lemma_dequeue_gives_all<T>(s: Seq<T>)
    ensures
        dequeued_all(s) == s,
    decreases s.len(),
{
    if s.len() > 0 {
        lemma_dequeue_gives_all(s.drop_first());
        assert(seq![s[0]] + s.drop_first() =~= s);
    } else {
        assert(s =~= Seq::<T>::empty());
    }
}

/// Enqueueing does not disturb the front of a queue that holds an element:
/// the same element leaves next, and dequeueing and enqueueing commute.
pub proof fn lemma_enqueue_keeps_front<T>(s: Seq<T>, v: T)
    requires
        s.len() > 0,
    ensures
        dequeue_result(after_enqueue(s, v)) matches Some((x, _)) && x == s[0],
        after_dequeue(after_enqueue(s, v)) == after_enqueue(after_dequeue(s), v),
{
    assert(s.push(v).drop_first() =~= s.drop_first().push(v));
}

/// The element that `dequeue` reports as the new leader is the element that
/// the next `dequeue` gives back.
pub proof fn lemma_lead_leaves_next<T>(s: Seq<T>)
    ensures
        dequeue_result(s) matches Some((_, lead)) ==> match lead {
            Some(x) => dequeue_result(after_dequeue(s)) matches Some((y, _)) && y == x,
            None => dequeue_result(after_dequeue(s)) is None,
        },
{
}

/// A queue is empty exactly when `dequeue` has nothing to give back, and
/// `dequeue` on an empty queue leaves it unchanged.
pub proof fn lemma_empty_iff_nothing_dequeued<T>(s: Seq<T>)
    ensures
        (s.len() == 0) <==> dequeue_result(s) is None,
        s.len() == 0 ==> after_dequeue(s) == s,
{
}

/// An element enqueued into an empty queue is the next to leave, and the
/// queue is empty again after it left.
pub proof fn lemma_enqueue_then_dequeue<T>(v: T)
    ensures
        dequeue_result(after_enqueue(Seq::<T>::empty(), v)) == Some((v, None::<T>)),
        after_dequeue(after_enqueue(Seq::<T>::empty(), v)) == Seq::<T>::empty(),
{
    assert(Seq::<T>::empty().push(v).drop_first() =~= Seq::<T>::empty());
}

/// A call on a queue.
pub enum QueueOp<T> {
    /// `enqueue` with this value.
    Enqueue(T),
    /// `dequeue`.
    Dequeue,
}

/// The elements left and what each `dequeue` gave back, in order, when the
/// calls `ops` are made one after the other on a queue whose elements are
/// `s`, as the contracts of `enqueue` and `dequeue` describe them.
pub open spec fn queue_run<T>(s: Seq<T>, ops: Seq<QueueOp<T>>) -> (Seq<T>, Seq<Option<(T, Option<T>)>>)
    decreases ops.len(),
{
    if ops.len() == 0 {
        (s, Seq::empty())
    } else {
        match ops[0] {
            QueueOp::Enqueue(v) => queue_run(after_enqueue(s, v), ops.drop_first()),
            QueueOp::Dequeue => {
                let (rest, results) = queue_run(after_dequeue(s), ops.drop_first());
                (rest, seq![dequeue_result(s)] + results)
            },
        }
    }
}

/// A double-ended sequence's `pop_front`: the first element, if any, and
/// what remains.
pub open spec fn pop_front<T>(d: Seq<T>) -> (Option<T>, Seq<T>) {
    if d.len() == 0 {
        (None, d)
    } else {
        (Some(d.first()), d.subrange(1, d.len() as int))
    }
}

/// A double-ended sequence's `front`: its first element, if any.
pub open spec fn front<T>(d: Seq<T>) -> Option<T> {
    if d.len() == 0 {
        None
    } else {
        Some(d.first())
    }
}

/// The same calls made on a double-ended sequence `d`, each `enqueue` a
/// `push_back` and each `dequeue` a `pop_front` followed by a look at the
/// new front.
pub open spec fn deque_run<T>(d: Seq<T>, ops: Seq<QueueOp<T>>) -> (Seq<T>, Seq<Option<(T, Option<T>)>>)
    decreases ops.len(),
{
    if ops.len() == 0 {
        (d, Seq::empty())
    } else {
        match ops[0] {
            QueueOp::Enqueue(v) => deque_run(d.push(v), ops.drop_first()),
            QueueOp::Dequeue => {
                let (popped, d2) = pop_front(d);
                let (rest, results) = deque_run(d2, ops.drop_first());
                let result = match popped {
                    None => None,
                    Some(v) => Some((v, front(d2))),
                };
                (rest, seq![result] + results)
            },
        }
    }
}

/// Over any sequence of calls, the queue behaves as a double-ended sequence
/// used at its two ends: every `dequeue` gives back what `pop_front` and the
/// following `front` give, and the elements left are the same.
pub proof fn lemma_behaves_as_deque<T>(s: Seq<T>, ops: Seq<QueueOp<T>>)
    ensures
        queue_run(s, ops) == deque_run(s, ops),
    decreases ops.len(),
{
    if ops.len() > 0 {
        match ops[0] {
            QueueOp::Enqueue(v) => {
                lemma_behaves_as_deque(after_enqueue(s, v), ops.drop_first());
            },
            QueueOp::Dequeue => {
                if s.len() > 0 {
                    assert(s.drop_first() =~= s.subrange(1, s.len() as int));
                }
                lemma_behaves_as_deque(after_dequeue(s), ops.drop_first());
            },
        }
    }
}

/// Turns a back chain around: the result, read forward, lists the elements
/// of `link` read backward.
fn turn_around<T>(link: Option<Box<Node<T>>>) -> (r: Option<Box<Node<T>>>)
    ensures
        forward(r) == backward(link),
{
    let mut rest = link;
    let mut acc: Option<Box<Node<T>>> = None;
    loop
        invariant
            backward(rest) + forward(acc) == backward(link),
        decreases backward(rest).len(),
    {
        match rest {
            None => {
                assert(backward(rest) + forward(acc) =~= forward(acc));
                return acc;
            },
            Some(node) => {
                let Node { value, next } = *node;
                let ghost before = forward(acc);
                acc = Some(Box::new(Node { value, next: acc }));
                assert(backward(next) + forward(acc) =~= backward(next).push(value) + before);
                rest = next;
            },
        }
    }
}

impl<T> Queue<T> {
    /// An empty queue.
    pub fn new() -> (q: Self)
        ensures
            q@ == Seq::<T>::empty(),
    {
        let q = Queue { head: None, back: None };
        assert(q@ =~= Seq::<T>::empty());
        q
    }

    /// Whether the queue holds no element.
    pub fn is_empty(&self) -> (r: bool)
        ensures
            r == (self@.len() == 0),
    {
        proof {
            use_type_invariant(self);
        }
        self.head.is_none()
    }

    /// Adds `value` at the back of the queue.
    pub fn enqueue(&mut self, value: T)
        ensures
            final(self)@ == after_enqueue(old(self)@, value),
    {
        proof {
            use_type_invariant(&*self);
        }
        let mut q = Queue { head: None, back: None };
        std::mem::swap(&mut q, self);
        let Queue { head, back } = q;
        if head.is_none() {
            let node = Box::new(Node { value, next: None });
            *self = Queue { head: Some(node), back: None };
            assert(forward::<T>(None) =~= Seq::empty());
            assert(forward(self.head) =~= seq![value]);
            assert(self@ =~= old(self)@.push(value));
        } else {
            let node = Box::new(Node { value, next: back });
            *self = Queue { head, back: Some(node) };
            assert(self@ =~= old(self)@.push(value));
        }
    }

    /// Removes the first element of the queue and gives it back, together
    /// with a reference to the element that now leads the queue, if any.
    pub fn dequeue(&mut self) -> (r: Option<(T, Option<&T>)>)
        ensures
            final(self)@ == after_dequeue(old(self)@),
            r is None <==> dequeue_result(old(self)@) is None,
            r matches Some((v, h)) ==> dequeue_result(old(self)@) == Some(
                (v, match h { Some(x) => Some(*x), None => None }),
            ),
    {
        proof {
            use_type_invariant(&*self);
        }
        let mut q = Queue { head: None, back: None };
        std::mem::swap(&mut q, self);
        let Queue { head, back } = q;
        match head {
            None => {
                *self = Queue { head: None, back };
                None
            },
            Some(node) => {
                let ghost whole = forward(Some(node));
                let Node { value, next } = *node;
                assert(whole == seq![value] + forward(next));
                assert(old(self)@ == whole + backward(back));
                if next.is_none() {
                    let front = turn_around(back);
                    *self = Queue { head: front, back: None };
                } else {
                    *self = Queue { head: next, back };
                }
                assert(self@ =~= old(self)@.drop_first());
                let lead = match &self.head {
                    Some(n) => Some(&n.value),
                    None => None,
                };
                Some((value, lead))
            },
        }
    }
}

} // verus!
