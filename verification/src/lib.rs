//! An unbounded first-in first-out queue laid out as a Michael–Scott chain:
//! a sentinel node at the front whose payload slot is always empty, followed
//! by one linked node per queued element, and a length counter kept in step
//! with the chain.

use vstd::prelude::*;
use vstd::seq_lib::lemma_multiset_commutative;

verus! {

/// One cell of the queue's singly linked chain.
///
/// The payload slot is `None` exactly when the node is the sentinel at the
/// front of the chain; every node behind the sentinel carries a value.
struct Node<T> {
    elem: Option<T>,
    next: Option<Box<Node<T>>>,
}

impl<T> Node<T> {
    /// A node carrying one value, not yet linked to a successor.
    fn new(elem: T) -> (n: Node<T>)
        ensures
            n.elem == Some(elem),
            n.next is None,
    {
        Node { elem: Some(elem), next: None }
    }

    /// A sentinel node: empty payload slot, no successor.
    fn dummy() -> (n: Node<T>)
        ensures
            n.elem is None,
            n.next is None,
    {
        Node { elem: None, next: None }
    }
}

/// The values carried by a chain, front to back.
spec fn payloads<T>(chain: Option<Box<Node<T>>>) -> Seq<T>
    decreases chain,
{
    match chain {
        None => Seq::empty(),
        Some(node) => match node.elem {
            Some(v) => seq![v] + payloads(node.next),
            None => payloads(node.next),
        },
    }
}

/// Every node of the chain carries a value (only the sentinel in front of the
/// chain may have an empty payload slot).
spec fn loaded<T>(chain: Option<Box<Node<T>>>) -> bool
    decreases chain,
{
    match chain {
        None => true,
        Some(node) => node.elem is Some && loaded(node.next),
    }
}

/// An unbounded FIFO queue of the Michael–Scott shape: `head` is the sentinel
/// node, the elements live in the chain behind it, and `length` counts them.
///
/// Every operation here takes the queue with exclusive access, so the
/// contracts are exact: in particular `len` reports the true occupancy, the
/// guarantee the counter gives once all callers have quiesced.
pub struct LockFreeQueue<T> {
    head: Node<T>,
    length: usize,
}

impl<T> View for LockFreeQueue<T> {
    type V = Seq<T>;

    /// The queued elements, front (next to pop) first.
    closed spec fn view(&self) -> Seq<T> {
        payloads(self.head.next)
    }
}

impl<T> LockFreeQueue<T> {
    /// The sentinel's payload slot is empty, every node behind it is full,
    /// and the counter agrees with the chain.
    #[verifier::type_invariant]
    spec fn wf(self) -> bool {
        &&& self.head.elem is None
        &&& loaded(self.head.next)
        &&& self.length == payloads(self.head.next).len()
    }

    /// An empty queue: a lone sentinel, counter at zero.
    pub fn new() -> (q: Self)
        ensures
            q@ == Seq::<T>::empty(),
    {
        LockFreeQueue { head: Node::dummy(), length: 0 }
    }

    /// The element count. With no operation in flight the counter is exact.
    pub fn len(&self) -> (n: usize)
        ensures
            n == self@.len(),
    {
        proof {
            use_type_invariant(&*self);
        }
        self.length
    }

    /// Whether the queue holds no element; `len() == 0`.
    pub fn is_empty(&self) -> (b: bool)
        ensures
            b == (self@.len() == 0),
    {
        self.len() == 0
    }

    /// Enqueue `elem` at the back of the chain. Never fails; the element is
    /// visible to every later `pop`.
    pub fn push(&mut self, elem: T)
        requires
            old(self)@.len() < usize::MAX,
        ensures
            final(self)@ == old(self)@.push(elem),
    {
        proof {
            use_type_invariant(&*self);
        }
        let mut q = LockFreeQueue { head: Node::dummy(), length: 0 };
        std::mem::swap(&mut q, self);
        let LockFreeQueue { head, length } = q;
        let Node { elem: slot, next } = head;
        let next = append(next, elem);
        *self = LockFreeQueue { head: Node { elem: slot, next }, length: length + 1 };
    }

    /// Dequeue the front element, or report that the queue is empty. On
    /// success the front node's successor becomes the new sentinel and hands
    /// its payload to the caller; the old sentinel is given up.
    pub fn pop(&mut self) -> (r: Option<T>)
        ensures
            old(self)@.len() == 0 ==> r is None && final(self)@ == old(self)@,
            old(self)@.len() > 0 ==> r == Some(old(self)@[0]) && final(self)@ == old(
                self,
            )@.drop_first(),
    {
        proof {
            use_type_invariant(&*self);
        }
        let mut q = LockFreeQueue { head: Node::dummy(), length: 0 };
        std::mem::swap(&mut q, self);
        let LockFreeQueue { head, length } = q;
        let Node { elem: slot, next } = head;
        match next {
            None => {
                *self = LockFreeQueue { head: Node { elem: slot, next: None }, length };
                None
            },
            Some(node) => {
                let Node { elem: got, next: rest } = *node;
                proof {
                    assert(old(self)@.drop_first() =~= payloads(rest));
                }
                *self = LockFreeQueue { head: Node { elem: None, next: rest }, length: length - 1 };
                got
            },
        }
    }
}

impl<T> Default for LockFreeQueue<T> {
    /// The same empty queue that `new` builds.
    fn default() -> (q: Self)
        ensures
            q@ == Seq::<T>::empty(),
    {
        LockFreeQueue::new()
    }
}

/// No element is lost and none is duplicated on the way through the queue:
/// after any number `k` of pops from a queue that held the sequence `s`, the
/// values already handed out are exactly the first `k` of `s` in order, and
/// together with the values still queued they make up exactly `s` — as a
/// concatenation and as a multiset.
pub proof fn lemma_no_loss_no_duplication<T>(s: Seq<T>, k: int)
    requires
        0 <= k <= s.len(),
    ensures
        s.take(k) + s.skip(k) == s,
        s.take(k).to_multiset().add(s.skip(k).to_multiset()) == s.to_multiset(),
{
    assert(s.take(k) + s.skip(k) =~= s);
    lemma_multiset_commutative(s.take(k), s.skip(k));
    assert(s.take(k).to_multiset().add(s.skip(k).to_multiset()) =~= s.to_multiset());
}

/// Pops observe elements in exactly the order they were linked: a queue that
/// held `s` and has already answered `k` pops holds `s.skip(k)`, so its next
/// pop returns `s[k]` and leaves it holding the elements of `s` behind
/// position `k`.
pub proof fn lemma_fifo_order<T>(s: Seq<T>, k: int)
    requires
        0 <= k < s.len(),
    ensures
        s.skip(k)[0] == s[k],
        s.skip(k).drop_first() == s.skip(k + 1),
{
    assert(s.skip(k).drop_first() =~= s.skip(k + 1));
}

/// Link a freshly loaded node behind the last node of `chain`.
fn append<T>(chain: Option<Box<Node<T>>>, elem: T) -> (r: Option<Box<Node<T>>>)
    requires
        loaded(chain),
    ensures
        loaded(r),
        payloads(r) == payloads(chain).push(elem),
    decreases chain,
{
    match chain {
        None => {
            let r = Some(Box::new(Node::new(elem)));
            proof {
                assert(payloads(r) =~= payloads(chain).push(elem));
            }
            r
        },
        Some(node) => {
            let Node { elem: slot, next } = *node;
            let ghost tail_before = payloads(next);
            let rest = append(next, elem);
            let r = Some(Box::new(Node { elem: slot, next: rest }));
            proof {
                assert(payloads(r) =~= payloads(chain).push(elem)) by {
                    assert(payloads(rest) == tail_before.push(elem));
                }
            }
            r
        },
    }
}

} // verus!

