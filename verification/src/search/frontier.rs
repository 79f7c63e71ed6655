//! The two frontiers: the nodes that were made and wait to be expanded.
//!
//! `FifoFrontier` hands its nodes out in the order in which they came.
//! `CostFrontier` hands out a node of least cost first, and takes a cheaper node
//! for a state that already waits. Both hold a state at most once and know it by
//! its key.

use crate::problem::SearchState;
use crate::search::{EqOnNodeState, Node};
use orx_priority_queue::{DaryHeapWithMap, PriorityQueue, PriorityQueueDecKey, ResTryDecreaseKey};
use std::collections::{HashMap, HashSet, VecDeque};
use std::rc::Rc;
use vstd::prelude::*;

verus! {

broadcast use vstd::std_specs::hash::group_hash_axioms;

/// Keys queued by cost, each key at most once: a `DaryHeapWithMap<u64, isize>`
/// of `orx_priority_queue`. Verus does not look inside; all that it knows of a
/// queue is what the functions below say of `queued_costs`.
#[verifier::external_body]
pub struct CostQueue {
    heap: DaryHeapWithMap<u64, isize>,
}

/// What a queue holds: the keys that wait in it, each with its cost.
pub uninterp spec fn queued_costs(queue: CostQueue) -> Map<u64, isize>;

/// `DaryHeapWithMap::new`: a queue that holds nothing.
#[verifier::external_body]
fn queue_new() -> (made: CostQueue)
    ensures
        queued_costs(made) == (Map::<u64, isize>::empty()),
{
    CostQueue { heap: DaryHeapWithMap::new() }
}

/// `PriorityQueueDecKey::contains`: whether `key` waits in the queue.
#[verifier::external_body]
fn queue_contains(queue: &CostQueue, key: u64) -> (found: bool)
    ensures
        found == queued_costs(*queue).contains_key(key),
{
    queue.heap.contains(&key)
}

/// `PriorityQueue::push`: `key` enters the queue with `cost`. The queue takes a
/// key once only, so the key may not wait in it already.
#[verifier::external_body]
fn queue_push(queue: &mut CostQueue, key: u64, cost: isize)
    requires
        !queued_costs(*old(queue)).contains_key(key),
    ensures
        queued_costs(*final(queue)) == queued_costs(*old(queue)).insert(key, cost),
{
    queue.heap.push(key, cost)
}

/// `PriorityQueue::pop_node`: a key of least cost leaves the queue and is
/// returned; which one, where several cost the same, is left open. An empty
/// queue returns nothing and stays as it is.
#[verifier::external_body]
fn queue_pop_node(queue: &mut CostQueue) -> (popped: Option<u64>)
    ensures
        match popped {
            Some(key) => {
                &&& queued_costs(*old(queue)).contains_key(key)
                &&& forall|other: u64|
                    queued_costs(*old(queue)).contains_key(other) ==> queued_costs(*old(queue))[key]
                        <= #[trigger] queued_costs(*old(queue))[other]
                &&& queued_costs(*final(queue)) == queued_costs(*old(queue)).remove(key)
            },
            None => {
                &&& queued_costs(*old(queue)) == (Map::<u64, isize>::empty())
                &&& queued_costs(*final(queue)) == queued_costs(*old(queue))
            },
        },
{
    queue.heap.pop_node()
}

/// `PriorityQueueDecKey::try_decrease_key`: where `cost` is less than the cost
/// under which `key` waits, the key waits under `cost` from now on, and the
/// result is `true`; else nothing changes. The key must wait in the queue.
#[verifier::external_body]
fn queue_try_decrease_key(queue: &mut CostQueue, key: u64, cost: isize) -> (decreased: bool)
    requires
        queued_costs(*old(queue)).contains_key(key),
    ensures
        decreased == (cost < queued_costs(*old(queue))[key]),
        queued_costs(*final(queue)) == if decreased {
            queued_costs(*old(queue)).insert(key, cost)
        } else {
            queued_costs(*old(queue))
        },
{
    match queue.heap.try_decrease_key(&key, cost) {
        ResTryDecreaseKey::Decreased => true,
        ResTryDecreaseKey::Unchanged => false,
    }
}

/// The frontier of the breadth-first search: first in, first out.
pub struct FifoFrontier<S: SearchState, A> {
    queue: VecDeque<EqOnNodeState<S, A>>,
    keys: HashSet<u64>,
}

impl<S: SearchState, A> FifoFrontier<S, A> {
    /// The nodes that wait, the one that leaves next first.
    pub closed spec fn nodes(&self) -> Seq<Rc<Node<S, A>>> {
        self.queue@.map_values(|entry: EqOnNodeState<S, A>| entry.node_of())
    }

    /// The keys of the states that wait.
    pub closed spec fn keys(&self) -> Set<u64> {
        self.keys@
    }

    /// Each entry carries the key of its node's state.
    pub closed spec fn keyed(&self) -> bool {
        forall|i: int| 0 <= i < self.queue@.len() ==> (#[trigger] self.queue@[i]).well_formed()
    }

    /// The keys are those of the nodes that wait, and no two nodes share one.
    pub open spec fn well_formed(&self) -> bool {
        &&& self.keyed()
        &&& self.keys().finite()
        &&& forall|i: int|
            0 <= i < self.nodes().len() ==> self.keys().contains(
                (#[trigger] self.nodes()[i]).state.key_spec(),
            )
        &&& forall|k: u64|
            self.keys().contains(k) ==> exists|i: int|
                0 <= i < self.nodes().len() && (#[trigger] self.nodes()[i]).state.key_spec() == k
        &&& forall|i: int, j: int|
            0 <= i < j < self.nodes().len() ==> (#[trigger] self.nodes()[i]).state.key_spec() != (
            #[trigger] self.nodes()[j]).state.key_spec()
    }

    /// A frontier in which nothing waits.
    pub fn new() -> (made: Self)
        ensures
            made.well_formed(),
            made.nodes() == Seq::<Rc<Node<S, A>>>::empty(),
            made.keys() == Set::<u64>::empty(),
    {
        let made = FifoFrontier { queue: VecDeque::new(), keys: HashSet::new() };
        assert(made.nodes() =~= Seq::<Rc<Node<S, A>>>::empty());
        made
    }

    /// Whether a state with this key waits.
    pub fn contains(&self, key: u64) -> (found: bool)
        ensures
            found == self.keys().contains(key),
    {
        self.keys.contains(&key)
    }

    /// `entry` joins the frontier as the last to leave.
    pub fn push_back(&mut self, entry: EqOnNodeState<S, A>)
        requires
            old(self).well_formed(),
            !old(self).keys().contains(entry.key_of()),
        ensures
            final(self).well_formed(),
            final(self).nodes() == old(self).nodes().push(entry.node_of()),
            final(self).keys() == old(self).keys().insert(entry.key_of()),
    {
        let ghost before = *self;
        proof {
            use_type_invariant(&entry);
            entry.lemma_well_formed();
        }
        self.keys.insert(entry.key());
        self.queue.push_back(entry);
        proof {
            assert(self.nodes() =~= before.nodes().push(entry.node_of()));
            assert forall|k: u64| self.keys().contains(k) implies exists|i: int|
                0 <= i < self.nodes().len() && (#[trigger] self.nodes()[i]).state.key_spec()
                    == k by {
                if k == entry.key_of() {
                    assert(self.nodes()[before.nodes().len() as int].state.key_spec() == k);
                } else {
                    let i = choose|i: int|
                        0 <= i < before.nodes().len() && (#[trigger] before.nodes()[i]).state.key_spec()
                            == k;
                    assert(self.nodes()[i].state.key_spec() == k);
                }
            }
            assert forall|i: int, j: int| 0 <= i < j < self.nodes().len() implies (
            #[trigger] self.nodes()[i]).state.key_spec() != (
            #[trigger] self.nodes()[j]).state.key_spec() by {
                if j < before.nodes().len() {
                    assert(before.nodes()[i].state.key_spec() != before.nodes()[j].state.key_spec());
                } else {
                    assert(before.keys().contains(before.nodes()[i].state.key_spec()));
                }
            }
            assert forall|i: int| 0 <= i < self.nodes().len() implies self.keys().contains(
                (#[trigger] self.nodes()[i]).state.key_spec(),
            ) by {
                if i < before.nodes().len() {
                    assert(before.keys().contains(before.nodes()[i].state.key_spec()));
                }
            }
            assert forall|i: int| 0 <= i < self.queue@.len() implies (
            #[trigger] self.queue@[i]).well_formed() by {
                if i < before.queue@.len() {
                    assert(before.queue@[i].well_formed());
                }
            }
        }
    }

    /// The node that waited longest leaves the frontier, if any waits.
    pub fn pop_front(&mut self) -> (front: Option<EqOnNodeState<S, A>>)
        requires
            old(self).well_formed(),
        ensures
            final(self).well_formed(),
            match front {
                Some(entry) => {
                    &&& old(self).nodes().len() > 0
                    &&& entry.node_of() == old(self).nodes()[0]
                    &&& final(self).nodes() == old(self).nodes().subrange(
                        1,
                        old(self).nodes().len() as int,
                    )
                    &&& final(self).keys() == old(self).keys().remove(entry.key_of())
                },
                None => {
                    &&& old(self).nodes().len() == 0
                    &&& final(self).nodes() == old(self).nodes()
                    &&& final(self).keys() == old(self).keys()
                },
            },
    {
        let ghost before = *self;
        match self.queue.pop_front() {
            Some(entry) => {
                let key = entry.key();
                self.keys.remove(&key);
                proof {
                    let n = before.nodes().len() as int;
                    assert(before.queue@[0].well_formed());
                    assert(entry.node_of() == before.nodes()[0]);
                    assert(self.nodes() =~= before.nodes().subrange(1, n));
                    assert forall|i: int| 0 <= i < self.queue@.len() implies (
                    #[trigger] self.queue@[i]).well_formed() by {
                        assert(before.queue@[i + 1].well_formed());
                    }
                    assert forall|i: int| 0 <= i < self.nodes().len() implies self.keys().contains(
                        (#[trigger] self.nodes()[i]).state.key_spec(),
                    ) by {
                        assert(before.keys().contains(before.nodes()[i + 1].state.key_spec()));
                        assert(before.nodes()[0].state.key_spec() != before.nodes()[i
                            + 1].state.key_spec());
                    }
                    assert forall|k: u64| self.keys().contains(k) implies exists|i: int|
                        0 <= i < self.nodes().len() && (
                        #[trigger] self.nodes()[i]).state.key_spec() == k by {
                        let i = choose|i: int|
                            0 <= i < before.nodes().len() && (
                            #[trigger] before.nodes()[i]).state.key_spec() == k;
                        assert(self.nodes()[i - 1].state.key_spec() == k);
                    }
                    assert forall|i: int, j: int| 0 <= i < j < self.nodes().len() implies (
                    #[trigger] self.nodes()[i]).state.key_spec() != (
                    #[trigger] self.nodes()[j]).state.key_spec() by {
                        assert(before.nodes()[i + 1].state.key_spec() != before.nodes()[j
                            + 1].state.key_spec());
                    }
                }
                Some(entry)
            },
            None => None,
        }
    }
}

/// The frontier of the cost-ordered search: least cost first.
pub struct CostFrontier<S: SearchState, A> {
    queue: CostQueue,
    nodes: HashMap<u64, Rc<Node<S, A>>>,
}

impl<S: SearchState, A> CostFrontier<S, A> {
    /// The nodes that wait, each under the key of its state.
    pub closed spec fn entries(&self) -> Map<u64, Rc<Node<S, A>>> {
        self.nodes@
    }

    /// The queue holds the keys of the nodes that wait, each with its node's cost.
    pub closed spec fn queued(&self) -> bool {
        &&& queued_costs(self.queue).dom() == self.nodes@.dom()
        &&& forall|k: u64| #[trigger]
            self.nodes@.contains_key(k) ==> queued_costs(self.queue)[k] == self.nodes@[k].cost()
    }

    /// Each node waits under the key of its state, and the queue agrees.
    pub open spec fn well_formed(&self) -> bool {
        &&& self.queued()
        &&& self.entries().dom().finite()
        &&& forall|k: u64| #[trigger]
            self.entries().contains_key(k) ==> self.entries()[k].state.key_spec() == k
    }

    /// A frontier in which nothing waits.
    pub fn new() -> (made: Self)
        ensures
            made.well_formed(),
            made.entries() == Map::<u64, Rc<Node<S, A>>>::empty(),
    {
        let made = CostFrontier { queue: queue_new(), nodes: HashMap::new() };
        assert(queued_costs(made.queue).dom() =~= made.nodes@.dom());
        made
    }

    /// Whether a state with this key waits.
    pub fn contains(&self, key: u64) -> (found: bool)
        requires
            self.well_formed(),
        ensures
            found == self.entries().contains_key(key),
    {
        queue_contains(&self.queue, key)
    }

    /// `entry` joins the frontier under the cost of its node.
    pub fn push(&mut self, entry: EqOnNodeState<S, A>)
        requires
            old(self).well_formed(),
            !old(self).entries().contains_key(entry.key_of()),
        ensures
            final(self).well_formed(),
            final(self).entries() == old(self).entries().insert(entry.key_of(), entry.node_of()),
    {
        let cost = entry.node().path_cost();
        let key = entry.key();
        queue_push(&mut self.queue, key, cost);
        self.nodes.insert(key, entry.into_node());
        assert(queued_costs(self.queue).dom() =~= self.nodes@.dom());
    }

    /// A node of least cost leaves the frontier, if any waits. Which one, among
    /// several of the same cost, is left open.
    pub fn pop(&mut self) -> (least: Option<EqOnNodeState<S, A>>)
        requires
            old(self).well_formed(),
        ensures
            final(self).well_formed(),
            match least {
                Some(entry) => {
                    &&& old(self).entries().contains_key(entry.key_of())
                    &&& old(self).entries()[entry.key_of()] == entry.node_of()
                    &&& forall|k: u64| #[trigger]
                        old(self).entries().contains_key(k) ==> entry.node_of().cost() <= old(
                            self,
                        ).entries()[k].cost()
                    &&& final(self).entries() == old(self).entries().remove(entry.key_of())
                },
                None => {
                    &&& old(self).entries() == Map::<u64, Rc<Node<S, A>>>::empty()
                    &&& final(self).entries() == old(self).entries()
                },
            },
    {
        let ghost before = *self;
        match queue_pop_node(&mut self.queue) {
            Some(key) => {
                assert(before.nodes@.contains_key(key));
                match self.nodes.remove(&key) {
                    Some(node) => {
                        proof {
                            assert(queued_costs(self.queue).dom() =~= self.nodes@.dom());
                            assert forall|k: u64| #[trigger]
                                before.entries().contains_key(k) implies node.cost()
                                <= before.entries()[k].cost() by {
                                assert(queued_costs(before.queue)[key] <= queued_costs(
                                    before.queue,
                                )[k]);
                            }
                        }
                        Some(EqOnNodeState::pair(node, key))
                    },
                    None => None,
                }
            },
            None => {
                assert(self.nodes@ =~= Map::<u64, Rc<Node<S, A>>>::empty());
                None
            },
        }
    }

    /// The node of `entry` takes the place of the node that waits for the same
    /// state, where it is cheaper: cost and way change together. Else nothing
    /// changes. The result says whether it took the place.
    pub fn improve(&mut self, entry: EqOnNodeState<S, A>) -> (replaced: bool)
        requires
            old(self).well_formed(),
            old(self).entries().contains_key(entry.key_of()),
        ensures
            final(self).well_formed(),
            replaced == (entry.node_of().cost() < old(self).entries()[entry.key_of()].cost()),
            final(self).entries() == if replaced {
                old(self).entries().insert(entry.key_of(), entry.node_of())
            } else {
                old(self).entries()
            },
    {
        let cost = entry.node().path_cost();
        let key = entry.key();
        if queue_try_decrease_key(&mut self.queue, key, cost) {
            self.nodes.insert(key, entry.into_node());
            assert(queued_costs(self.queue).dom() =~= self.nodes@.dom());
            true
        } else {
            false
        }
    }
}

} // verus!
