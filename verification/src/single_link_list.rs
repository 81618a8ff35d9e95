//! A singly-linked list.
//!
//! The nodes live in an arena that the list owns. A link is a handle into
//! that arena: `next` links and the list's `head` and `tail` name nodes of the
//! list.

use crate::arena::{Arena, NodeId};
use crate::model::{appended, popped, prepended};
use vstd::prelude::*;

verus! {

/// A link to the following node.
pub type SingleLink = Option<NodeId>;

/// One element of the list.
#[derive(Debug)]
pub struct Node<T> {
    pub data: T,
    pub next: SingleLink,
}

impl<T> Node<T> {
    /// A node that holds `data` and is linked to nothing.
    pub fn new(data: T) -> (node: Self)
        ensures
            node == (Node { data, next: None }),
    {
        Node { data, next: None }
    }
}

/// The list: its nodes, and links to the first and the last of them.
pub struct LinkedList<T> {
    length: usize,
    head: SingleLink,
    tail: SingleLink,
    nodes: Arena<Node<T>>,
    /// The handles of the nodes, from head to tail.
    order: Ghost<Seq<NodeId>>,
}

/// The link to place `i` of `ids`.
spec fn link_in(ids: Seq<NodeId>, i: int) -> SingleLink {
    if 0 <= i < ids.len() {
        Some(ids[i])
    } else {
        None
    }
}

/// The node at place `i` is linked to the node that follows it in `ids`.
spec fn linked_at<T>(ids: Seq<NodeId>, nodes: Map<NodeId, Node<T>>, i: int) -> bool {
    nodes[ids[i]].next == link_in(ids, i + 1)
}

/// `nodes` holds exactly the nodes that `ids` names, each linked to the node
/// that follows it in `ids`.
spec fn linked<T>(ids: Seq<NodeId>, nodes: Map<NodeId, Node<T>>) -> bool {
    &&& ids.no_duplicates()
    &&& forall|id: NodeId| nodes.dom().contains(id) <==> ids.contains(id)
    &&& forall|i: int| 0 <= i < ids.len() ==> #[trigger] linked_at(ids, nodes, i)
}

/// The values of the nodes that `ids` names, in the order of `ids`.
spec fn values_in<T>(ids: Seq<NodeId>, nodes: Map<NodeId, Node<T>>) -> Seq<T> {
    Seq::new(ids.len(), |i: int| nodes[ids[i]].data)
}

/// `node` with its `next` link replaced.
spec fn with_next<T>(node: Node<T>, next: SingleLink) -> Node<T> {
    Node { data: node.data, next }
}

/// Linking a new node behind the last one keeps the nodes linked in order
/// and adds its value at the end.
proof fn lemma_link_back<T>(ids: Seq<NodeId>, nodes: Map<NodeId, Node<T>>, id: NodeId, data: T)
    requires
        linked(ids, nodes),
        !nodes.dom().contains(id),
    ensures
        ({
            let added = nodes.insert(id, Node { data, next: None });
            let relinked = if ids.len() > 0 {
                added.insert(ids.last(), with_next(added[ids.last()], Some(id)))
            } else {
                added
            };
            &&& ids.len() > 0 ==> added.dom().contains(ids.last())
            &&& linked(ids.push(id), relinked)
            &&& values_in(ids.push(id), relinked) == values_in(ids, nodes).push(data)
        }),
{
    let added = nodes.insert(id, Node { data, next: None });
    let relinked = if ids.len() > 0 {
        added.insert(ids.last(), with_next(added[ids.last()], Some(id)))
    } else {
        added
    };
    let longer = ids.push(id);
    assert forall|i: int| 0 <= i < ids.len() implies ids[i] != id by {
        assert(ids.contains(ids[i]));
    }
    if ids.len() > 0 {
        assert(ids.contains(ids.last()));
    }
    assert forall|x: NodeId| relinked.dom().contains(x) <==> longer.contains(x) by {
        vstd::seq_lib::lemma_seq_contains_after_push(ids, id, x);
    }
    assert forall|i: int| 0 <= i < longer.len() implies #[trigger] linked_at(
        longer,
        relinked,
        i,
    ) by {
        if i < ids.len() {
            assert(linked_at(ids, nodes, i));
        }
    }
}

/// Linking a new node before the first one keeps the nodes linked in order
/// and adds its value at the front.
proof fn lemma_link_front<T>(ids: Seq<NodeId>, nodes: Map<NodeId, Node<T>>, id: NodeId, data: T)
    requires
        linked(ids, nodes),
        !nodes.dom().contains(id),
    ensures
        ({
            let added = nodes.insert(id, Node { data, next: link_in(ids, 0) });
            &&& linked(seq![id] + ids, added)
            &&& values_in(seq![id] + ids, added) == seq![data] + values_in(ids, nodes)
        }),
{
    let added = nodes.insert(id, Node { data, next: link_in(ids, 0) });
    let longer = seq![id] + ids;
    assert forall|i: int| 0 <= i < ids.len() implies ids[i] != id by {
        assert(ids.contains(ids[i]));
    }
    assert forall|x: NodeId| added.dom().contains(x) <==> longer.contains(x) by {
        if ids.contains(x) {
            assert(longer[ids.index_of(x) + 1] == x);
        }
        if longer.contains(x) && x != id {
            assert(ids[longer.index_of(x) - 1] == x);
        }
        assert(longer[0] == id);
    }
    assert forall|i: int| 0 <= i < longer.len() implies #[trigger] linked_at(longer, added, i) by {
        if i > 0 {
            assert(linked_at(ids, nodes, i - 1));
        }
    }
}

/// Taking the first node out keeps the other nodes linked in order and
/// takes its value from the front.
proof fn lemma_unlink_front<T>(ids: Seq<NodeId>, nodes: Map<NodeId, Node<T>>)
    requires
        linked(ids, nodes),
        ids.len() > 0,
    ensures
        nodes.dom().contains(ids[0]),
        linked(ids.drop_first(), nodes.remove(ids[0])),
        values_in(ids.drop_first(), nodes.remove(ids[0])) == values_in(ids, nodes).drop_first(),
{
    let removed = nodes.remove(ids[0]);
    let shorter = ids.drop_first();
    assert(ids.contains(ids[0]));
    assert forall|x: NodeId| removed.dom().contains(x) <==> shorter.contains(x) by {
        if ids.contains(x) && x != ids[0] {
            assert(shorter[ids.index_of(x) - 1] == x);
        }
        if shorter.contains(x) {
            assert(ids[shorter.index_of(x) + 1] == x);
        }
    }
    assert forall|i: int| 0 <= i < shorter.len() implies #[trigger] linked_at(
        shorter,
        removed,
        i,
    ) by {
        assert(linked_at(ids, nodes, i + 1));
    }
}

impl<T> View for LinkedList<T> {
    type V = Seq<T>;

    /// The values of the list, from head to tail.
    closed spec fn view(&self) -> Seq<T> {
        values_in(self.order@, self.nodes@)
    }
}

impl<T> LinkedList<T> {
    /// The handles of the nodes, from head to tail. A node keeps its handle
    /// for as long as it is in the list.
    pub closed spec fn ids(&self) -> Seq<NodeId> {
        self.order@
    }

    /// The handles of the nodes that have left the list. None of them names a
    /// node of the list again.
    pub closed spec fn expired(&self) -> Set<NodeId> {
        self.nodes.expired()
    }

    /// The link to the node at place `i`: absent where the list has no such
    /// place.
    pub open spec fn link(&self, i: int) -> SingleLink {
        if 0 <= i < self.ids().len() {
            Some(self.ids()[i])
        } else {
            None
        }
    }

    /// The place of the node that `link` names: none where the link is absent
    /// or names no node of this list.
    pub open spec fn position(&self, link: SingleLink) -> Option<int> {
        match link {
            Some(id) => if self.ids().contains(id) {
                Some(self.ids().index_of(id))
            } else {
                None
            },
            None => None,
        }
    }

    /// The node at place `i`, with its link.
    pub open spec fn node_at(&self, i: int) -> Node<T> {
        Node { data: self@[i], next: self.link(i + 1) }
    }

    /// The link that a traversal holds after `steps` steps along `next` links
    /// from `start`; a step from an absent link or from a link that names no
    /// node of this list gives an absent link.
    pub open spec fn forward(&self, start: SingleLink, steps: nat) -> SingleLink
        decreases steps,
    {
        if steps == 0 {
            start
        } else {
            match self.position(self.forward(start, (steps - 1) as nat)) {
                Some(i) => self.node_at(i).next,
                None => None,
            }
        }
    }

    /// The list is well formed: `length` counts the nodes, `head` and `tail`
    /// name the first and the last of them, each node is linked to its
    /// neighbours, and the arena holds no other node.
    pub closed spec fn wf(&self) -> bool {
        let ids = self.order@;
        &&& self.nodes.wf()
        &&& self.length == ids.len()
        &&& self.nodes@.dom().len() == ids.len()
        &&& linked(ids, self.nodes@)
        &&& self.head == link_in(ids, 0)
        &&& self.tail == link_in(ids, ids.len() - 1)
    }

    /// A list has one handle for each value, no handle twice, and none that
    /// has expired; each handle has its own place.
    pub proof fn lemma_ids(&self)
        requires
            self.wf(),
        ensures
            self.ids().len() == self@.len(),
            self.ids().no_duplicates(),
            forall|i: int|
                0 <= i < self.ids().len() ==> !self.expired().contains(#[trigger] self.ids()[i]),
            forall|i: int|
                0 <= i < self.ids().len() ==> #[trigger] self.position(self.link(i)) == Some(i),
    {
        self.nodes.lemma_handles();
        assert forall|i: int| 0 <= i < self.ids().len() implies !self.expired().contains(
            #[trigger] self.ids()[i],
        ) by {
            assert(self.ids().contains(self.ids()[i]));
        }
    }

    /// Following `next` links from the head visits the nodes in order, one
    /// for each value: after `steps` steps the traversal is at place `steps`.
    /// So it is at a node for as many steps as the list has values, the last
    /// node it visits is the tail, and the step after that ends it.
    pub proof fn lemma_traversal(&self, steps: nat)
        requires
            self.wf(),
        ensures
            self.forward(self.link(0), steps) == self.link(steps as int),
            steps < self@.len() ==> self.forward(self.link(0), steps) is Some,
            steps >= self@.len() ==> self.forward(self.link(0), steps) is None,
        decreases steps,
    {
        if steps > 0 {
            self.lemma_traversal((steps - 1) as nat);
        }
    }

    /// An empty list.
    pub fn new() -> (list: Self)
        ensures
            list.wf(),
            list@ == Seq::<T>::empty(),
            list.ids() == Seq::<NodeId>::empty(),
            list.expired() == Set::<NodeId>::empty(),
    {
        LinkedList {
            length: 0,
            head: None,
            tail: None,
            nodes: Arena::new(),
            order: Ghost(Seq::empty()),
        }
    }

    /// Adds `data` behind the tail, under a handle that no node of this list
    /// has had before.
    pub fn append(&mut self, data: T)
        requires
            old(self).wf(),
        ensures
            final(self).wf(),
            final(self)@ == appended(old(self)@, data),
            final(self).ids().len() == old(self).ids().len() + 1,
            final(self).ids().drop_last() == old(self).ids(),
            !old(self).ids().contains(final(self).ids().last()),
            !old(self).expired().contains(final(self).ids().last()),
            final(self).expired() == old(self).expired(),
    {
        let node = Node::new(data);
        let id = self.nodes.insert(node);
        proof {
            lemma_link_back(self.order@, old(self).nodes@, id, data);
            old(self).nodes.lemma_handles();
        }
        match self.tail.take() {
            Some(last) => {
                self.nodes.get_mut(last).unwrap().next = Some(id);
            },
            None => {
                self.head = Some(id);
            },
        }
        proof {
            self.nodes.lemma_handles();
            self.order@ = self.order@.push(id);
        }
        self.length += 1;
        self.tail = Some(id);
    }

    /// Adds `data` before the head, under a handle that no node of this list
    /// has had before.
    pub fn prepend(&mut self, data: T)
        requires
            old(self).wf(),
        ensures
            final(self).wf(),
            final(self)@ == prepended(old(self)@, data),
            final(self).ids().len() == old(self).ids().len() + 1,
            final(self).ids().drop_first() == old(self).ids(),
            !old(self).ids().contains(final(self).ids().first()),
            !old(self).expired().contains(final(self).ids().first()),
            final(self).expired() == old(self).expired(),
    {
        let mut node = Node::new(data);
        node.next = self.head;
        let id = self.nodes.insert(node);
        proof {
            lemma_link_front(self.order@, old(self).nodes@, id, data);
            old(self).nodes.lemma_handles();
            self.nodes.lemma_handles();
            self.order@ = seq![id] + self.order@;
        }
        if self.head.is_none() {
            self.tail = Some(id);
        }
        self.length += 1;
        self.head = Some(id);
    }

    /// Takes the head node out and returns its value; its handle expires.
    /// An empty list has nothing to return and stays as it is.
    pub fn pop(&mut self) -> (data: Option<T>)
        requires
            old(self).wf(),
        ensures
            final(self).wf(),
            data == popped(old(self)@).0,
            final(self)@ == popped(old(self)@).1,
            final(self).ids() == (if old(self).ids().len() == 0 {
                old(self).ids()
            } else {
                old(self).ids().drop_first()
            }),
            final(self).expired() == (if old(self).ids().len() == 0 {
                old(self).expired()
            } else {
                old(self).expired().insert(old(self).ids()[0])
            }),
    {
        match self.head.take() {
            Some(first) => {
                proof {
                    lemma_unlink_front(self.order@, self.nodes@);
                    self.nodes.lemma_handles();
                    assert(linked_at(self.order@, self.nodes@, 0));
                }
                let node = self.nodes.remove(first).unwrap();
                match node.next {
                    Some(second) => {
                        self.head = Some(second);
                    },
                    None => {
                        self.tail.take();
                    },
                }
                proof {
                    self.order@ = self.order@.drop_first();
                }
                self.length -= 1;
                Some(node.data)
            },
            None => None,
        }
    }

    /// The number of nodes.
    pub fn length(&self) -> (length: usize)
        requires
            self.wf(),
        ensures
            length == self@.len(),
    {
        self.length
    }

    /// The link to the first node.
    pub fn head(&self) -> (head: SingleLink)
        requires
            self.wf(),
        ensures
            head == self.link(0),
    {
        self.head
    }

    /// The link to the last node.
    pub fn tail(&self) -> (tail: SingleLink)
        requires
            self.wf(),
        ensures
            tail == self.link(self@.len() - 1),
    {
        self.tail
    }

    /// The node that `id` names, if it is a node of this list.
    pub fn get(&self, id: NodeId) -> (node: Option<&Node<T>>)
        requires
            self.wf(),
        ensures
            node == (match self.position(Some(id)) {
                Some(i) => Some(&self.node_at(i)),
                None => None,
            }),
    {
        proof {
            if self.ids().contains(id) {
                assert(linked_at(self.order@, self.nodes@, self.ids().index_of(id)));
            }
        }
        self.nodes.get(id)
    }
}

impl<T: Clone> LinkedList<T> {
    /// Copies of the values, from head to tail, gathered by following the
    /// `next` links from the head.
    pub fn to_vec(&self) -> (values: Vec<T>)
        requires
            self.wf(),
        ensures
            values@.len() == self@.len(),
            forall|i: int| 0 <= i < self@.len() ==> cloned(self@[i], #[trigger] values@[i]),
    {
        let mut values = Vec::new();
        let mut current = self.head;
        while current.is_some()
            invariant
                self.wf(),
                values@.len() <= self@.len(),
                current == self.link(values@.len() as int),
                forall|i: int| 0 <= i < values@.len() ==> cloned(self@[i], #[trigger] values@[i]),
            decreases self@.len() - values@.len(),
        {
            let node = self.get(current.unwrap()).unwrap();
            values.push(node.data.clone());
            current = node.next;
        }
        values
    }
}

} // verus!
