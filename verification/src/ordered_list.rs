//! A singly linked list of nodes in strictly ascending key order, held in an
//! arena and addressed by node handles.
//!
//! A handle stays good for as long as its node is linked, whatever is
//! inserted or removed around it, so a position in the list can be kept
//! outside the list. A cursor is such a position: the node it stands on and
//! the link that leads there. The place of a node that was unlinked is used
//! again for a later node, so the arena grows only when no place is spare.

use vstd::prelude::*;
use crate::growable_array::NULL;

verus! {

/// A node: its key, its value if it carries one, and the node after it.
struct Node<V> {
    key: u64,
    value: Option<V>,
    next: usize,
}

/// A position in a list: `curr` is the node it stands on (`NULL` past the
/// end), `prev` the node whose link leads to it (`NULL` for the head link).
#[derive(Clone, Copy, Debug, PartialEq, Eq, Structural)]
pub struct Cursor {
    pub prev: usize,
    pub curr: usize,
}

/// The list. A node without a value marks a place; a node with a value
/// carries data.
pub struct List<V> {
    nodes: Vec<Node<V>>,
    head: usize,
    free: Vec<usize>,
    order: Ghost<Seq<int>>,
    index: Ghost<Map<u64, int>>,
}

impl<V> List<V> {
    spec fn at(&self, p: int) -> usize {
        if 0 <= p < self.order@.len() {
            self.order@[p] as usize
        } else {
            NULL
        }
    }

    spec fn key_at(&self, p: int) -> u64 {
        self.nodes@[self.order@[p]].key
    }

    spec fn position(&self, cursor: Cursor) -> int {
        if cursor.prev == NULL {
            0
        } else {
            self.order@.index_of(cursor.prev as int) + 1
        }
    }

    spec fn place_ok(&self, p: int) -> bool {
        &&& 0 <= self.order@[p] < self.nodes@.len()
        &&& self.nodes@[self.order@[p]].next == self.at(p + 1)
        &&& self.index@.contains_key(self.key_at(p))
        &&& self.index@[self.key_at(p)] == self.order@[p]
    }

    spec fn spare_ok(&self, f: int) -> bool {
        &&& self.free@[f] < self.nodes@.len()
        &&& !self.order@.contains(self.free@[f] as int)
    }

    spec fn key_ok(&self, k: u64) -> bool {
        &&& self.order@.contains(self.index@[k])
        &&& 0 <= self.index@[k] < self.nodes@.len()
        &&& self.nodes@[self.index@[k]].key == k
    }

    /// The invariant of the list: the links follow the order of the keys, and
    /// no key occurs twice.
    pub closed spec fn wf(&self) -> bool {
        &&& self.nodes@.len() <= usize::MAX
        &&& self.head == self.at(0)
        &&& forall|p: int| 0 <= p < self.order@.len() ==> #[trigger] self.place_ok(p)
        &&& forall|p: int, q: int|
            0 <= p < q < self.order@.len() ==> #[trigger] self.key_at(p) < #[trigger] self.key_at(
                q,
            )
        &&& forall|k: u64| #[trigger] self.index@.contains_key(k) ==> self.key_ok(k)
        &&& self.order@.len() + self.free@.len() == self.nodes@.len()
        &&& self.free@.no_duplicates()
        &&& forall|f: int| 0 <= f < self.free@.len() ==> #[trigger] self.spare_ok(f)
    }

    /// Number of places in the arena.
    pub closed spec fn spec_node_count(&self) -> nat {
        self.nodes@.len()
    }

    /// Number of nodes in the list.
    pub closed spec fn spec_linked_count(&self) -> nat {
        self.order@.len()
    }

    /// The places in the arena that wait to be used again; the last is the
    /// next to be used.
    pub closed spec fn spares(&self) -> Seq<usize> {
        self.free@
    }

    /// Whether `node` is in the list.
    pub closed spec fn linked(&self, node: usize) -> bool {
        self.order@.contains(node as int)
    }

    /// The key of `node`.
    pub closed spec fn key_of(&self, node: usize) -> u64 {
        self.nodes@[node as int].key
    }

    /// The value of `node`.
    pub closed spec fn value_of(&self, node: usize) -> Option<V> {
        self.nodes@[node as int].value
    }

    /// The linked node with key `key`, if there is one.
    pub closed spec fn node_of(&self, key: u64) -> usize {
        self.index@[key] as usize
    }

    /// The list as a map from the keys of its nodes to their values.
    pub closed spec fn view(&self) -> Map<u64, Option<V>> {
        Map::new(
            |k: u64| self.index@.contains_key(k),
            |k: u64| self.nodes@[self.index@[k]].value,
        )
    }

    /// Whether `cursor` is a position of this list.
    pub closed spec fn holds(&self, cursor: Cursor) -> bool {
        &&& cursor.prev != NULL ==> self.order@.contains(cursor.prev as int)
        &&& cursor.curr == self.at(self.position(cursor))
    }

    /// Whether everything up to the link of `cursor` lies before `key`.
    pub open spec fn before(&self, cursor: Cursor, key: u64) -> bool {
        cursor.prev != NULL ==> self.key_of(cursor.prev) < key
    }

    /// Whether `key` belongs exactly between the link of `cursor` and the
    /// node it stands on.
    pub open spec fn gap(&self, cursor: Cursor, key: u64) -> bool {
        &&& self.before(cursor, key)
        &&& cursor.curr != NULL ==> key < self.key_of(cursor.curr)
    }

    proof fn lemma_index_of(&self, p: int)
        requires
            self.wf(),
            0 <= p < self.order@.len(),
        ensures
            self.order@.index_of(self.order@[p]) == p,
            self.order@.contains(self.order@[p]),
            0 <= self.order@[p] < self.nodes@.len(),
    {
        let q = self.order@.index_of(self.order@[p]);
        assert(0 <= q < self.order@.len() && self.order@[q] == self.order@[p]);
        assert(self.place_ok(p));
        if q < p {
            assert(self.key_at(q) < self.key_at(p));
        } else if p < q {
            assert(self.key_at(p) < self.key_at(q));
        }
    }

    proof fn lemma_places_differ(&self, p: int, q: int)
        requires
            self.wf(),
            0 <= p < self.order@.len(),
            0 <= q < self.order@.len(),
            p != q,
        ensures
            self.key_at(p) != self.key_at(q),
            self.order@[p] != self.order@[q],
    {
        if q < p {
            assert(self.key_at(q) < self.key_at(p));
        } else {
            assert(self.key_at(p) < self.key_at(q));
        }
    }

    proof fn lemma_position(&self, node: int) -> (p: int)
        requires
            self.wf(),
            self.order@.contains(node),
        ensures
            0 <= p < self.order@.len(),
            self.order@[p] == node,
            self.order@.index_of(node) == p,
            0 <= node < self.nodes@.len(),
            self.place_ok(p),
    {
        let p = self.order@.index_of(node);
        assert(self.place_ok(p));
        p
    }

    /// A linked node is what the view holds under its key.
    pub proof fn lemma_linked_in_view(&self, node: usize)
        requires
            self.wf(),
            self.linked(node),
        ensures
            self@.contains_key(self.key_of(node)),
            self@[self.key_of(node)] == self.value_of(node),
            self.node_of(self.key_of(node)) == node,
            node != NULL,
    {
        let p = self.lemma_position(node as int);
    }

    /// What the view holds under a key is the value of a linked node.
    pub proof fn lemma_view_is_linked(&self, key: u64)
        requires
            self.wf(),
            self@.contains_key(key),
        ensures
            self.linked(self.node_of(key)),
            self.key_of(self.node_of(key)) == key,
            self.value_of(self.node_of(key)) == self@[key],
    {
        assert(self.key_ok(key));
    }

    /// The handles of an arena fit in a machine word, and every place is
    /// that of a linked node or spare.
    pub proof fn lemma_places(&self)
        requires
            self.wf(),
        ensures
            self.spec_linked_count() + self.spares().len() == self.spec_node_count(),
            forall|i: int|
                0 <= i < self.spares().len() ==> !self.linked(#[trigger] self.spares()[i])
                    && self.spares()[i] < self.spec_node_count(),
            self.spares().no_duplicates(),
            self.spec_node_count() <= usize::MAX,
    {
        assert forall|i: int| 0 <= i < self.spares().len() implies !self.linked(
            #[trigger] self.spares()[i],
        ) && self.spares()[i] < self.spec_node_count() by {
            assert(self.spare_ok(i));
        }
    }

    /// An empty list.
    pub fn new() -> (list: Self)
        ensures
            list.wf(),
            list@ == Map::<u64, Option<V>>::empty(),
            list.spec_node_count() == 0,
            list.spec_linked_count() == 0,
            list.spares() == Seq::<usize>::empty(),
    {
        let list = List {
            nodes: Vec::new(),
            head: NULL,
            free: Vec::new(),
            order: Ghost(Seq::empty()),
            index: Ghost(Map::empty()),
        };
        proof {
            assert(list@ =~= Map::<u64, Option<V>>::empty());
        }
        list
    }

    /// Number of places in the arena.
    pub fn node_count(&self) -> (count: usize)
        ensures
            count == self.spec_node_count(),
    {
        self.nodes.len()
    }

    /// Number of nodes in the list.
    pub fn linked_count(&self) -> (count: usize)
        requires
            self.wf(),
        ensures
            count == self.spec_linked_count(),
    {
        self.nodes.len() - self.free.len()
    }

    /// Number of places in the arena that wait to be used again.
    pub fn spare_count(&self) -> (count: usize)
        ensures
            count == self.spares().len(),
    {
        self.free.len()
    }

    /// The position at the head of the list.
    pub fn head(&self) -> (cursor: Cursor)
        requires
            self.wf(),
        ensures
            self.holds(cursor),
            cursor.prev == NULL,
    {
        Cursor { prev: NULL, curr: self.head }
    }

    /// The position just after the linked node `node`.
    pub fn cursor_after(&self, node: usize) -> (cursor: Cursor)
        requires
            self.wf(),
            self.linked(node),
        ensures
            self.holds(cursor),
            cursor.prev == node,
            node != NULL,
    {
        proof {
            let p = self.lemma_position(node as int);
        }
        Cursor { prev: node, curr: self.nodes[node].next }
    }

    /// The key of the linked node `node`.
    pub fn key(&self, node: usize) -> (key: u64)
        requires
            self.wf(),
            self.linked(node),
        ensures
            key == self.key_of(node),
    {
        proof {
            let p = self.lemma_position(node as int);
        }
        self.nodes[node].key
    }

    /// The value of the linked node `node`.
    pub fn value(&self, node: usize) -> (value: Option<&V>)
        requires
            self.wf(),
            self.linked(node),
        ensures
            value is Some <==> self.value_of(node) is Some,
            value is Some ==> *value.unwrap() == self.value_of(node).unwrap(),
    {
        proof {
            let p = self.lemma_position(node as int);
        }
        self.nodes[node].value.as_ref()
    }

    /// Moves `cursor` forward to the first node whose key is not below `key`,
    /// and tells whether that node has the key itself.
    pub fn find(&self, cursor: &mut Cursor, key: u64) -> (found: bool)
        requires
            self.wf(),
            self.holds(*old(cursor)),
            self.before(*old(cursor), key),
        ensures
            self.holds(*final(cursor)),
            self.before(*final(cursor), key),
            found == self@.contains_key(key),
            found ==> final(cursor).curr == self.node_of(key) && self.linked(final(cursor).curr),
            !found ==> self.gap(*final(cursor), key),
    {
        let ghost mut p = self.position(*cursor);
        proof {
            if cursor.prev != NULL {
                let q = self.lemma_position(cursor.prev as int);
                assert forall|i: int| 0 <= i < p implies #[trigger] self.key_at(i) < key by {
                    if i < q {
                        assert(self.key_at(i) < self.key_at(q));
                    }
                }
            }
        }
        loop
            invariant_except_break
                self.wf(),
                self.holds(*cursor),
                p == self.position(*cursor),
                0 <= p <= self.order@.len(),
                forall|i: int| 0 <= i < p ==> #[trigger] self.key_at(i) < key,
            ensures
                self.wf(),
                self.holds(*cursor),
                self.before(*cursor, key),
                p == self.position(*cursor),
                0 <= p <= self.order@.len(),
                forall|i: int| 0 <= i < p ==> #[trigger] self.key_at(i) < key,
                cursor.curr != NULL ==> key <= self.nodes@[cursor.curr as int].key,
            decreases self.order@.len() - p,
        {
            proof {
                if cursor.prev != NULL {
                    let q = self.lemma_position(cursor.prev as int);
                    assert(self.key_at(q) < key);
                }
            }
            if cursor.curr == NULL {
                break ;
            }
            proof {
                self.lemma_index_of(p);
                assert(self.place_ok(p));
            }
            if self.nodes[cursor.curr].key >= key {
                break ;
            }
            cursor.prev = cursor.curr;
            cursor.curr = self.nodes[cursor.curr].next;
            proof {
                assert(self.key_at(p) < key);
                p = p + 1;
            }
        }
        if cursor.curr == NULL {
            proof {
                if p < self.order@.len() {
                    assert(self.place_ok(p));
                }
                if self.index@.contains_key(key) {
                    assert(self.key_ok(key));
                    let q = self.lemma_position(self.index@[key]);
                    assert(self.key_at(q) < key);
                }
            }
            false
        } else {
            proof {
                self.lemma_index_of(p);
                assert(self.place_ok(p));
                if self.index@.contains_key(key) {
                    assert(self.key_ok(key));
                    let q = self.lemma_position(self.index@[key]);
                    if q > p {
                        assert(self.key_at(p) < self.key_at(q));
                    } else if q < p {
                        assert(self.key_at(q) < key);
                    }
                }
            }
            self.nodes[cursor.curr].key == key
        }
    }

    spec fn grown_by(
        &self,
        pre: Self,
        p: int,
        cursor: Cursor,
        node: usize,
        key: u64,
        value: Option<V>,
    ) -> bool {
        &&& if pre.free@.len() > 0 {
            &&& node == pre.free@.last()
            &&& self.free@ == pre.free@.drop_last()
            &&& self.nodes@.len() == pre.nodes@.len()
        } else {
            &&& node == pre.nodes@.len()
            &&& self.free@ == pre.free@
            &&& self.nodes@.len() == pre.nodes@.len() + 1
        }
        &&& !pre.order@.contains(node as int)
        &&& node < self.nodes@.len() <= usize::MAX
        &&& self.nodes@[node as int].key == key
        &&& self.nodes@[node as int].value == value
        &&& self.nodes@[node as int].next == cursor.curr
        &&& forall|g: int|
            0 <= g < pre.nodes@.len() && g != node ==> {
                &&& (#[trigger] self.nodes@[g]).key == pre.nodes@[g].key
                &&& self.nodes@[g].value == pre.nodes@[g].value
                &&& self.nodes@[g].next == if g == cursor.prev {
                    node
                } else {
                    pre.nodes@[g].next
                }
            }
        &&& self.head == if cursor.prev == NULL {
            node
        } else {
            pre.head
        }
        &&& self.order@ == order_with(pre.order@, p, node as int)
        &&& self.index@ == pre.index@.insert(key, node as int)
    }

    proof fn lemma_gap_is_free(&self, p: int, cursor: Cursor, key: u64)
        requires
            self.wf(),
            self.holds(cursor),
            p == self.position(cursor),
            self.gap(cursor, key),
        ensures
            0 <= p <= self.order@.len(),
            cursor.prev == NULL <==> p == 0,
            p > 0 ==> self.order@[p - 1] == cursor.prev,
            cursor.curr == self.at(p),
            forall|q: int| 0 <= q < p ==> #[trigger] self.key_at(q) < key,
            forall|q: int| p <= q < self.order@.len() ==> key < #[trigger] self.key_at(q),
            !self.index@.contains_key(key),
    {
        if cursor.prev != NULL {
            let q = self.lemma_position(cursor.prev as int);
        }
        if p < self.order@.len() {
            self.lemma_index_of(p);
        }
        assert forall|q: int| 0 <= q < p implies #[trigger] self.key_at(q) < key by {
            if q < p - 1 {
                assert(self.key_at(q) < self.key_at(p - 1));
            }
        }
        assert forall|q: int| p <= q < self.order@.len() implies key < #[trigger] self.key_at(
            q,
        ) by {
            if q > p {
                assert(self.key_at(p) < self.key_at(q));
            }
        }
        if self.index@.contains_key(key) {
            assert(self.key_ok(key));
            let q = self.lemma_position(self.index@[key]);
            if q < p {
                assert(self.key_at(q) < key);
            } else {
                assert(key < self.key_at(q));
            }
        }
    }

    proof fn lemma_insert(
        &self,
        pre: Self,
        p: int,
        cursor: Cursor,
        node: usize,
        key: u64,
        value: Option<V>,
    )
        requires
            pre.wf(),
            pre.holds(cursor),
            p == pre.position(cursor),
            pre.gap(cursor, key),
            self.grown_by(pre, p, cursor, node, key, value),
        ensures
            self.wf(),
            self.order@[p] == node,
            0 <= p < self.order@.len(),
            forall|q: int| 0 <= q < p ==> self.order@[q] == pre.order@[q],
            forall|q: int| p < q < self.order@.len() ==> self.order@[q] == pre.order@[q - 1],
    {
        pre.lemma_gap_is_free(p, cursor, key);
        let old_order = pre.order@;
        let new_order = self.order@;
        assert forall|q: int| 0 <= q < old_order.len() implies #[trigger] old_order[q] != node by {
            pre.lemma_index_of(q);
        }
        assert forall|f: int| 0 <= f < self.free@.len() implies #[trigger] self.spare_ok(f) by {
            assert(pre.spare_ok(f));
            assert(self.free@[f] == pre.free@[f]);
            if self.order@.contains(self.free@[f] as int) {
                let q = choose|q: int| 0 <= q < new_order.len() && new_order[q] == self.free@[f];
                if q < p {
                    assert(old_order[q] == self.free@[f]);
                } else if q > p {
                    assert(old_order[q - 1] == self.free@[f]);
                }
            }
        }
        assert forall|q: int| 0 <= q < new_order.len() implies #[trigger] self.place_ok(q) by {
            if q < p {
                assert(pre.place_ok(q));
                pre.lemma_index_of(q);
                assert(pre.key_at(q) < key);
                assert(self.nodes@[old_order[q]].key == pre.nodes@[old_order[q]].key);
                if q + 1 < p {
                    assert(pre.place_ok(q + 1));
                }
            } else if q > p {
                assert(pre.place_ok(q - 1));
                pre.lemma_index_of(q - 1);
                assert(key < pre.key_at(q - 1));
                assert(self.nodes@[old_order[q - 1]].key == pre.nodes@[old_order[q - 1]].key);
                if q < old_order.len() {
                    assert(pre.place_ok(q));
                }
            } else {
                if p < old_order.len() {
                    assert(pre.place_ok(p));
                }
            }
        }
        assert forall|a: int, b: int| 0 <= a < b < new_order.len() implies #[trigger] self.key_at(
            a,
        ) < #[trigger] self.key_at(b) by {
            let oa = if a < p {
                a
            } else {
                a - 1
            };
            let ob = if b < p {
                b
            } else {
                b - 1
            };
            if a != p {
                assert(pre.place_ok(oa));
                assert(self.nodes@[old_order[oa]].key == pre.nodes@[old_order[oa]].key);
                assert(self.key_at(a) == pre.key_at(oa));
            }
            if b != p {
                assert(pre.place_ok(ob));
                assert(self.nodes@[old_order[ob]].key == pre.nodes@[old_order[ob]].key);
                assert(self.key_at(b) == pre.key_at(ob));
            }
            if a != p && b != p {
                assert(pre.key_at(oa) < pre.key_at(ob));
            } else if a == p {
                assert(key < pre.key_at(ob));
            } else {
                assert(pre.key_at(oa) < key);
            }
        }
        assert forall|k: u64| #[trigger] self.index@.contains_key(k) implies self.key_ok(k) by {
            if k == key {
                assert(new_order[p] == node as int);
            } else {
                assert(pre.key_ok(k));
                let q = pre.lemma_position(pre.index@[k]);
                assert(self.nodes@[pre.index@[k]].key == pre.nodes@[pre.index@[k]].key);
                if q < p {
                    assert(new_order[q] == old_order[q]);
                } else {
                    assert(new_order[q + 1] == old_order[q]);
                }
            }
        }
        assert(self.head == self.at(0)) by {
            if p > 0 {
                assert(new_order[0] == old_order[0]);
            }
        }
    }

    proof fn lemma_insert_frame(
        &self,
        pre: Self,
        p: int,
        cursor: Cursor,
        node: usize,
        key: u64,
        value: Option<V>,
    )
        requires
            pre.wf(),
            pre.holds(cursor),
            p == pre.position(cursor),
            pre.gap(cursor, key),
            self.grown_by(pre, p, cursor, node, key, value),
        ensures
            self.wf(),
            self@ == pre@.insert(key, value),
            !pre@.contains_key(key),
            self.linked(node),
            forall|g: usize| #[trigger]
                pre.linked(g) ==> {
                    &&& self.linked(g)
                    &&& self.key_of(g) == pre.key_of(g)
                    &&& self.value_of(g) == pre.value_of(g)
                },
            forall|g: usize| #[trigger] self.linked(g) ==> g == node || pre.linked(g),
            self.holds(Cursor { prev: cursor.prev, curr: node }),
    {
        self.lemma_insert(pre, p, cursor, node, key, value);
        pre.lemma_gap_is_free(p, cursor, key);
        let old_order = pre.order@;
        let new_order = self.order@;
        assert forall|q: int| 0 <= q < old_order.len() implies #[trigger] old_order[q] != node by {
            pre.lemma_index_of(q);
        }
        assert forall|k: u64| self.index@.contains_key(k) && k != key implies (
        #[trigger] self.nodes@[self.index@[k]]).value == pre.nodes@[pre.index@[k]].value by {
            assert(pre.key_ok(k));
        }
        assert(self@ =~= pre@.insert(key, value));
        assert forall|g: usize| #[trigger] pre.linked(g) implies {
            &&& self.linked(g)
            &&& self.key_of(g) == pre.key_of(g)
            &&& self.value_of(g) == pre.value_of(g)
        } by {
            let q = pre.lemma_position(g as int);
            assert(self.nodes@[g as int].key == pre.nodes@[g as int].key);
            if q < p {
                assert(new_order[q] == old_order[q]);
            } else {
                assert(new_order[q + 1] == old_order[q]);
            }
        }
        assert forall|g: usize| #[trigger] self.linked(g) implies g == node || pre.linked(g) by {
            let q = self.lemma_position(g as int);
            if q < p {
                assert(old_order[q] == g as int);
            } else if q > p {
                assert(old_order[q - 1] == g as int);
            }
        }
        if cursor.prev != NULL {
            assert(new_order[p - 1] == cursor.prev as int);
            self.lemma_index_of(p - 1);
        }
    }

    /// Links a new node with `key` and `value` at `cursor`, which must stand
    /// where the key belongs. The cursor then stands on the new node.
    pub fn insert(&mut self, cursor: &mut Cursor, key: u64, value: Option<V>) -> (node: usize)
        requires
            old(self).wf(),
            old(self).holds(*old(cursor)),
            old(self).gap(*old(cursor), key),
        ensures
            final(self).wf(),
            final(self)@ == old(self)@.insert(key, value),
            !old(self)@.contains_key(key),
            !old(self).linked(node),
            old(self).spares().len() > 0 ==> {
                &&& node == old(self).spares().last()
                &&& final(self).spares() == old(self).spares().drop_last()
                &&& final(self).spec_node_count() == old(self).spec_node_count()
            },
            old(self).spares().len() == 0 ==> {
                &&& node == old(self).spec_node_count()
                &&& final(self).spares() == old(self).spares()
                &&& final(self).spec_node_count() == old(self).spec_node_count() + 1
            },
            final(self).spec_linked_count() == old(self).spec_linked_count() + 1,
            final(self).linked(node),
            final(self).key_of(node) == key,
            final(self).value_of(node) == value,
            forall|g: usize| #[trigger]
                old(self).linked(g) ==> {
                    &&& final(self).linked(g)
                    &&& final(self).key_of(g) == old(self).key_of(g)
                    &&& final(self).value_of(g) == old(self).value_of(g)
                },
            forall|g: usize| #[trigger] final(self).linked(g) ==> g == node || old(self).linked(g),
            final(cursor).prev == old(cursor).prev,
            final(cursor).curr == node,
            final(self).holds(*final(cursor)),
    {
        let ghost p = self.position(*cursor);
        let ghost pre = *self;
        proof {
            self.lemma_gap_is_free(p, *cursor, key);
            if p > 0 {
                assert(self.place_ok(p - 1));
            }
        }
        let fresh = Node { key, value, next: cursor.curr };
        let node = if self.free.len() > 0 {
            proof {
                assert(self.spare_ok(self.free@.len() - 1));
            }
            let spare = self.free.pop().unwrap();
            self.nodes[spare] = fresh;
            spare
        } else {
            self.nodes.push(fresh);
            let count = self.nodes.len();
            count - 1
        };
        proof {
            if pre.order@.contains(node as int) {
                let q = pre.lemma_position(node as int);
            }
            if cursor.prev != NULL {
                pre.lemma_index_of(p - 1);
            }
        }
        if cursor.prev == NULL {
            self.head = node;
        } else {
            self.nodes[cursor.prev].next = node;
        }
        proof {
            self.order = Ghost(order_with(pre.order@, p, node as int));
            self.index = Ghost(self.index@.insert(key, node as int));
            assert(self.grown_by(pre, p, *cursor, node, key, value));
            self.lemma_insert_frame(pre, p, *cursor, node, key, value);
        }
        cursor.curr = node;
        node
    }

    spec fn shrunk_by(&self, pre: Self, p: int, cursor: Cursor) -> bool {
        let node = cursor.curr as int;
        &&& self.nodes@.len() == pre.nodes@.len()
        &&& forall|g: int|
            0 <= g < pre.nodes@.len() ==> {
                &&& (#[trigger] self.nodes@[g]).key == pre.nodes@[g].key
                &&& g != node ==> self.nodes@[g].value == pre.nodes@[g].value
                &&& self.nodes@[g].next == if g == cursor.prev {
                    pre.nodes@[node].next
                } else {
                    pre.nodes@[g].next
                }
            }
        &&& self.head == if cursor.prev == NULL {
            pre.nodes@[node].next
        } else {
            pre.head
        }
        &&& self.order@ == order_without(pre.order@, p)
        &&& self.index@ == pre.index@.remove(pre.nodes@[node].key)
        &&& self.free@ == pre.free@.push(cursor.curr)
    }

    proof fn lemma_on_node(&self, p: int, cursor: Cursor)
        requires
            self.wf(),
            self.holds(cursor),
            p == self.position(cursor),
            cursor.curr != NULL,
        ensures
            0 <= p < self.order@.len(),
            cursor.prev == NULL <==> p == 0,
            p > 0 ==> self.order@[p - 1] == cursor.prev,
            self.order@[p] == cursor.curr,
            self.linked(cursor.curr),
            cursor.prev != cursor.curr,
    {
        if cursor.prev != NULL {
            let q = self.lemma_position(cursor.prev as int);
            assert(self.key_at(q) < self.key_at(p));
        }
        self.lemma_index_of(p);
    }

    proof fn lemma_delete(&self, pre: Self, p: int, cursor: Cursor)
        requires
            pre.wf(),
            pre.holds(cursor),
            p == pre.position(cursor),
            cursor.curr != NULL,
            self.shrunk_by(pre, p, cursor),
        ensures
            self.wf(),
            0 <= p < pre.order@.len(),
            forall|q: int| 0 <= q < p ==> self.order@[q] == pre.order@[q],
            forall|q: int| p <= q < self.order@.len() ==> self.order@[q] == pre.order@[q + 1],
    {
        pre.lemma_on_node(p, cursor);
        let old_order = pre.order@;
        let new_order = self.order@;
        let node = cursor.curr as int;
        let key = pre.nodes@[node].key;
        assert(pre.place_ok(p));
        assert forall|f: int| 0 <= f < self.free@.len() implies #[trigger] self.spare_ok(f) by {
            if f < pre.free@.len() {
                assert(pre.spare_ok(f));
            }
            if self.order@.contains(self.free@[f] as int) {
                let q = choose|q: int| 0 <= q < new_order.len() && new_order[q] == self.free@[f];
                let oq = if q < p {
                    q
                } else {
                    q + 1
                };
                assert(old_order[oq] == self.free@[f]);
                pre.lemma_index_of(oq);
                pre.lemma_places_differ(oq, p);
            }
        }
        assert forall|a: int, b: int|
            0 <= a < self.free@.len() && 0 <= b < self.free@.len() && a != b implies self.free@[a]
            != self.free@[b] by {
            if a < pre.free@.len() {
                assert(pre.spare_ok(a));
            }
            if b < pre.free@.len() {
                assert(pre.spare_ok(b));
            }
            pre.lemma_index_of(p);
        }
        assert forall|q: int| 0 <= q < new_order.len() implies #[trigger] self.place_ok(q) by {
            let oq = if q < p {
                q
            } else {
                q + 1
            };
            assert(pre.place_ok(oq));
            pre.lemma_index_of(oq);
            pre.lemma_places_differ(oq, p);
            assert(self.nodes@[old_order[oq]].key == pre.nodes@[old_order[oq]].key);
            if oq + 1 < old_order.len() {
                assert(pre.place_ok(oq + 1));
            }
            if oq + 1 == p && p + 1 < old_order.len() {
                assert(pre.place_ok(p + 1));
            }
        }
        assert forall|a: int, b: int| 0 <= a < b < new_order.len() implies #[trigger] self.key_at(
            a,
        ) < #[trigger] self.key_at(b) by {
            let oa = if a < p {
                a
            } else {
                a + 1
            };
            let ob = if b < p {
                b
            } else {
                b + 1
            };
            assert(pre.place_ok(oa));
            assert(pre.place_ok(ob));
            assert(self.nodes@[old_order[oa]].key == pre.nodes@[old_order[oa]].key);
            assert(self.nodes@[old_order[ob]].key == pre.nodes@[old_order[ob]].key);
            assert(pre.key_at(oa) < pre.key_at(ob));
        }
        assert forall|k: u64| #[trigger] self.index@.contains_key(k) implies self.key_ok(k) by {
            assert(pre.key_ok(k));
            let q = pre.lemma_position(pre.index@[k]);
            assert(self.nodes@[pre.index@[k]].key == pre.nodes@[pre.index@[k]].key);
            if q < p {
                assert(new_order[q] == old_order[q]);
            } else {
                assert(new_order[q - 1] == old_order[q]);
            }
        }
        assert(self.head == self.at(0)) by {
            if p > 0 {
                assert(new_order[0] == old_order[0]);
            } else if new_order.len() > 0 {
                assert(new_order[0] == old_order[1]);
                assert(pre.place_ok(1));
            }
        }
    }

    proof fn lemma_delete_frame(&self, pre: Self, p: int, cursor: Cursor)
        requires
            pre.wf(),
            pre.holds(cursor),
            p == pre.position(cursor),
            cursor.curr != NULL,
            self.shrunk_by(pre, p, cursor),
        ensures
            self.wf(),
            pre.linked(cursor.curr),
            self@ == pre@.remove(pre.key_of(cursor.curr)),
            !self.linked(cursor.curr),
            forall|g: usize| #[trigger]
                pre.linked(g) && g != cursor.curr ==> {
                    &&& self.linked(g)
                    &&& self.key_of(g) == pre.key_of(g)
                    &&& self.value_of(g) == pre.value_of(g)
                },
            forall|g: usize| #[trigger] self.linked(g) ==> pre.linked(g),
            self.holds(Cursor { prev: cursor.prev, curr: pre.nodes@[cursor.curr as int].next }),
    {
        self.lemma_delete(pre, p, cursor);
        pre.lemma_on_node(p, cursor);
        let old_order = pre.order@;
        let new_order = self.order@;
        let node = cursor.curr;
        let key = pre.nodes@[node as int].key;
        assert(pre.place_ok(p));
        assert forall|k: u64| self.index@.contains_key(k) implies (
        #[trigger] self.nodes@[self.index@[k]]).value == pre.nodes@[pre.index@[k]].value by {
            assert(pre.key_ok(k));
        }
        assert(self@ =~= pre@.remove(key));
        assert forall|g: usize| #[trigger] pre.linked(g) && g != node implies {
            &&& self.linked(g)
            &&& self.key_of(g) == pre.key_of(g)
            &&& self.value_of(g) == pre.value_of(g)
        } by {
            let q = pre.lemma_position(g as int);
            assert(self.nodes@[g as int].key == pre.nodes@[g as int].key);
            if q < p {
                assert(new_order[q] == old_order[q]);
            } else {
                assert(new_order[q - 1] == old_order[q]);
            }
        }
        assert forall|g: usize| #[trigger] self.linked(g) implies pre.linked(g) && g != node by {
            let q = self.lemma_position(g as int);
            if q < p {
                assert(old_order[q] == g as int);
                pre.lemma_places_differ(q, p);
            } else {
                assert(old_order[q + 1] == g as int);
                pre.lemma_places_differ(q + 1, p);
            }
        }
        if cursor.prev != NULL {
            assert(new_order[p - 1] == cursor.prev as int);
            self.lemma_index_of(p - 1);
        }
        if p < new_order.len() {
            assert(new_order[p] == old_order[p + 1]);
            assert(pre.place_ok(p + 1));
        }
    }

    /// Unlinks the node that `cursor` stands on and hands out its value. The
    /// cursor then stands on the node that followed.
    pub fn delete(&mut self, cursor: &mut Cursor) -> (value: Option<V>)
        requires
            old(self).wf(),
            old(self).holds(*old(cursor)),
            old(cursor).curr != NULL,
        ensures
            final(self).wf(),
            old(self).linked(old(cursor).curr),
            final(self)@ == old(self)@.remove(old(self).key_of(old(cursor).curr)),
            value == old(self).value_of(old(cursor).curr),
            final(self).spec_node_count() == old(self).spec_node_count(),
            final(self).spares() == old(self).spares().push(old(cursor).curr),
            final(self).spec_linked_count() == old(self).spec_linked_count() - 1,
            !final(self).linked(old(cursor).curr),
            forall|g: usize| #[trigger]
                old(self).linked(g) && g != old(cursor).curr ==> {
                    &&& final(self).linked(g)
                    &&& final(self).key_of(g) == old(self).key_of(g)
                    &&& final(self).value_of(g) == old(self).value_of(g)
                },
            forall|g: usize| #[trigger] final(self).linked(g) ==> old(self).linked(g),
            final(cursor).prev == old(cursor).prev,
            final(self).holds(*final(cursor)),
    {
        let ghost p = self.position(*cursor);
        let ghost pre = *self;
        let ghost before = *cursor;
        let node = cursor.curr;
        proof {
            self.lemma_on_node(p, *cursor);
            assert(self.place_ok(p));
            if p > 0 {
                assert(self.place_ok(p - 1));
            }
        }
        let next = self.nodes[node].next;
        if cursor.prev == NULL {
            self.head = next;
        } else {
            self.nodes[cursor.prev].next = next;
        }
        let value = self.nodes[node].value.take();
        self.free.push(node);
        cursor.curr = next;
        proof {
            self.order = Ghost(order_without(pre.order@, p));
            self.index = Ghost(self.index@.remove(pre.nodes@[node as int].key));
            assert(self.shrunk_by(pre, p, before));
            self.lemma_delete_frame(pre, p, before);
        }
        value
    }
}

/// `order` with `node` put in at place `p`.
spec fn order_with(order: Seq<int>, p: int, node: int) -> Seq<int> {
    Seq::new(
        order.len() + 1,
        |q: int|
            if q < p {
                order[q]
            } else if q == p {
                node
            } else {
                order[q - 1]
            },
    )
}

/// `order` with place `p` taken out.
spec fn order_without(order: Seq<int>, p: int) -> Seq<int> {
    Seq::new(
        (order.len() - 1) as nat,
        |q: int|
            if q < p {
                order[q]
            } else {
                order[q + 1]
            },
    )
}

} // verus!
