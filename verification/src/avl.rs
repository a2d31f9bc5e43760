use vstd::prelude::*;

verus! {

/// One entry of the ordered map together with the subtree rooted at it.
///
/// Each node owns its children outright.  Beside the entry it caches three
/// derived quantities: the subtree height (a leaf has height 1), the balance
/// factor (right height minus left height), and the number of entries in the
/// subtree.  The caches are recomputed from the children after every
/// structural change; `well_formed` ties them to the actual structure.
pub struct Node<V> {
    key: u64,
    value: V,
    left: Option<Box<Node<V>>>,
    right: Option<Box<Node<V>>>,
    height: usize,
    balance_factor: i32,
    len: usize,
}

impl<V> Node<V> {
    /// The entries of an optional subtree, as a map from key to value.
    pub closed spec fn optional_as_map(node_opt: Option<Box<Node<V>>>) -> Map<u64, V>
        decreases node_opt,
    {
        match node_opt {
            None => Map::empty(),
            Some(node) => node.as_map(),
        }
    }

    /// The entries of this subtree, as a map from key to value.
    pub closed spec fn as_map(self) -> Map<u64, V>
        decreases self,
    {
        Node::<V>::optional_as_map(self.left)
            .union_prefer_right(Node::<V>::optional_as_map(self.right))
            .insert(self.key, self.value)
    }

    /// Height of an optional subtree: 0 when absent, 1 for a leaf.
    pub closed spec fn optional_height(node_opt: Option<Box<Node<V>>>) -> nat
        decreases node_opt,
    {
        match node_opt {
            None => 0,
            Some(node) => node.spec_height(),
        }
    }

    pub closed spec fn spec_height(self) -> nat
        decreases self,
    {
        (1 + vstd::math::max(
            Node::<V>::optional_height(self.left) as int,
            Node::<V>::optional_height(self.right) as int,
        )) as nat
    }

    /// Number of entries in an optional subtree.
    pub closed spec fn optional_count(node_opt: Option<Box<Node<V>>>) -> nat
        decreases node_opt,
    {
        match node_opt {
            None => 0,
            Some(node) => node.spec_count(),
        }
    }

    pub closed spec fn spec_count(self) -> nat
        decreases self,
    {
        1 + Node::<V>::optional_count(self.left) + Node::<V>::optional_count(self.right)
    }

    /// The entries of an optional subtree in ascending key order.
    pub closed spec fn optional_in_order(node_opt: Option<Box<Node<V>>>) -> Seq<(u64, V)>
        decreases node_opt,
    {
        match node_opt {
            None => Seq::empty(),
            Some(node) => node.in_order(),
        }
    }

    /// In-order traversal of this subtree: left entries, this entry, right
    /// entries.
    pub closed spec fn in_order(self) -> Seq<(u64, V)>
        decreases self,
    {
        Node::<V>::optional_in_order(self.left) + seq![(self.key, self.value)]
            + Node::<V>::optional_in_order(self.right)
    }

    /// The balance factor this subtree really has: right height minus left
    /// height.
    pub closed spec fn spec_balance_factor(self) -> int {
        Node::<V>::optional_height(self.right) - Node::<V>::optional_height(self.left)
    }

    /// The cached fields of this node agree with the derived values computed
    /// from its children's caches.  This speaks of one level only;
    /// `well_formed` extends it to the whole subtree.
    spec fn caches_ok(self) -> bool {
        &&& self.height == 1 + vstd::math::max(
            Node::<V>::optional_height(self.left) as int,
            Node::<V>::optional_height(self.right) as int,
        )
        &&& self.len == 1 + Node::<V>::optional_count(self.left) + Node::<V>::optional_count(
            self.right,
        )
        &&& self.balance_factor as int == self.spec_balance_factor()
    }

    /// Every key in the left subtree lies below this node's key and every
    /// key in the right subtree lies above it.
    spec fn keys_ordered(self) -> bool {
        &&& forall|k: u64| Node::<V>::optional_as_map(self.left).dom().contains(k) ==> k < self.key
        &&& forall|k: u64|
            Node::<V>::optional_as_map(self.right).dom().contains(k) ==> k > self.key
    }

    /// Everything `well_formed` asks except the balance bound on this node
    /// itself: both children are fully well formed, the keys are ordered and
    /// the caches are right.  A node in this state may carry a balance
    /// factor of +-2 for the moment between a structural edit and the
    /// rebalancing step that resolves it.
    pub closed spec fn pre_balanced(self) -> bool
        decreases self, 0int,
    {
        &&& Node::<V>::optional_well_formed(self.left)
        &&& Node::<V>::optional_well_formed(self.right)
        &&& self.keys_ordered()
        &&& self.caches_ok()
    }

    /// A node whose rebalancing is still pending: the transient +-2 state.
    pub closed spec fn nearly_well_formed(self) -> bool {
        &&& self.pre_balanced()
        &&& -2 <= self.balance_factor <= 2
    }

    pub closed spec fn optional_well_formed(node_opt: Option<Box<Node<V>>>) -> bool
        decreases node_opt, 2int,
    {
        match node_opt {
            None => true,
            Some(node) => node.well_formed(),
        }
    }

    /// The full invariant of an AVL subtree: search order holds, every cache
    /// is the true derived value, and every node's balance factor lies in
    /// [-1, 1].
    pub closed spec fn well_formed(self) -> bool
        decreases self, 1int,
    {
        &&& self.pre_balanced()
        &&& -1 <= self.balance_factor <= 1
    }

    /// In a subtree with correct caches the height never exceeds the entry
    /// count.
    pub proof fn lemma_height_le_count(self)
        requires
            self.nearly_well_formed(),
        ensures
            self.spec_height() <= self.spec_count(),
        decreases self,
    {
        if let Some(l) = self.left {
            l.lemma_height_le_count();
        }
        if let Some(r) = self.right {
            r.lemma_height_le_count();
        }
    }

    /// Builds a node over the two given subtrees, recomputing the caches.
    pub fn new(key: u64, value: V, left: Option<Box<Node<V>>>, right: Option<Box<Node<V>>>) -> (r:
        Node<V>)
        requires
            Node::<V>::optional_well_formed(left),
            Node::<V>::optional_well_formed(right),
            forall|k: u64| Node::<V>::optional_as_map(left).dom().contains(k) ==> k < key,
            forall|k: u64| Node::<V>::optional_as_map(right).dom().contains(k) ==> k > key,
            -2 <= Node::<V>::optional_height(right) - Node::<V>::optional_height(left) <= 2,
            Node::<V>::optional_count(left) + Node::<V>::optional_count(right) < usize::MAX,
        ensures
            r.nearly_well_formed(),
            r.as_map() == Node::<V>::optional_as_map(left).union_prefer_right(
                Node::<V>::optional_as_map(right),
            ).insert(key, value),
            r.in_order() == Node::<V>::optional_in_order(left) + seq![(key, value)]
                + Node::<V>::optional_in_order(right),
            r.spec_height() == 1 + vstd::math::max(
                Node::<V>::optional_height(left) as int,
                Node::<V>::optional_height(right) as int,
            ),
            r.spec_count() == 1 + Node::<V>::optional_count(left) + Node::<V>::optional_count(
                right,
            ),
            r.spec_balance_factor() == Node::<V>::optional_height(right)
                - Node::<V>::optional_height(left),
            -1 <= r.spec_balance_factor() <= 1 ==> r.well_formed(),
    {
        let (height, balance_factor, len) = Node::<V>::calculate_height_bf_len(&left, &right);
        Self { key, value, left, right, height, balance_factor, len }
    }

    /// Number of entries in this subtree, from the cache.
    pub fn len(&self) -> (r: usize)
        requires
            self.well_formed(),
        ensures
            r == self.spec_count(),
    {
        self.len
    }

    /// Recomputes height, balance factor and entry count from the children's
    /// caches.
    fn calculate_height_bf_len(left: &Option<Box<Node<V>>>, right: &Option<Box<Node<V>>>) -> (r: (
        usize,
        i32,
        usize,
    ))
        requires
            Node::<V>::opt_nearly_well_formed(*left),
            Node::<V>::opt_nearly_well_formed(*right),
            -2 <= Node::<V>::optional_height(*right) - Node::<V>::optional_height(*left) <= 2,
            Node::<V>::optional_count(*left) + Node::<V>::optional_count(*right) < usize::MAX,
        ensures
            r.0 == 1 + vstd::math::max(
                Node::<V>::optional_height(*left) as int,
                Node::<V>::optional_height(*right) as int,
            ),
            r.1 as int == Node::<V>::optional_height(*right) - Node::<V>::optional_height(*left),
            r.2 == 1 + Node::<V>::optional_count(*left) + Node::<V>::optional_count(*right),
    {
        proof {
            if let Some(l) = left {
                l.lemma_height_le_count();
            }
            if let Some(r) = right {
                r.lemma_height_le_count();
            }
        }
        match (left, right) {
            (Some(left), Some(right)) => {
                let height = if left.height >= right.height {
                    left.height
                } else {
                    right.height
                };
                let bf: i32 = if right.height >= left.height {
                    (right.height - left.height) as i32
                } else {
                    -((left.height - right.height) as i32)
                };
                (height + 1, bf, left.len + right.len + 1)
            },
            (Some(left), None) => (left.height + 1, -(left.height as i32), left.len + 1),
            (None, Some(right)) => (right.height + 1, right.height as i32, right.len + 1),
            (None, None) => (1, 0, 1),
        }
    }

    spec fn opt_nearly_well_formed(node_opt: Option<Box<Node<V>>>) -> bool {
        match node_opt {
            None => true,
            Some(node) => node.nearly_well_formed(),
        }
    }

    /// Rewrites the node's caches after its children changed.
    fn update_height_bf_len(node: &mut Box<Node<V>>)
        requires
            Node::<V>::opt_nearly_well_formed(old(node).left),
            Node::<V>::opt_nearly_well_formed(old(node).right),
            -2 <= Node::<V>::optional_height(old(node).right) - Node::<V>::optional_height(
                old(node).left,
            ) <= 2,
            Node::<V>::optional_count(old(node).left) + Node::<V>::optional_count(old(node).right)
                < usize::MAX,
        ensures
            final(node).key == old(node).key,
            final(node).value == old(node).value,
            final(node).left == old(node).left,
            final(node).right == old(node).right,
            final(node).caches_ok(),
    {
        let (height, balance_factor, len) = Node::<V>::calculate_height_bf_len(
            &node.left,
            &node.right,
        );
        node.height = height;
        node.balance_factor = balance_factor;
        node.len = len;
    }

    /// Single left rotation: the right child becomes the new subtree root and
    /// the old root becomes its left child, keeping every entry and the
    /// in-order sequence.  The old root's caches are rewritten first, then
    /// the promoted node's.
    fn rotate_left(node: Box<Node<V>>) -> (r: Box<Node<V>>)
        requires
            node.right is Some,
            Node::<V>::optional_well_formed(node.left),
            node.right.unwrap().nearly_well_formed(),
            node.keys_ordered(),
            -2 <= Node::<V>::optional_height(node.right.unwrap().left)
                - Node::<V>::optional_height(node.left) <= 2,
            -2 <= Node::<V>::optional_height(node.right.unwrap().right) - (1 + vstd::math::max(
                Node::<V>::optional_height(node.left) as int,
                Node::<V>::optional_height(node.right.unwrap().left) as int,
            )) <= 2,
            1 + Node::<V>::optional_count(node.left) + node.right.unwrap().spec_count()
                <= usize::MAX,
        ensures
            ({
                let rc = node.right.unwrap();
                &&& r.key == rc.key
                &&& r.value == rc.value
                &&& r.right == rc.right
                &&& r.left matches Some(inner) && inner.key == node.key && inner.value
                    == node.value && inner.left == node.left && inner.right == rc.left
                    && inner.caches_ok() && inner.keys_ordered()
                &&& r.caches_ok()
                &&& r.keys_ordered()
                &&& r.as_map() == node.as_map()
                &&& r.in_order() == node.in_order()
            }),
    {
        let ghost orig = *node;
        let mut node = node;
        let rnode_opt = node.right.take();
        if let Some(mut rnode) = rnode_opt {
            let ghost rc = *rnode;
            proof {
                assert(orig.right == Some(rnode));
                assert(Node::<V>::optional_as_map(orig.right) == rc.as_map());
                assert(rc.as_map().dom().contains(rc.key));
                assert(orig.key < rc.key);
            }
            node.right = rnode.left.take();
            proof {
                assert forall|k: u64|
                    Node::<V>::optional_as_map(node.right).dom().contains(k) implies k
                    > node.key by {
                    assert(rc.as_map().dom().contains(k));
                    assert(Node::<V>::optional_as_map(orig.right).dom().contains(k));
                }
            }
            Node::<V>::update_height_bf_len(&mut node);
            let ghost inner = *node;
            rnode.left = Some(node);
            proof {
                assert forall|k: u64|
                    Node::<V>::optional_as_map(rnode.left).dom().contains(k) implies k
                    < rnode.key by {
                    assert(inner.as_map().dom().contains(k));
                    if k == orig.key {
                    } else if Node::<V>::optional_as_map(orig.left).dom().contains(k) {
                    } else {
                        assert(Node::<V>::optional_as_map(rc.left).dom().contains(k));
                        assert(rc.as_map().dom().contains(k));
                    }
                }
            }
            Node::<V>::update_height_bf_len(&mut rnode);
            proof {
                assert(rnode.key == rc.key && rnode.value == rc.value && rnode.right == rc.right);
                assert(Node::<V>::optional_in_order(rnode.left) == inner.in_order());
                assert(Node::<V>::optional_as_map(rnode.left) == inner.as_map());
                assert(inner.in_order() == Node::<V>::optional_in_order(orig.left) + seq![
                    (orig.key, orig.value),
                ] + Node::<V>::optional_in_order(rc.left));
                assert(orig.in_order() == Node::<V>::optional_in_order(orig.left) + seq![
                    (orig.key, orig.value),
                ] + rc.in_order());
                assert(Node::<V>::optional_as_map(orig.right) == rc.as_map());
                let ghost m_l = Node::<V>::optional_as_map(orig.left);
                let ghost m_rcl = Node::<V>::optional_as_map(rc.left);
                let ghost m_rcr = Node::<V>::optional_as_map(rc.right);
                assert(inner.as_map() == m_l.union_prefer_right(m_rcl).insert(
                    orig.key,
                    orig.value,
                ));
                assert(rc.as_map() == m_rcl.union_prefer_right(m_rcr).insert(rc.key, rc.value));
                assert(rnode.as_map() == inner.as_map().union_prefer_right(m_rcr).insert(
                    rc.key,
                    rc.value,
                ));
                assert(orig.as_map() == m_l.union_prefer_right(rc.as_map()).insert(
                    orig.key,
                    orig.value,
                ));
                assert forall|k: u64| m_rcl.dom().contains(k) implies orig.key < k && k
                    < rc.key by {
                    assert(rc.as_map().dom().contains(k));
                    assert(Node::<V>::optional_as_map(orig.right).dom().contains(k));
                }
                assert forall|k: u64| m_rcr.dom().contains(k) implies orig.key < k && rc.key
                    < k by {
                    assert(rc.as_map().dom().contains(k));
                    assert(Node::<V>::optional_as_map(orig.right).dom().contains(k));
                }
                assert(rnode.as_map() =~= orig.as_map());
                assert(rnode.in_order() =~= orig.in_order());
                assert forall|k: u64|
                    Node::<V>::optional_as_map(rnode.right).dom().contains(k) implies k
                    > rnode.key by {
                    assert(rc.as_map().dom().contains(k));
                }
            }
            rnode
        } else {
            proof {
                assert(false);
            }
            vstd::pervasive::unreached()
        }
    }

    /// Single right rotation, the mirror image of `rotate_left`.
    fn rotate_right(node: Box<Node<V>>) -> (r: Box<Node<V>>)
        requires
            node.left is Some,
            Node::<V>::optional_well_formed(node.right),
            node.left.unwrap().nearly_well_formed(),
            node.keys_ordered(),
            -2 <= Node::<V>::optional_height(node.right) - Node::<V>::optional_height(
                node.left.unwrap().right,
            ) <= 2,
            -2 <= (1 + vstd::math::max(
                Node::<V>::optional_height(node.left.unwrap().right) as int,
                Node::<V>::optional_height(node.right) as int,
            )) - Node::<V>::optional_height(node.left.unwrap().left) <= 2,
            1 + Node::<V>::optional_count(node.right) + node.left.unwrap().spec_count()
                <= usize::MAX,
        ensures
            ({
                let lc = node.left.unwrap();
                &&& r.key == lc.key
                &&& r.value == lc.value
                &&& r.left == lc.left
                &&& r.right matches Some(inner) && inner.key == node.key && inner.value
                    == node.value && inner.right == node.right && inner.left == lc.right
                    && inner.caches_ok() && inner.keys_ordered()
                &&& r.caches_ok()
                &&& r.keys_ordered()
                &&& r.as_map() == node.as_map()
                &&& r.in_order() == node.in_order()
            }),
    {
        let ghost orig = *node;
        let mut node = node;
        let lnode_opt = node.left.take();
        if let Some(mut lnode) = lnode_opt {
            let ghost lc = *lnode;
            proof {
                assert(orig.left == Some(lnode));
                assert(Node::<V>::optional_as_map(orig.left) == lc.as_map());
                assert(lc.as_map().dom().contains(lc.key));
                assert(lc.key < orig.key);
            }
            node.left = lnode.right.take();
            proof {
                assert forall|k: u64|
                    Node::<V>::optional_as_map(node.left).dom().contains(k) implies k
                    < node.key by {
                    assert(lc.as_map().dom().contains(k));
                    assert(Node::<V>::optional_as_map(orig.left).dom().contains(k));
                }
            }
            Node::<V>::update_height_bf_len(&mut node);
            let ghost inner = *node;
            lnode.right = Some(node);
            proof {
                assert forall|k: u64|
                    Node::<V>::optional_as_map(lnode.right).dom().contains(k) implies k
                    > lnode.key by {
                    assert(inner.as_map().dom().contains(k));
                    if k == orig.key {
                    } else if Node::<V>::optional_as_map(orig.right).dom().contains(k) {
                    } else {
                        assert(Node::<V>::optional_as_map(lc.right).dom().contains(k));
                        assert(lc.as_map().dom().contains(k));
                    }
                }
            }
            Node::<V>::update_height_bf_len(&mut lnode);
            proof {
                assert(lnode.key == lc.key && lnode.value == lc.value && lnode.left == lc.left);
                assert(Node::<V>::optional_in_order(lnode.right) == inner.in_order());
                assert(Node::<V>::optional_as_map(lnode.right) == inner.as_map());
                assert(inner.in_order() == Node::<V>::optional_in_order(lc.right) + seq![
                    (orig.key, orig.value),
                ] + Node::<V>::optional_in_order(orig.right));
                assert(orig.in_order() == lc.in_order() + seq![
                    (orig.key, orig.value),
                ] + Node::<V>::optional_in_order(orig.right));
                assert(Node::<V>::optional_as_map(orig.left) == lc.as_map());
                let ghost m_r = Node::<V>::optional_as_map(orig.right);
                let ghost m_lcl = Node::<V>::optional_as_map(lc.left);
                let ghost m_lcr = Node::<V>::optional_as_map(lc.right);
                assert(inner.as_map() == m_lcr.union_prefer_right(m_r).insert(
                    orig.key,
                    orig.value,
                ));
                assert(lc.as_map() == m_lcl.union_prefer_right(m_lcr).insert(lc.key, lc.value));
                assert(lnode.as_map() == m_lcl.union_prefer_right(inner.as_map()).insert(
                    lc.key,
                    lc.value,
                ));
                assert(orig.as_map() == lc.as_map().union_prefer_right(m_r).insert(
                    orig.key,
                    orig.value,
                ));
                assert forall|k: u64| m_lcr.dom().contains(k) implies lc.key < k && k
                    < orig.key by {
                    assert(lc.as_map().dom().contains(k));
                    assert(Node::<V>::optional_as_map(orig.left).dom().contains(k));
                }
                assert forall|k: u64| m_lcl.dom().contains(k) implies k < lc.key && k
                    < orig.key by {
                    assert(lc.as_map().dom().contains(k));
                    assert(Node::<V>::optional_as_map(orig.left).dom().contains(k));
                }
                assert(lnode.as_map() =~= orig.as_map());
                assert(lnode.in_order() =~= orig.in_order());
                assert forall|k: u64|
                    Node::<V>::optional_as_map(lnode.left).dom().contains(k) implies k
                    < lnode.key by {
                    assert(lc.as_map().dom().contains(k));
                }
            }
            lnode
        } else {
            proof {
                assert(false);
            }
            vstd::pervasive::unreached()
        }
    }

    /// Restores the balance bound after one structural edit.  A balance
    /// factor of -2 or +2 is resolved by a single or double rotation; a
    /// factor already in [-1, 1] leaves the node untouched.  A factor beyond
    /// that range would mean the engine itself is broken and is ruled out by
    /// the precondition.
    #[verifier::rlimit(100)]
    fn balance(node: Box<Node<V>>) -> (r: Box<Node<V>>)
        requires
            node.nearly_well_formed(),
        ensures
            r.well_formed(),
            r.as_map() == node.as_map(),
            r.in_order() == node.in_order(),
            r.spec_count() == node.spec_count(),
            node.spec_height() - 1 <= r.spec_height() <= node.spec_height(),
            -1 <= node.spec_balance_factor() <= 1 ==> r == node,
    {
        let ghost orig = *node;
        let mut node = node;
        match node.balance_factor {
            -2 => {
                proof {
                    assert(node.left is Some);
                }
                let do_double = match &node.left {
                    Some(lref) => lref.balance_factor > 0,
                    None => false,
                };
                if do_double {
                    let lnode = node.left.take().unwrap();
                    let ghost lc = *lnode;
                    proof {
                        assert(orig.left == Some(lnode));
                        assert(Node::<V>::optional_well_formed(orig.left));
                        assert(lc.well_formed());
                        assert(lc.balance_factor == 1);
                        assert(lc.right is Some);
                        assert(lc.right.unwrap().well_formed());
                        assert(lc.right.unwrap().nearly_well_formed());
                        assert(lc.spec_count() < usize::MAX);
                    }
                    let new_left = Node::<V>::rotate_left(lnode);
                    proof {
                        assert(new_left.left.unwrap().well_formed());
                        assert(new_left.nearly_well_formed());
                    }
                    node.left = Some(new_left);
                    proof {
                        assert(node.as_map() =~= orig.as_map());
                        assert(node.in_order() =~= orig.in_order());
                        assert forall|k: u64|
                            Node::<V>::optional_as_map(node.left).dom().contains(k) implies k
                            < node.key by {
                            assert(Node::<V>::optional_as_map(orig.left).dom().contains(k));
                        }
                        assert(node.keys_ordered());
                    }
                    let r = Node::<V>::rotate_right(node);
                    proof {
                        assert(r.right.unwrap().well_formed());
                        assert(r.well_formed());
                        r.lemma_node_count_in_order();
                        orig.lemma_node_count_in_order();
                    }
                    r
                } else {
                    proof {
                        assert(node.left.unwrap().well_formed());
                        assert(node.left.unwrap().balance_factor <= 0);
                        assert(node.keys_ordered());
                    }
                    let r = Node::<V>::rotate_right(node);
                    proof {
                        assert(r.right.unwrap().well_formed());
                        assert(r.well_formed());
                        r.lemma_node_count_in_order();
                        orig.lemma_node_count_in_order();
                    }
                    r
                }
            },
            -1 | 0 | 1 => node,
            2 => {
                proof {
                    assert(node.right is Some);
                }
                let do_double = match &node.right {
                    Some(rref) => rref.balance_factor < 0,
                    None => false,
                };
                if do_double {
                    let rnode = node.right.take().unwrap();
                    let ghost rc = *rnode;
                    proof {
                        assert(orig.right == Some(rnode));
                        assert(Node::<V>::optional_well_formed(orig.right));
                        assert(rc.well_formed());
                        assert(rc.balance_factor == -1);
                        assert(rc.left is Some);
                        assert(rc.left.unwrap().well_formed());
                        assert(rc.left.unwrap().nearly_well_formed());
                        assert(rc.spec_count() < usize::MAX);
                    }
                    let new_right = Node::<V>::rotate_right(rnode);
                    proof {
                        assert(new_right.right.unwrap().well_formed());
                        assert(new_right.nearly_well_formed());
                    }
                    node.right = Some(new_right);
                    proof {
                        assert(node.as_map() =~= orig.as_map());
                        assert(node.in_order() =~= orig.in_order());
                        assert forall|k: u64|
                            Node::<V>::optional_as_map(node.right).dom().contains(k) implies k
                            > node.key by {
                            assert(Node::<V>::optional_as_map(orig.right).dom().contains(k));
                        }
                        assert(node.keys_ordered());
                    }
                    let r = Node::<V>::rotate_left(node);
                    proof {
                        assert(r.left.unwrap().well_formed());
                        assert(r.well_formed());
                        r.lemma_node_count_in_order();
                        orig.lemma_node_count_in_order();
                    }
                    r
                } else {
                    proof {
                        assert(node.right.unwrap().well_formed());
                        assert(node.right.unwrap().balance_factor >= 0);
                        assert(node.keys_ordered());
                    }
                    let r = Node::<V>::rotate_left(node);
                    proof {
                        assert(r.left.unwrap().well_formed());
                        assert(r.well_formed());
                        r.lemma_node_count_in_order();
                        orig.lemma_node_count_in_order();
                    }
                    r
                }
            },
            _ => {
                proof {
                    assert(false);
                }
                vstd::pervasive::unreached()
            },
        }
    }

    /// The entry count of a subtree equals the length of its in-order
    /// traversal.
    pub proof fn lemma_count_matches_in_order(node_opt: Option<Box<Node<V>>>)
        ensures
            Node::<V>::optional_count(node_opt) == Node::<V>::optional_in_order(node_opt).len(),
        decreases node_opt,
    {
        if let Some(node) = node_opt {
            Node::<V>::lemma_count_matches_in_order(node.left);
            Node::<V>::lemma_count_matches_in_order(node.right);
        }
    }

    /// The entry count of this node's subtree equals the length of its
    /// in-order traversal.
    pub proof fn lemma_node_count_in_order(self)
        ensures
            self.spec_count() == self.in_order().len(),
    {
        Node::<V>::lemma_count_matches_in_order(self.left);
        Node::<V>::lemma_count_matches_in_order(self.right);
    }

    /// A fully well-formed optional subtree is in particular in the relaxed
    /// state that the cache helpers ask for.
    proof fn lemma_opt_wf_nearly(node_opt: Option<Box<Node<V>>>)
        requires
            Node::<V>::optional_well_formed(node_opt),
        ensures
            Node::<V>::opt_nearly_well_formed(node_opt),
    {
        if let Some(x) = node_opt {
            assert(x.well_formed());
            assert(x.nearly_well_formed());
        }
    }

    /// Looks a key up in an optional subtree, returning the stored key and
    /// value when it is present.
    pub fn get_key_value(node: &Option<Box<Node<V>>>, key: u64) -> (r: Option<(&u64, &V)>)
        requires
            Node::<V>::optional_well_formed(*node),
        ensures
            match r {
                Some(p) => Node::<V>::optional_as_map(*node).dom().contains(key) && *p.0 == key
                    && *p.1 == Node::<V>::optional_as_map(*node)[key],
                None => !Node::<V>::optional_as_map(*node).dom().contains(key),
            },
        decreases *node,
    {
        if let Some(n) = node.as_ref() {
            if key < n.key {
                proof {
                    assert(!Node::<V>::optional_as_map(n.right).dom().contains(key));
                }
                Node::<V>::get_key_value(&n.left, key)
            } else if key > n.key {
                proof {
                    assert(!Node::<V>::optional_as_map(n.left).dom().contains(key));
                }
                Node::<V>::get_key_value(&n.right, key)
            } else {
                Some((&n.key, &n.value))
            }
        } else {
            None
        }
    }

    /// Inserts the entry into the subtree, handing back the rebuilt root and
    /// the value the key held before, if any.  The subtree stays an AVL
    /// tree: the new entry is placed by search order and every node on the
    /// way back up is recomputed and rebalanced; its height grows by at most
    /// one.
    #[verifier::rlimit(100)]
    pub fn insert(node: Option<Box<Node<V>>>, key: u64, value: V) -> (r: (
        Box<Node<V>>,
        Option<V>,
    ))
        requires
            Node::<V>::optional_well_formed(node),
            Node::<V>::optional_count(node) < usize::MAX,
        ensures
            r.0.well_formed(),
            r.0.as_map() == Node::<V>::optional_as_map(node).insert(key, value),
            r.1 == (if Node::<V>::optional_as_map(node).dom().contains(key) {
                Some(Node::<V>::optional_as_map(node)[key])
            } else {
                None::<V>
            }),
            Node::<V>::optional_height(node) <= r.0.spec_height() <= Node::<V>::optional_height(
                node,
            ) + 1,
            r.0.spec_count() == Node::<V>::optional_count(node) + (
            if Node::<V>::optional_as_map(node).dom().contains(key) {
                0int
            } else {
                1int
            }),
        decreases node,
    {
        let ghost input = node;
        if let Some(mut boxed) = node {
            let ghost orig = *boxed;
            if key < boxed.key {
                proof {
                    assert(!Node::<V>::optional_as_map(orig.right).dom().contains(key));
                }
                let taken = boxed.left.take();
                let (ln, prev) = Node::<V>::insert(taken, key, value);
                boxed.left = Some(ln);
                proof {
                    assert forall|k: u64|
                        Node::<V>::optional_as_map(boxed.left).dom().contains(k) implies k
                        < boxed.key by {
                        if k != key {
                            assert(Node::<V>::optional_as_map(orig.left).dom().contains(k));
                        }
                    }
                }
                proof {
                    Node::<V>::lemma_opt_wf_nearly(boxed.left);
                    Node::<V>::lemma_opt_wf_nearly(boxed.right);
                }
                Node::<V>::update_height_bf_len(&mut boxed);
                proof {
                    assert(boxed.nearly_well_formed());
                }
                let res = Node::<V>::balance(boxed);
                proof {
                    assert(res.as_map() =~= orig.as_map().insert(key, value));
                }
                (res, prev)
            } else if key > boxed.key {
                proof {
                    assert(!Node::<V>::optional_as_map(orig.left).dom().contains(key));
                }
                let taken = boxed.right.take();
                let (rn, prev) = Node::<V>::insert(taken, key, value);
                boxed.right = Some(rn);
                proof {
                    assert forall|k: u64|
                        Node::<V>::optional_as_map(boxed.right).dom().contains(k) implies k
                        > boxed.key by {
                        if k != key {
                            assert(Node::<V>::optional_as_map(orig.right).dom().contains(k));
                        }
                    }
                }
                proof {
                    Node::<V>::lemma_opt_wf_nearly(boxed.left);
                    Node::<V>::lemma_opt_wf_nearly(boxed.right);
                }
                Node::<V>::update_height_bf_len(&mut boxed);
                proof {
                    assert(boxed.nearly_well_formed());
                }
                let res = Node::<V>::balance(boxed);
                proof {
                    assert(res.as_map() =~= orig.as_map().insert(key, value));
                }
                (res, prev)
            } else {
                let ghost new_val = value;
                let mut value = value;
                core::mem::swap(&mut boxed.value, &mut value);
                proof {
                    assert(!Node::<V>::optional_as_map(orig.left).dom().contains(key));
                    assert(!Node::<V>::optional_as_map(orig.right).dom().contains(key));
                    assert(boxed.well_formed());
                    assert(boxed.as_map() =~= orig.as_map().insert(key, new_val));
                    assert(orig.as_map()[key] == orig.value);
                }
                (boxed, Some(value))
            }
        } else {
            let leaf = Box::new(Node::<V>::new(key, value, None, None));
            proof {
                assert(leaf.well_formed());
                assert(leaf.as_map() =~= Map::<u64, V>::empty().insert(key, value));
            }
            (leaf, None)
        }
    }

    /// Order-statistic selection: the entry with exactly `k` entries before
    /// it in key order, when `k` is within range.  The walk is guided by the
    /// cached subtree sizes alone.
    pub fn nth_key_value(node: &Option<Box<Node<V>>>, k: usize) -> (r: Option<(&u64, &V)>)
        requires
            Node::<V>::optional_well_formed(*node),
        ensures
            match r {
                Some(p) => k < Node::<V>::optional_in_order(*node).len() && *p.0
                    == Node::<V>::optional_in_order(*node)[k as int].0 && *p.1
                    == Node::<V>::optional_in_order(*node)[k as int].1,
                None => k >= Node::<V>::optional_in_order(*node).len(),
            },
        decreases *node,
    {
        if let Some(n) = node.as_ref() {
            proof {
                n.lemma_node_count_in_order();
                Node::<V>::lemma_count_matches_in_order(n.left);
                Node::<V>::lemma_count_matches_in_order(n.right);
                assert(n.caches_ok());
                assert(Node::<V>::optional_well_formed(n.left));
                assert(Node::<V>::optional_well_formed(n.right));
            }
            if k >= n.len {
                None
            } else {
                match (n.left.as_ref(), n.right.as_ref()) {
                    (Some(ln), Some(_)) => {
                        proof {
                            assert(ln.well_formed());
                        }
                        if k == ln.len {
                            Some((&n.key, &n.value))
                        } else if k < ln.len {
                            Node::<V>::nth_key_value(&n.left, k)
                        } else {
                            Node::<V>::nth_key_value(&n.right, k - 1 - ln.len)
                        }
                    },
                    (Some(ln), None) => {
                        proof {
                            assert(ln.well_formed());
                        }
                        if k == ln.len {
                            Some((&n.key, &n.value))
                        } else if k < ln.len {
                            Node::<V>::nth_key_value(&n.left, k)
                        } else {
                            proof {
                                assert(false);
                            }
                            vstd::pervasive::unreached()
                        }
                    },
                    (None, Some(_)) => {
                        if k == 0 {
                            Some((&n.key, &n.value))
                        } else {
                            Node::<V>::nth_key_value(&n.right, k - 1)
                        }
                    },
                    (None, None) => {
                        if k == 0 {
                            Some((&n.key, &n.value))
                        } else {
                            proof {
                                assert(false);
                            }
                            vstd::pervasive::unreached()
                        }
                    },
                }
            }
        } else {
            None
        }
    }

    /// Detaches the entry with the greatest key from the subtree, handing
    /// back the rebuilt remainder and the detached node.  Every node on the
    /// way back up is recomputed and rebalanced; the remainder's caches are
    /// sound, while the detached node's are not and must be rewritten before
    /// it is reused.
    #[verifier::rlimit(100)]
    fn take_max(node: Box<Node<V>>) -> (r: (Option<Box<Node<V>>>, Box<Node<V>>))
        requires
            node.well_formed(),
        ensures
            Node::<V>::optional_well_formed(r.0),
            node.as_map().dom().contains(r.1.key),
            node.as_map()[r.1.key] == r.1.value,
            forall|k: u64| node.as_map().dom().contains(k) ==> k <= r.1.key,
            Node::<V>::optional_as_map(r.0) == node.as_map().remove(r.1.key),
            node.spec_height() - 1 <= Node::<V>::optional_height(r.0) <= node.spec_height(),
            Node::<V>::optional_count(r.0) == node.spec_count() - 1,
        decreases node,
    {
        let ghost orig = *node;
        let mut node = node;
        match node.right.take() {
            Some(rnode) => {
                let ghost rc = *rnode;
                proof {
                    assert(orig.right == Some(rnode));
                    assert(rc.well_formed());
                }
                let (new_r, max_node) = Node::<V>::take_max(rnode);
                node.right = new_r;
                proof {
                    assert forall|k: u64|
                        Node::<V>::optional_as_map(node.right).dom().contains(k) implies k
                        > node.key by {
                        assert(Node::<V>::optional_as_map(orig.right).dom().contains(k));
                    }
                    Node::<V>::lemma_opt_wf_nearly(node.left);
                    Node::<V>::lemma_opt_wf_nearly(node.right);
                }
                Node::<V>::update_height_bf_len(&mut node);
                proof {
                    assert(node.nearly_well_formed());
                }
                let res = Node::<V>::balance(node);
                proof {
                    assert(Node::<V>::optional_as_map(orig.right).dom().contains(max_node.key));
                    assert(!Node::<V>::optional_as_map(orig.left).dom().contains(max_node.key));
                    assert(res.as_map() =~= orig.as_map().remove(max_node.key));
                    assert forall|k: u64| orig.as_map().dom().contains(k) implies k
                        <= max_node.key by {
                        if Node::<V>::optional_as_map(orig.left).dom().contains(k) {
                        } else if k == orig.key {
                        } else {
                            assert(Node::<V>::optional_as_map(orig.right).dom().contains(k));
                        }
                    }
                }
                (Some(res), max_node)
            },
            None => {
                let l = node.left.take();
                proof {
                    assert(Node::<V>::optional_as_map(orig.right) =~= Map::<u64, V>::empty());
                    assert(orig.as_map().dom().contains(node.key));
                    assert(Node::<V>::optional_as_map(l) =~= orig.as_map().remove(node.key));
                }
                (l, node)
            },
        }
    }

    /// Detaches the entry with the least key from the subtree; the mirror
    /// image of `take_max`.
    #[verifier::rlimit(100)]
    fn take_min(node: Box<Node<V>>) -> (r: (Option<Box<Node<V>>>, Box<Node<V>>))
        requires
            node.well_formed(),
        ensures
            Node::<V>::optional_well_formed(r.0),
            node.as_map().dom().contains(r.1.key),
            node.as_map()[r.1.key] == r.1.value,
            forall|k: u64| node.as_map().dom().contains(k) ==> k >= r.1.key,
            Node::<V>::optional_as_map(r.0) == node.as_map().remove(r.1.key),
            node.spec_height() - 1 <= Node::<V>::optional_height(r.0) <= node.spec_height(),
            Node::<V>::optional_count(r.0) == node.spec_count() - 1,
        decreases node,
    {
        let ghost orig = *node;
        let mut node = node;
        match node.left.take() {
            Some(lnode) => {
                let ghost lc = *lnode;
                proof {
                    assert(orig.left == Some(lnode));
                    assert(lc.well_formed());
                }
                let (new_l, min_node) = Node::<V>::take_min(lnode);
                node.left = new_l;
                proof {
                    assert forall|k: u64|
                        Node::<V>::optional_as_map(node.left).dom().contains(k) implies k
                        < node.key by {
                        assert(Node::<V>::optional_as_map(orig.left).dom().contains(k));
                    }
                    Node::<V>::lemma_opt_wf_nearly(node.left);
                    Node::<V>::lemma_opt_wf_nearly(node.right);
                }
                Node::<V>::update_height_bf_len(&mut node);
                proof {
                    assert(node.nearly_well_formed());
                }
                let res = Node::<V>::balance(node);
                proof {
                    assert(Node::<V>::optional_as_map(orig.left).dom().contains(min_node.key));
                    assert(!Node::<V>::optional_as_map(orig.right).dom().contains(min_node.key));
                    assert(res.as_map() =~= orig.as_map().remove(min_node.key));
                    assert forall|k: u64| orig.as_map().dom().contains(k) implies k
                        >= min_node.key by {
                        if Node::<V>::optional_as_map(orig.right).dom().contains(k) {
                        } else if k == orig.key {
                        } else {
                            assert(Node::<V>::optional_as_map(orig.left).dom().contains(k));
                        }
                    }
                }
                (Some(res), min_node)
            },
            None => {
                let r = node.right.take();
                proof {
                    assert(Node::<V>::optional_as_map(orig.left) =~= Map::<u64, V>::empty());
                    assert(orig.as_map().dom().contains(node.key));
                    assert(Node::<V>::optional_as_map(r) =~= orig.as_map().remove(node.key));
                }
                (r, node)
            },
        }
    }

    /// Removes the entry with the given key, if it is present, handing back
    /// the rebuilt subtree and the removed pair.  When the matched node has
    /// children, its replacement is taken from the taller side, as told by
    /// the balance factor, so that one rebalancing pass per level suffices.
    #[verifier::rlimit(100)]
    pub fn remove_entry(node: Box<Node<V>>, key: u64) -> (r: (
        Option<Box<Node<V>>>,
        Option<(u64, V)>,
    ))
        requires
            node.well_formed(),
        ensures
            Node::<V>::optional_well_formed(r.0),
            Node::<V>::optional_as_map(r.0) == node.as_map().remove(key),
            r.1 == (if node.as_map().dom().contains(key) {
                Some((key, node.as_map()[key]))
            } else {
                None::<(u64, V)>
            }),
            node.spec_height() - 1 <= Node::<V>::optional_height(r.0) <= node.spec_height(),
            Node::<V>::optional_count(r.0) == node.spec_count() - (
            if node.as_map().dom().contains(key) {
                1int
            } else {
                0int
            }),
        decreases node,
    {
        let ghost orig = *node;
        let mut node = node;
        if key < node.key {
            proof {
                assert(!Node::<V>::optional_as_map(orig.right).dom().contains(key));
            }
            match node.left.take() {
                Some(lnode) => {
                    let (new_l, ret) = Node::<V>::remove_entry(lnode, key);
                    node.left = new_l;
                    proof {
                        assert forall|k: u64|
                            Node::<V>::optional_as_map(node.left).dom().contains(k) implies k
                            < node.key by {
                            assert(Node::<V>::optional_as_map(orig.left).dom().contains(k));
                        }
                        Node::<V>::lemma_opt_wf_nearly(node.left);
                        Node::<V>::lemma_opt_wf_nearly(node.right);
                    }
                    Node::<V>::update_height_bf_len(&mut node);
                    proof {
                        assert(node.nearly_well_formed());
                    }
                    let res = Node::<V>::balance(node);
                    proof {
                        assert(res.as_map() =~= orig.as_map().remove(key));
                    }
                    (Some(res), ret)
                },
                None => {
                    proof {
                        assert(!orig.as_map().dom().contains(key));
                        assert(orig.as_map().remove(key) =~= orig.as_map());
                    }
                    (Some(node), None)
                },
            }
        } else if key > node.key {
            proof {
                assert(!Node::<V>::optional_as_map(orig.left).dom().contains(key));
            }
            match node.right.take() {
                Some(rnode) => {
                    let (new_r, ret) = Node::<V>::remove_entry(rnode, key);
                    node.right = new_r;
                    proof {
                        assert forall|k: u64|
                            Node::<V>::optional_as_map(node.right).dom().contains(k) implies k
                            > node.key by {
                            assert(Node::<V>::optional_as_map(orig.right).dom().contains(k));
                        }
                        Node::<V>::lemma_opt_wf_nearly(node.left);
                        Node::<V>::lemma_opt_wf_nearly(node.right);
                    }
                    Node::<V>::update_height_bf_len(&mut node);
                    proof {
                        assert(node.nearly_well_formed());
                    }
                    let res = Node::<V>::balance(node);
                    proof {
                        assert(res.as_map() =~= orig.as_map().remove(key));
                    }
                    (Some(res), ret)
                },
                None => {
                    proof {
                        assert(!orig.as_map().dom().contains(key));
                        assert(orig.as_map().remove(key) =~= orig.as_map());
                    }
                    (Some(node), None)
                },
            }
        } else {
            proof {
                assert(!Node::<V>::optional_as_map(orig.left).dom().contains(key));
                assert(!Node::<V>::optional_as_map(orig.right).dom().contains(key));
                assert(orig.as_map()[key] == orig.value);
            }
            let (rest, pair) = Node::<V>::remove_root(node);
            (rest, Some(pair))
        }
    }

    /// Removes this subtree's root entry and merges the children: the
    /// replacement root is the extremum taken from the taller side, as told
    /// by the balance factor, so one rebalancing step suffices.
    #[verifier::rlimit(100)]
    fn remove_root(node: Box<Node<V>>) -> (r: (Option<Box<Node<V>>>, (u64, V)))
        requires
            node.well_formed(),
        ensures
            Node::<V>::optional_well_formed(r.0),
            r.1.0 == node.key,
            r.1.1 == node.value,
            Node::<V>::optional_as_map(r.0) == node.as_map().remove(node.key),
            node.spec_height() - 1 <= Node::<V>::optional_height(r.0) <= node.spec_height(),
            Node::<V>::optional_count(r.0) == node.spec_count() - 1,
    {
        let ghost orig = *node;
        let ghost key = orig.key;
        let mut node = node;
        proof {
            assert(!Node::<V>::optional_as_map(orig.left).dom().contains(key));
            assert(!Node::<V>::optional_as_map(orig.right).dom().contains(key));
        }
        {
            let lopt = node.left.take();
            let ropt = node.right.take();
            let bf = node.balance_factor;
            let dismantled: Node<V> = *node;
            if bf < 0 {
                let lnode = match lopt {
                    Some(l) => l,
                    None => {
                        proof {
                            assert(false);
                        }
                        vstd::pervasive::unreached()
                    },
                };
                let ghost lc = *lnode;
                let (new_l, mut mid) = Node::<V>::take_max(lnode);
                let ghost maxk = mid.key;
                mid.left = new_l;
                mid.right = ropt;
                proof {
                    assert forall|k: u64|
                        Node::<V>::optional_as_map(mid.left).dom().contains(k) implies k
                        < mid.key by {
                        assert(lc.as_map().dom().contains(k));
                    }
                    assert forall|k: u64|
                        Node::<V>::optional_as_map(mid.right).dom().contains(k) implies k
                        > mid.key by {
                        assert(Node::<V>::optional_as_map(orig.right).dom().contains(k));
                        assert(lc.as_map().dom().contains(maxk));
                        assert(Node::<V>::optional_as_map(orig.left).dom().contains(maxk));
                    }
                    Node::<V>::lemma_opt_wf_nearly(mid.left);
                    Node::<V>::lemma_opt_wf_nearly(mid.right);
                }
                Node::<V>::update_height_bf_len(&mut mid);
                proof {
                    assert(mid.nearly_well_formed());
                }
                let res = Node::<V>::balance(mid);
                proof {
                    assert(Node::<V>::optional_as_map(orig.left).dom().contains(maxk));
                    assert(res.as_map() =~= orig.as_map().remove(key));
                }
                (Some(res), (dismantled.key, dismantled.value))
            } else {
                match ropt {
                    Some(rnode) => {
                        let ghost rc = *rnode;
                        let (new_r, mut mid) = Node::<V>::take_min(rnode);
                        let ghost mink = mid.key;
                        mid.right = new_r;
                        mid.left = lopt;
                        proof {
                            assert forall|k: u64|
                                Node::<V>::optional_as_map(mid.right).dom().contains(k) implies k
                                > mid.key by {
                                assert(rc.as_map().dom().contains(k));
                            }
                            assert forall|k: u64|
                                Node::<V>::optional_as_map(mid.left).dom().contains(k) implies k
                                < mid.key by {
                                assert(Node::<V>::optional_as_map(orig.left).dom().contains(k));
                                assert(rc.as_map().dom().contains(mink));
                                assert(Node::<V>::optional_as_map(orig.right).dom().contains(
                                    mink,
                                ));
                            }
                            Node::<V>::lemma_opt_wf_nearly(mid.left);
                            Node::<V>::lemma_opt_wf_nearly(mid.right);
                        }
                        Node::<V>::update_height_bf_len(&mut mid);
                        proof {
                            assert(mid.nearly_well_formed());
                        }
                        let res = Node::<V>::balance(mid);
                        proof {
                            assert(Node::<V>::optional_as_map(orig.right).dom().contains(mink));
                            assert(res.as_map() =~= orig.as_map().remove(key));
                        }
                        (Some(res), (dismantled.key, dismantled.value))
                    },
                    None => {
                        proof {
                            assert(lopt is None);
                            assert(orig.as_map().remove(key) =~= Map::<u64, V>::empty());
                        }
                        (None, (dismantled.key, dismantled.value))
                    },
                }
            }
        }
    }
}

/// The self-balancing ordered map: a single optional root node.  Every
/// public operation hands the root to the node engine and stores the root it
/// gets back.  The map's abstract value is the key/value map `self@`; its
/// in-order traversal `self.in_order()` lists the same entries in ascending
/// key order.
pub struct AVLTreeMap<V> {
    head: Option<Box<Node<V>>>,
}

impl<V> View for AVLTreeMap<V> {
    type V = Map<u64, V>;

    closed spec fn view(&self) -> Map<u64, V> {
        Node::<V>::optional_as_map(self.head)
    }
}

impl<V> AVLTreeMap<V> {
    /// The structural invariant: the root subtree, if any, is a well-formed
    /// AVL tree.
    pub closed spec fn well_formed(self) -> bool {
        Node::<V>::optional_well_formed(self.head)
    }

    /// The entries of the map in ascending key order.
    pub closed spec fn in_order(self) -> Seq<(u64, V)> {
        Node::<V>::optional_in_order(self.head)
    }

    /// In a well-formed subtree the map view is finite and its size equals
    /// the cached entry count.
    proof fn lemma_count_matches_dom(node_opt: Option<Box<Node<V>>>)
        requires
            Node::<V>::optional_well_formed(node_opt),
        ensures
            Node::<V>::optional_as_map(node_opt).dom().finite(),
            Node::<V>::optional_as_map(node_opt).dom().len() == Node::<V>::optional_count(
                node_opt,
            ),
        decreases node_opt,
    {
        broadcast use vstd::map_lib::group_map_union;

        if let Some(node) = node_opt {
            Self::lemma_count_matches_dom(node.left);
            Self::lemma_count_matches_dom(node.right);
            let ml = Node::<V>::optional_as_map(node.left);
            let mr = Node::<V>::optional_as_map(node.right);
            assert(ml.dom().disjoint(mr.dom()));
            assert(node.as_map() == ml.union_prefer_right(mr).insert(node.key, node.value));
            assert(!ml.union_prefer_right(mr).dom().contains(node.key));
            assert(node.as_map().dom() =~= ml.union_prefer_right(mr).dom().insert(node.key));
        }
    }

    /// Builds an empty map.
    pub fn new() -> (r: Self)
        ensures
            r.well_formed(),
            r@ == Map::<u64, V>::empty(),
            r.in_order() == Seq::<(u64, V)>::empty(),
    {
        Self { head: None }
    }

    /// Number of entries.
    pub fn len(&self) -> (r: usize)
        requires
            self.well_formed(),
        ensures
            self@.dom().finite(),
            r == self@.dom().len(),
            r == self.in_order().len(),
    {
        proof {
            Self::lemma_count_matches_dom(self.head);
            Node::<V>::lemma_count_matches_in_order(self.head);
        }
        match &self.head {
            Some(head) => head.len(),
            None => 0,
        }
    }

    /// True exactly when the map holds no entry.
    pub fn is_empty(&self) -> (r: bool)
        requires
            self.well_formed(),
        ensures
            r == (self@.dom().len() == 0),
            self@.dom().finite(),
    {
        self.len() == 0
    }

    /// The value stored under the key, if any.
    pub fn get(&self, key: u64) -> (r: Option<&V>)
        requires
            self.well_formed(),
        ensures
            match r {
                Some(v) => self@.dom().contains(key) && *v == self@[key],
                None => !self@.dom().contains(key),
            },
    {
        if let Some(p) = Node::<V>::get_key_value(&self.head, key) {
            Some(p.1)
        } else {
            None
        }
    }

    /// The stored key and value for the key, if any.
    pub fn get_key_value(&self, key: u64) -> (r: Option<(&u64, &V)>)
        requires
            self.well_formed(),
        ensures
            match r {
                Some(p) => self@.dom().contains(key) && *p.0 == key && *p.1 == self@[key],
                None => !self@.dom().contains(key),
            },
    {
        Node::<V>::get_key_value(&self.head, key)
    }

    /// True exactly when the key is present.
    pub fn contains_key(&self, key: u64) -> (r: bool)
        requires
            self.well_formed(),
        ensures
            r == self@.dom().contains(key),
    {
        Node::<V>::get_key_value(&self.head, key).is_some()
    }

    /// Stores the value under the key and hands back the value the key held
    /// before, if any.  A present key keeps the map's size; a new key grows
    /// it by exactly one.
    pub fn insert(&mut self, key: u64, value: V) -> (r: Option<V>)
        requires
            old(self).well_formed(),
            old(self)@.dom().len() < usize::MAX,
        ensures
            final(self).well_formed(),
            final(self)@ == old(self)@.insert(key, value),
            r == (if old(self)@.dom().contains(key) {
                Some(old(self)@[key])
            } else {
                None::<V>
            }),
    {
        proof {
            Self::lemma_count_matches_dom(self.head);
        }
        let (newhead, ret) = Node::<V>::insert(self.head.take(), key, value);
        self.head = Some(newhead);
        ret
    }

    /// The entry with exactly `k` entries before it in key order, if `k` is
    /// within range.
    pub fn nth_key_value(&self, k: usize) -> (r: Option<(&u64, &V)>)
        requires
            self.well_formed(),
        ensures
            match r {
                Some(p) => k < self.in_order().len() && *p.0 == self.in_order()[k as int].0
                    && *p.1 == self.in_order()[k as int].1,
                None => k >= self.in_order().len(),
            },
    {
        Node::<V>::nth_key_value(&self.head, k)
    }

    /// Removes the key and hands back the value it held, if any.
    pub fn remove(&mut self, key: u64) -> (r: Option<V>)
        requires
            old(self).well_formed(),
        ensures
            final(self).well_formed(),
            final(self)@ == old(self)@.remove(key),
            r == (if old(self)@.dom().contains(key) {
                Some(old(self)@[key])
            } else {
                None::<V>
            }),
    {
        match self.remove_entry(key) {
            Some(p) => Some(p.1),
            None => None,
        }
    }

    /// Removes the key and hands back the stored pair, if any.
    pub fn remove_entry(&mut self, key: u64) -> (r: Option<(u64, V)>)
        requires
            old(self).well_formed(),
        ensures
            final(self).well_formed(),
            final(self)@ == old(self)@.remove(key),
            r == (if old(self)@.dom().contains(key) {
                Some((key, old(self)@[key]))
            } else {
                None::<(u64, V)>
            }),
    {
        match self.head.take() {
            Some(head) => {
                let (newhead, ret) = Node::<V>::remove_entry(head, key);
                self.head = newhead;
                ret
            },
            None => {
                proof {
                    assert(old(self)@.remove(key) =~= old(self)@);
                }
                None
            },
        }
    }
}


impl<V> Node<V> {
    /// The in-order traversal of a well-formed subtree lists exactly the
    /// entries of its map, in strictly ascending key order.
    proof fn lemma_in_order_props(node_opt: Option<Box<Node<V>>>)
        requires
            Node::<V>::optional_well_formed(node_opt),
        ensures
            Node::<V>::optional_in_order(node_opt).len() == Node::<V>::optional_count(node_opt),
            forall|i: int|
                0 <= i < Node::<V>::optional_in_order(node_opt).len()
                    ==> Node::<V>::optional_as_map(node_opt).contains_pair(
                    (#[trigger] Node::<V>::optional_in_order(node_opt)[i]).0,
                    Node::<V>::optional_in_order(node_opt)[i].1,
                ),
            forall|i: int, j: int|
                0 <= i < j < Node::<V>::optional_in_order(node_opt).len()
                    ==> (#[trigger] Node::<V>::optional_in_order(node_opt)[i]).0 < (
                #[trigger] Node::<V>::optional_in_order(node_opt)[j]).0,
            forall|k: u64|
                #[trigger] Node::<V>::optional_as_map(node_opt).dom().contains(k)
                    ==> exists|i: int|
                    0 <= i < Node::<V>::optional_in_order(node_opt).len() && (
                    #[trigger] Node::<V>::optional_in_order(node_opt)[i]).0 == k,
        decreases node_opt,
    {
        if let Some(node) = node_opt {
            Node::<V>::lemma_in_order_props(node.left);
            Node::<V>::lemma_in_order_props(node.right);
            let ml = Node::<V>::optional_as_map(node.left);
            let mr = Node::<V>::optional_as_map(node.right);
            let sl = Node::<V>::optional_in_order(node.left);
            let sr = Node::<V>::optional_in_order(node.right);
            let s = Node::<V>::optional_in_order(node_opt);
            let m = Node::<V>::optional_as_map(node_opt);
            let ll = sl.len() as int;
            assert(s == sl + seq![(node.key, node.value)] + sr);
            assert(m == ml.union_prefer_right(mr).insert(node.key, node.value));
            assert forall|i: int| 0 <= i < s.len() implies m.contains_pair(
                (#[trigger] s[i]).0,
                s[i].1,
            ) by {
                if i < ll {
                    assert(ml.contains_pair(sl[i].0, sl[i].1));
                    assert(ml.dom().contains(sl[i].0));
                } else if i == ll {
                } else {
                    assert(mr.contains_pair(sr[i - ll - 1].0, sr[i - ll - 1].1));
                    assert(mr.dom().contains(sr[i - ll - 1].0));
                }
            }
            assert forall|i: int, j: int| 0 <= i < j < s.len() implies (#[trigger] s[i]).0 < (
            #[trigger] s[j]).0 by {
                if i < ll {
                    assert(ml.contains_pair(sl[i].0, sl[i].1));
                    assert(ml.dom().contains(s[i].0));
                }
                if j > ll {
                    assert(mr.contains_pair(sr[j - ll - 1].0, sr[j - ll - 1].1));
                    assert(mr.dom().contains(s[j].0));
                }
            }
            assert forall|k: u64| #[trigger] m.dom().contains(k) implies exists|i: int|
                0 <= i < s.len() && (#[trigger] s[i]).0 == k by {
                if k == node.key {
                    assert(s[ll].0 == k);
                } else if ml.dom().contains(k) {
                    let i = choose|i: int| 0 <= i < sl.len() && (#[trigger] sl[i]).0 == k;
                    assert(s[i].0 == k);
                } else {
                    assert(mr.dom().contains(k));
                    let i = choose|i: int| 0 <= i < sr.len() && (#[trigger] sr[i]).0 == k;
                    assert(s[ll + 1 + i].0 == k);
                }
            }
        }
    }

    /// The balance bound keeps trees shallow: a well-formed subtree of
    /// height h holds at least 2^(h / 2) - 1 entries, so the height is at
    /// most logarithmic in the entry count.
    pub proof fn lemma_height_bounded_by_count(node_opt: Option<Box<Node<V>>>)
        requires
            Node::<V>::optional_well_formed(node_opt),
        ensures
            vstd::arithmetic::power2::pow2((Node::<V>::optional_height(node_opt) / 2) as nat)
                <= Node::<V>::optional_count(node_opt) + 1,
        decreases node_opt,
    {
        broadcast use vstd::arithmetic::power2::lemma_pow2_unfold;
        broadcast use vstd::arithmetic::power2::lemma_pow2_adds;
        broadcast use vstd::arithmetic::power2::lemma_pow2_pos;

        if let Some(node) = node_opt {
            Node::<V>::lemma_height_bounded_by_count(node.left);
            Node::<V>::lemma_height_bounded_by_count(node.right);
            let h = node.spec_height();
            let hl = Node::<V>::optional_height(node.left);
            let hr = Node::<V>::optional_height(node.right);
            if h >= 2 {
                assert(hl >= h - 2 && hr >= h - 2);
                vstd::arithmetic::power2::lemma_pow2_pos(((h - 2) / 2) as nat);
                assert(vstd::arithmetic::power2::pow2(((h - 2) / 2) as nat)
                    <= Node::<V>::optional_count(node.left) + 1) by {
                    if hl / 2 > (h - 2) / 2 {
                        vstd::arithmetic::power2::lemma_pow2_strictly_increases(
                            ((h - 2) / 2) as nat,
                            (hl / 2) as nat,
                        );
                    }
                }
                assert(vstd::arithmetic::power2::pow2(((h - 2) / 2) as nat)
                    <= Node::<V>::optional_count(node.right) + 1) by {
                    if hr / 2 > (h - 2) / 2 {
                        vstd::arithmetic::power2::lemma_pow2_strictly_increases(
                            ((h - 2) / 2) as nat,
                            (hr / 2) as nat,
                        );
                    }
                }
                assert((h / 2) as nat == ((h - 2) / 2 + 1) as nat);
                assert(vstd::arithmetic::power2::pow2((h / 2) as nat) == 2
                    * vstd::arithmetic::power2::pow2(((h - 2) / 2) as nat));
            } else {
                vstd::arithmetic::power2::lemma2_to64();
                assert(vstd::arithmetic::power2::pow2((h / 2) as nat)
                    == vstd::arithmetic::power2::pow2(0));
            }
        } else {
            vstd::arithmetic::power2::lemma2_to64();
        }
    }
}

impl<V> AVLTreeMap<V> {
    /// Order invariant: the in-order traversal of a well-formed map lists
    /// keys in strictly increasing order.
    pub proof fn lemma_in_order_sorted(self)
        requires
            self.well_formed(),
        ensures
            forall|i: int, j: int|
                0 <= i < j < self.in_order().len() ==> (#[trigger] self.in_order()[i]).0 < (
                #[trigger] self.in_order()[j]).0,
    {
        Node::<V>::lemma_in_order_props(self.head);
    }

    /// Size and content invariant: the map view is finite, the in-order
    /// traversal has exactly one entry per key of the view, and each listed
    /// pair is stored in the view.
    pub proof fn lemma_in_order_matches_view(self)
        requires
            self.well_formed(),
        ensures
            self@.dom().finite(),
            self.in_order().len() == self@.dom().len(),
            forall|i: int|
                0 <= i < self.in_order().len() ==> self@.contains_pair(
                    (#[trigger] self.in_order()[i]).0,
                    self.in_order()[i].1,
                ),
            forall|k: u64|
                #[trigger] self@.dom().contains(k) ==> exists|i: int|
                    0 <= i < self.in_order().len() && (#[trigger] self.in_order()[i]).0 == k,
    {
        Node::<V>::lemma_in_order_props(self.head);
        Node::<V>::lemma_count_matches_in_order(self.head);
        Self::lemma_count_matches_dom(self.head);
    }

    /// Rank round-trip: the entry at rank k is the one with exactly k
    /// strictly smaller keys in the map.
    pub proof fn lemma_nth_rank(self, k: int)
        requires
            self.well_formed(),
            0 <= k < self.in_order().len(),
        ensures
            self@.dom().filter(|x: u64| x < self.in_order()[k].0).len() == k,
    {
        self.lemma_in_order_sorted();
        self.lemma_in_order_matches_view();
        let s = self.in_order();
        let keys = Seq::new(s.len(), |i: int| s[i].0);
        let prefix = keys.take(k);
        assert(prefix.no_duplicates());
        prefix.unique_seq_to_set();
        assert forall|x: u64| self@.dom().filter(|x: u64| x < s[k].0).contains(x) implies
            prefix.to_set().contains(x) by {
            let i = choose|i: int| 0 <= i < s.len() && (#[trigger] s[i]).0 == x;
            assert(i < k);
            assert(prefix[i] == x);
        }
        assert forall|x: u64| prefix.to_set().contains(x) implies self@.dom().filter(
            |x: u64| x < s[k].0,
        ).contains(x) by {
            let i = choose|i: int| 0 <= i < prefix.len() && prefix[i] == x;
            assert(s[i].0 == x);
            assert(self@.contains_pair(s[i].0, s[i].1));
        }
        assert(self@.dom().filter(|x: u64| x < s[k].0) =~= prefix.to_set());
    }

    /// Balance invariant consequence: a well-formed map of height h holds at
    /// least 2^(h / 2) - 1 entries, so lookups walk at most a logarithmic
    /// number of nodes.
    pub proof fn lemma_balanced_depth(self)
        requires
            self.well_formed(),
        ensures
            vstd::arithmetic::power2::pow2((self.spec_height() / 2) as nat) <= self@.dom().len()
                + 1,
    {
        Node::<V>::lemma_height_bounded_by_count(self.head);
        Self::lemma_count_matches_dom(self.head);
    }


    /// Insert size law: storing under a present key keeps the size, a new
    /// key grows it by exactly one.
    pub proof fn lemma_insert_size(m: Map<u64, V>, key: u64, value: V)
        requires
            m.dom().finite(),
        ensures
            m.insert(key, value).dom().finite(),
            m.insert(key, value).dom().len() == m.dom().len() + (if m.dom().contains(key) {
                0int
            } else {
                1int
            }),
    {
        assert(m.insert(key, value).dom() =~= m.dom().insert(key));
    }

    /// Remove/insert inverse law: removing a present key and storing it
    /// again, with any value, restores the key set and with it the size.
    pub proof fn lemma_remove_insert_restores(m: Map<u64, V>, key: u64, value: V)
        requires
            m.dom().contains(key),
        ensures
            m.remove(key).insert(key, value).dom() == m.dom(),
    {
        assert(m.remove(key).insert(key, value).dom() =~= m.dom());
    }

    /// The height of the tree behind the map: 0 when empty.
    pub closed spec fn spec_height(self) -> nat {
        Node::<V>::optional_height(self.head)
    }
}

impl<V> Default for AVLTreeMap<V> {
    /// The default map is the empty map.
    fn default() -> (r: Self)
        ensures
            r.well_formed(),
            r@ == Map::<u64, V>::empty(),
    {
        Self::new()
    }
}

} // verus!
