use vstd::prelude::*;

verus! {

/// A binary search tree over `u64` keys with exclusive ownership of both
/// children.  The tree is built once by plain insertion (no rebalancing) and
/// then only read, so no delete or rotate operation exists.
pub enum Node {
    Empty,
    NonEmpty { item: u64, left: Box<Node>, right: Box<Node> },
}

impl Node {
    /// Number of nodes on the longest path from the root down to an empty
    /// position; the empty tree has height 0.
    pub open spec fn height(self) -> nat
        decreases self,
    {
        match self {
            Node::Empty => 0,
            Node::NonEmpty { item, left, right } => {
                1 + if left.height() >= right.height() {
                    left.height()
                } else {
                    right.height()
                }
            },
        }
    }

    /// Number of nodes in the tree.
    pub open spec fn size(self) -> nat
        decreases self,
    {
        match self {
            Node::Empty => 0,
            Node::NonEmpty { item, left, right } => 1 + left.size() + right.size(),
        }
    }

    /// The set of keys held by the tree.
    pub open spec fn key_set(self) -> Set<u64>
        decreases self,
    {
        match self {
            Node::Empty => Set::empty(),
            Node::NonEmpty { item, left, right } => {
                left.key_set().union(right.key_set()).insert(item)
            },
        }
    }

    /// The keys of the tree as read by an in-order walk.
    pub open spec fn inorder(self) -> Seq<u64>
        decreases self,
    {
        match self {
            Node::Empty => Seq::empty(),
            Node::NonEmpty { item, left, right } => {
                left.inorder() + seq![item] + right.inorder()
            },
        }
    }

    /// The binary-search-tree invariant: at every node, all keys of the left
    /// subtree compare less than the node's key and all keys of the right
    /// subtree compare greater.
    pub open spec fn is_bst(self) -> bool
        decreases self,
    {
        match self {
            Node::Empty => true,
            Node::NonEmpty { item, left, right } => {
                &&& (forall|k: u64| left.key_set().contains(k) ==> k < item)
                &&& (forall|k: u64| right.key_set().contains(k) ==> k > item)
                &&& left.is_bst()
                &&& right.is_bst()
            },
        }
    }
}

/// What one insertion yields: a new node at an empty position, a silent no-op
/// on an equal key, and otherwise a descent into the ordered side.
pub open spec fn insert_spec(t: Node, new_item: u64) -> Node
    decreases t,
{
    match t {
        Node::Empty => Node::NonEmpty {
            item: new_item,
            left: Box::new(Node::Empty),
            right: Box::new(Node::Empty),
        },
        Node::NonEmpty { item, left, right } => {
            if item > new_item {
                Node::NonEmpty { item, left: Box::new(insert_spec(*left, new_item)), right }
            } else if item == new_item {
                Node::NonEmpty { item, left, right }
            } else {
                Node::NonEmpty { item, left, right: Box::new(insert_spec(*right, new_item)) }
            }
        },
    }
}

fn insert_owned(t: Node, new_item: u64) -> (r: Node)
    ensures
        r == insert_spec(t, new_item),
    decreases t,
{
    match t {
        Node::Empty => Node::NonEmpty {
            item: new_item,
            left: Box::new(Node::Empty),
            right: Box::new(Node::Empty),
        },
        Node::NonEmpty { item, left, right } => {
            if item > new_item {
                Node::NonEmpty { item, left: Box::new(insert_owned(*left, new_item)), right }
            } else if item == new_item {
                Node::NonEmpty { item, left, right }
            } else {
                Node::NonEmpty { item, left, right: Box::new(insert_owned(*right, new_item)) }
            }
        },
    }
}

/// Insert a key into the tree without any rebalancing; an already-present key
/// is discarded silently.
pub fn insert_no_balance(t: &mut Node, new_item: u64)
    ensures
        *final(t) == insert_spec(*old(t), new_item),
{
    let mut taken = Node::Empty;
    core::mem::swap(t, &mut taken);
    *t = insert_owned(taken, new_item);
}

/// Compute the height of the tree: 0 when empty, else one more than the
/// taller child.
pub fn compute_height(t: &Node) -> (h: usize)
    requires
        t.height() <= usize::MAX,
    ensures
        h == t.height(),
    decreases *t,
{
    match t {
        Node::Empty => 0,
        Node::NonEmpty { item, left, right } => {
            let hl = compute_height(left);
            let hr = compute_height(right);
            if hl >= hr {
                1 + hl
            } else {
                1 + hr
            }
        },
    }
}

/// Count the nodes of the tree.
pub fn count_nodes(t: &Node) -> (n: usize)
    requires
        t.size() <= usize::MAX,
    ensures
        n == t.size(),
    decreases *t,
{
    match t {
        Node::Empty => 0,
        Node::NonEmpty { item, left, right } => {
            let nl = count_nodes(left);
            let nr = count_nodes(right);
            1 + nl + nr
        },
    }
}

pub proof fn lemma_key_set_finite(t: Node)
    ensures
        t.key_set().finite(),
    decreases t,
{
    match t {
        Node::Empty => {},
        Node::NonEmpty { item, left, right } => {
            lemma_key_set_finite(*left);
            lemma_key_set_finite(*right);
        },
    }
}

/// A key is read by the in-order walk exactly when the tree holds it.
pub proof fn lemma_inorder_members(t: Node)
    ensures
        forall|k: u64| t.inorder().contains(k) <==> t.key_set().contains(k),
    decreases t,
{
    match t {
        Node::Empty => {},
        Node::NonEmpty { item, left, right } => {
            lemma_inorder_members(*left);
            lemma_inorder_members(*right);
            let a = left.inorder();
            let b = right.inorder();
            let s = t.inorder();
            let la = a.len() as int;
            assert forall|k: u64| s.contains(k) implies t.key_set().contains(k) by {
                let i = choose|i: int| 0 <= i < s.len() && s[i] == k;
                if i < la {
                    assert(a[i] == k);
                    assert(a.contains(k));
                } else if i == la {
                    assert(k == item);
                } else {
                    assert(b[i - la - 1] == k);
                    assert(b.contains(k));
                }
            }
            assert forall|k: u64| t.key_set().contains(k) implies s.contains(k) by {
                if left.key_set().contains(k) {
                    let i = choose|i: int| 0 <= i < a.len() && a[i] == k;
                    assert(s[i] == k);
                } else if right.key_set().contains(k) {
                    let i = choose|i: int| 0 <= i < b.len() && b[i] == k;
                    assert(s[la + 1 + i] == k);
                } else {
                    assert(k == item);
                    assert(s[la] == k);
                }
            }
        },
    }
}

/// The in-order walk reads each node once.
pub proof fn lemma_inorder_len(t: Node)
    ensures
        t.inorder().len() == t.size(),
    decreases t,
{
    match t {
        Node::Empty => {},
        Node::NonEmpty { item, left, right } => {
            lemma_inorder_len(*left);
            lemma_inorder_len(*right);
        },
    }
}

pub proof fn lemma_height_le_size(t: Node)
    ensures
        t.height() <= t.size(),
    decreases t,
{
    match t {
        Node::Empty => {},
        Node::NonEmpty { item, left, right } => {
            lemma_height_le_size(*left);
            lemma_height_le_size(*right);
        },
    }
}

/// Insertion adds exactly the new key to the key set.
pub proof fn lemma_insert_key_set(t: Node, k: u64)
    ensures
        insert_spec(t, k).key_set() == t.key_set().insert(k),
    decreases t,
{
    match t {
        Node::Empty => {
            assert(insert_spec(t, k).key_set() =~= t.key_set().insert(k));
        },
        Node::NonEmpty { item, left, right } => {
            if item > k {
                lemma_insert_key_set(*left, k);
            } else if item == k {
            } else {
                lemma_insert_key_set(*right, k);
            }
            assert(insert_spec(t, k).key_set() =~= t.key_set().insert(k));
        },
    }
}

/// Insertion never yields an empty tree: a new node is placed at an empty
/// position, and a non-empty tree keeps its root.
pub proof fn lemma_insert_spec_nonempty(t: Node, k: u64)
    ensures
        insert_spec(t, k) is NonEmpty,
{
}

/// Insertion keeps the binary-search-tree invariant.
pub proof fn lemma_insert_bst(t: Node, k: u64)
    requires
        t.is_bst(),
    ensures
        insert_spec(t, k).is_bst(),
    decreases t,
{
    match t {
        Node::Empty => {},
        Node::NonEmpty { item, left, right } => {
            if item > k {
                lemma_insert_bst(*left, k);
                lemma_insert_key_set(*left, k);
            } else if item == k {
            } else {
                lemma_insert_bst(*right, k);
                lemma_insert_key_set(*right, k);
            }
        },
    }
}

/// Insertion grows the tree by one node for a fresh key and leaves it
/// unchanged in size for a key already present.
pub proof fn lemma_insert_size(t: Node, k: u64)
    requires
        t.is_bst(),
    ensures
        insert_spec(t, k).size() == t.size() + (if t.key_set().contains(k) {
            0nat
        } else {
            1nat
        }),
    decreases t,
{
    match t {
        Node::Empty => {},
        Node::NonEmpty { item, left, right } => {
            if item > k {
                lemma_insert_size(*left, k);
                assert(!right.key_set().contains(k));
            } else if item == k {
                assert(t.key_set().contains(k));
            } else {
                lemma_insert_size(*right, k);
                assert(!left.key_set().contains(k));
            }
        },
    }
}

/// In a valid BST each distinct key appears at most once: the node count
/// equals the cardinality of the key set.
pub proof fn lemma_bst_size_is_distinct_count(t: Node)
    requires
        t.is_bst(),
    ensures
        t.size() == t.key_set().len(),
    decreases t,
{
    match t {
        Node::Empty => {
            assert(t.key_set() =~= Set::<u64>::empty());
        },
        Node::NonEmpty { item, left, right } => {
            lemma_bst_size_is_distinct_count(*left);
            lemma_bst_size_is_distinct_count(*right);
            lemma_key_set_finite(*left);
            lemma_key_set_finite(*right);
            let u = left.key_set().union(right.key_set());
            assert(left.key_set().disjoint(right.key_set()));
            vstd::set_lib::lemma_set_disjoint_lens(left.key_set(), right.key_set());
            assert(left.key_set() + right.key_set() == u);
            assert(!u.contains(item));
            broadcast use vstd::set::axiom_set_insert_len;

            assert(u.insert(item).len() == u.len() + 1);
        },
    }
}

/// The keys of a sequence read in strictly ascending order.
pub open spec fn strictly_ascending(s: Seq<u64>) -> bool {
    forall|i: int, j: int| 0 <= i < j < s.len() ==> s[i] < s[j]
}

/// An in-order walk of a valid BST reads the keys in strictly ascending
/// order.
pub proof fn lemma_bst_inorder_ascending(t: Node)
    requires
        t.is_bst(),
    ensures
        strictly_ascending(t.inorder()),
    decreases t,
{
    match t {
        Node::Empty => {},
        Node::NonEmpty { item, left, right } => {
            lemma_bst_inorder_ascending(*left);
            lemma_bst_inorder_ascending(*right);
            lemma_inorder_members(*left);
            lemma_inorder_members(*right);
            let a = left.inorder();
            let b = right.inorder();
            let s = t.inorder();
            let la = a.len() as int;
            assert forall|i: int, j: int| 0 <= i < j < s.len() implies s[i] < s[j] by {
                if j < la {
                    assert(s[i] == a[i] && s[j] == a[j]);
                } else if j == la {
                    assert(a.contains(a[i]));
                    assert(s[i] == a[i] && s[j] == item);
                } else if i < la {
                    assert(a.contains(a[i]));
                    assert(b.contains(b[j - la - 1]));
                    assert(s[i] == a[i] && s[j] == b[j - la - 1]);
                } else if i == la {
                    assert(b.contains(b[j - la - 1]));
                    assert(s[i] == item && s[j] == b[j - la - 1]);
                } else {
                    assert(s[i] == b[i - la - 1] && s[j] == b[j - la - 1]);
                }
            }
        },
    }
}

/// A degenerate chain growing only to the right: every left child is empty.
pub open spec fn is_right_chain(t: Node) -> bool
    decreases t,
{
    match t {
        Node::Empty => true,
        Node::NonEmpty { item, left, right } => *left is Empty && is_right_chain(*right),
    }
}

/// A degenerate chain growing only to the left: every right child is empty.
pub open spec fn is_left_chain(t: Node) -> bool
    decreases t,
{
    match t {
        Node::Empty => true,
        Node::NonEmpty { item, left, right } => *right is Empty && is_left_chain(*left),
    }
}

/// Inserting a key above every key of a right chain extends the chain by one
/// node at the bottom, so the height grows by exactly one.
pub proof fn lemma_insert_above_right_chain(t: Node, k: u64)
    requires
        is_right_chain(t),
        forall|x: u64| t.key_set().contains(x) ==> x < k,
    ensures
        is_right_chain(insert_spec(t, k)),
        insert_spec(t, k).height() == t.height() + 1,
    decreases t,
{
    match t {
        Node::Empty => {},
        Node::NonEmpty { item, left, right } => {
            assert(t.key_set().contains(item));
            assert forall|x: u64| right.key_set().contains(x) implies x < k by {
                assert(t.key_set().contains(x));
            }
            lemma_insert_above_right_chain(*right, k);
        },
    }
}

/// Inserting a key below every key of a left chain extends the chain by one
/// node at the bottom, so the height grows by exactly one.
pub proof fn lemma_insert_below_left_chain(t: Node, k: u64)
    requires
        is_left_chain(t),
        forall|x: u64| t.key_set().contains(x) ==> x > k,
    ensures
        is_left_chain(insert_spec(t, k)),
        insert_spec(t, k).height() == t.height() + 1,
    decreases t,
{
    match t {
        Node::Empty => {},
        Node::NonEmpty { item, left, right } => {
            assert(t.key_set().contains(item));
            assert forall|x: u64| left.key_set().contains(x) implies x > k by {
                assert(t.key_set().contains(x));
            }
            lemma_insert_below_left_chain(*left, k);
        },
    }
}

/// Collect the keys of the tree in in-order sequence.
pub fn inorder_keys(t: &Node) -> (v: Vec<u64>)
    ensures
        v@ == t.inorder(),
    decreases *t,
{
    match t {
        Node::Empty => Vec::new(),
        Node::NonEmpty { item, left, right } => {
            let mut v = inorder_keys(left);
            v.push(*item);
            let mut rest = inorder_keys(right);
            v.append(&mut rest);
            proof {
                assert(v@ =~= left.inorder() + seq![*item] + right.inorder());
            }
            v
        },
    }
}

} // verus!
