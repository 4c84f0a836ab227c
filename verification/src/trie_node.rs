use vstd::prelude::*;

verus! {

/// Shared handle to a stored value. Lookups hand the caller an independently
/// owned handle to the same byte blob, so large blobs are never deep-copied.
pub type TrieValueType = std::rc::Rc<Vec<u8>>;

/// Owned pointer to a child cell.
pub type TrieNodeType = Box<TrieNode>;

/// One cell of the ternary search trie. A cell matches a single byte at one
/// position of a key: bytes below `key` route to `left` and bytes above it to
/// `right`, neither consuming input, while a byte equal to `key` is consumed
/// and the walk continues in `middle`. A cell carries a value exactly when
/// some inserted key ends at it.
pub struct TrieNode {
    pub left: Option<TrieNodeType>,
    pub middle: Option<TrieNodeType>,
    pub right: Option<TrieNodeType>,
    pub value: Option<TrieValueType>,
    pub key: u8,
    /// How many times a lookup has resolved to this cell's value.
    pub uses: usize,
}

/// The value stored for `tokens` in the subtree rooted at `node`, if any:
/// the walk descends left or right on a byte mismatch without consuming
/// input, consumes each matching byte into `middle`, and succeeds only if it
/// ends, with every byte consumed, on a cell that holds a value.
pub open spec fn spec_search(node: Option<TrieNodeType>, tokens: Seq<u8>) -> Option<Seq<u8>>
    decreases node,
{
    match node {
        None => None,
        Some(n) => {
            if tokens.len() == 0 {
                None
            } else if tokens[0] < n.key {
                spec_search(n.left, tokens)
            } else if tokens[0] > n.key {
                spec_search(n.right, tokens)
            } else if tokens.len() == 1 {
                match n.value {
                    Some(v) => Some(v@),
                    None => None,
                }
            } else {
                spec_search(n.middle, tokens.drop_first())
            }
        },
    }
}

/// The usage counter of the cell on which a walk for `tokens` ends with every
/// byte consumed, or 0 when no such cell exists.
pub open spec fn spec_uses(node: Option<TrieNodeType>, tokens: Seq<u8>) -> nat
    decreases node,
{
    match node {
        None => 0,
        Some(n) => {
            if tokens.len() == 0 {
                0
            } else if tokens[0] < n.key {
                spec_uses(n.left, tokens)
            } else if tokens[0] > n.key {
                spec_uses(n.right, tokens)
            } else if tokens.len() == 1 {
                n.uses as nat
            } else {
                spec_uses(n.middle, tokens.drop_first())
            }
        },
    }
}

/// The number of cells in the subtree that hold a value.
pub open spec fn num_values(node: Option<TrieNodeType>) -> nat
    decreases node,
{
    match node {
        None => 0,
        Some(n) => (if n.value is Some {
            1nat
        } else {
            0nat
        }) + num_values(n.left) + num_values(n.middle) + num_values(n.right),
    }
}

/// The key bytes of one sibling cluster: the cells reachable through `left`
/// and `right` alone, which all compete for the same input position.
pub open spec fn sibling_keys(node: Option<TrieNodeType>) -> Set<u8>
    decreases node,
{
    match node {
        None => Set::empty(),
        Some(n) => sibling_keys(n.left).union(sibling_keys(n.right)).insert(n.key),
    }
}

/// Ordering of the cells: within every sibling cluster, all keys to the left
/// of a cell are strictly below its key and all keys to its right strictly
/// above, so equal bytes always route to `middle`.
pub open spec fn node_wf(node: Option<TrieNodeType>) -> bool
    decreases node,
{
    match node {
        None => true,
        Some(n) => {
            &&& forall|b: u8| sibling_keys(n.left).contains(b) ==> b < n.key
            &&& forall|b: u8| sibling_keys(n.right).contains(b) ==> b > n.key
            &&& node_wf(n.left)
            &&& node_wf(n.middle)
            &&& node_wf(n.right)
        },
    }
}

/// Two subtrees with the same cells, keys and values, differing at most in
/// their usage counters.
pub open spec fn same_skeleton(a: Option<TrieNodeType>, b: Option<TrieNodeType>) -> bool
    decreases a,
{
    match (a, b) {
        (None, None) => true,
        (Some(x), Some(y)) => {
            &&& x.key == y.key
            &&& x.value == y.value
            &&& same_skeleton(x.left, y.left)
            &&& same_skeleton(x.middle, y.middle)
            &&& same_skeleton(x.right, y.right)
        },
        _ => false,
    }
}

/// Spells out one walk step of `spec_search` on a present cell, for use
/// under quantifiers where the definition does not unfold by itself.
pub proof fn lemma_search_unfold(n: TrieNodeType, k: Seq<u8>)
    ensures
        k.len() == 0 ==> spec_search(Some(n), k) is None,
        k.len() > 0 && k[0] < n.key ==> spec_search(Some(n), k) == spec_search(n.left, k),
        k.len() > 0 && k[0] > n.key ==> spec_search(Some(n), k) == spec_search(n.right, k),
        k.len() == 1 && k[0] == n.key && n.value is Some ==> spec_search(Some(n), k) == Some(
            n.value.unwrap()@,
        ),
        k.len() == 1 && k[0] == n.key && n.value is None ==> spec_search(Some(n), k) is None,
        k.len() > 1 && k[0] == n.key ==> spec_search(Some(n), k) == spec_search(
            n.middle,
            k.drop_first(),
        ),
{
}

/// Spells out one walk step of `spec_uses` on a present cell.
pub proof fn lemma_uses_unfold(n: TrieNodeType, k: Seq<u8>)
    ensures
        k.len() == 0 ==> spec_uses(Some(n), k) == 0,
        k.len() > 0 && k[0] < n.key ==> spec_uses(Some(n), k) == spec_uses(n.left, k),
        k.len() > 0 && k[0] > n.key ==> spec_uses(Some(n), k) == spec_uses(n.right, k),
        k.len() == 1 && k[0] == n.key ==> spec_uses(Some(n), k) == n.uses as nat,
        k.len() > 1 && k[0] == n.key ==> spec_uses(Some(n), k) == spec_uses(
            n.middle,
            k.drop_first(),
        ),
{
}

/// An absent cell answers no walk and counts no uses.
pub proof fn lemma_absent(k: Seq<u8>)
    ensures
        spec_search(None::<TrieNodeType>, k) is None,
        spec_uses(None::<TrieNodeType>, k) == 0,
{
}

/// Every subtree shares its own skeleton.
pub proof fn lemma_skeleton_refl(a: Option<TrieNodeType>)
    ensures
        same_skeleton(a, a),
    decreases a,
{
    match a {
        None => {},
        Some(n) => {
            lemma_skeleton_refl(n.left);
            lemma_skeleton_refl(n.middle);
            lemma_skeleton_refl(n.right);
        },
    }
}

/// A search result depends only on the skeleton, never on usage counters.
pub proof fn lemma_skeleton_search(a: Option<TrieNodeType>, b: Option<TrieNodeType>, tokens: Seq<u8>)
    requires
        same_skeleton(a, b),
    ensures
        spec_search(a, tokens) == spec_search(b, tokens),
    decreases a,
{
    match (a, b) {
        (Some(x), Some(y)) => {
            if tokens.len() == 0 {
            } else if tokens[0] < x.key {
                lemma_skeleton_search(x.left, y.left, tokens);
            } else if tokens[0] > x.key {
                lemma_skeleton_search(x.right, y.right, tokens);
            } else if tokens.len() == 1 {
            } else {
                lemma_skeleton_search(x.middle, y.middle, tokens.drop_first());
            }
        },
        _ => {},
    }
}

/// The value count, the sibling clusters and their ordering all depend only
/// on the skeleton, never on usage counters.
pub proof fn lemma_skeleton_props(a: Option<TrieNodeType>, b: Option<TrieNodeType>)
    requires
        same_skeleton(a, b),
    ensures
        num_values(a) == num_values(b),
        sibling_keys(a) == sibling_keys(b),
        node_wf(a) == node_wf(b),
    decreases a,
{
    match (a, b) {
        (Some(x), Some(y)) => {
            lemma_skeleton_props(x.left, y.left);
            lemma_skeleton_props(x.middle, y.middle);
            lemma_skeleton_props(x.right, y.right);
            assert(sibling_keys(a) =~= sibling_keys(b));
        },
        _ => {
            assert(sibling_keys(a) =~= sibling_keys(b));
        },
    }
}

/// A subtree without a single value-bearing cell answers every walk with
/// absent.
pub proof fn lemma_no_values_no_keys(node: Option<TrieNodeType>, k: Seq<u8>)
    requires
        num_values(node) == 0,
    ensures
        spec_search(node, k) is None,
    decreases node,
{
    match node {
        None => {},
        Some(n) => {
            if k.len() == 0 {
            } else if k[0] < n.key {
                lemma_no_values_no_keys(n.left, k);
            } else if k[0] > n.key {
                lemma_no_values_no_keys(n.right, k);
            } else if k.len() == 1 {
            } else {
                lemma_no_values_no_keys(n.middle, k.drop_first());
            }
        },
    }
}

impl TrieNode {
    /// Creates a fresh cell for `key` with no children, the given value, and
    /// an untouched usage counter.
    pub fn new(key: &u8, value: Option<TrieValueType>) -> (node: TrieNodeType)
        ensures
            node.key == *key,
            node.value == value,
            node.left is None,
            node.middle is None,
            node.right is None,
            node.uses == 0,
    {
        Box::new(
            TrieNode {
                left: None,
                middle: None,
                right: None,
                value: value,
                key: *key,
                uses: 0,
            },
        )
    }
}

} // verus!
