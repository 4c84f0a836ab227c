use vstd::prelude::*;

use crate::trie_node::{
    lemma_absent, lemma_no_values_no_keys, lemma_search_unfold, lemma_skeleton_props,
    lemma_skeleton_refl, lemma_skeleton_search, lemma_uses_unfold, node_wf, num_values,
    same_skeleton, sibling_keys, spec_search, spec_uses, TrieNode, TrieNodeType, TrieValueType,
};

verus! {

/// Why an `insert` was rejected. Both variants are caller contract
/// violations, surfaced as values so that a host process can decide whether
/// they are fatal.
#[derive(Clone, Copy, PartialEq, Eq, Debug)]
pub enum TrieError {
    /// `insert` was given an empty token sequence.
    InvalidArgument,
    /// `insert` was given a key that already holds a value.
    DuplicateKey,
}

/// A ternary search trie over byte sequences.
///
/// Each cell matches one byte. An input byte below the cell's key descends
/// left, one above descends right, and an equal byte is consumed before the
/// walk continues in the middle child, which makes the structure a trie over
/// byte sequences rather than a flat binary tree. The trie maps each
/// inserted, non-empty byte sequence to one shared value blob, and supports
/// exact lookup as well as greedy longest-prefix lookup.
pub struct Trie {
    root: Option<TrieNodeType>,
    size: usize,
}

impl Trie {
    /// Internal consistency: the size counter equals the number of cells
    /// that hold a value, and every sibling cluster is strictly ordered.
    pub closed spec fn wf(self) -> bool {
        &&& self.size as nat == num_values(self.root)
        &&& node_wf(self.root)
    }

    /// The mapping the trie represents: every byte sequence whose exact walk
    /// ends on a value-bearing cell, mapped to that value's bytes.
    pub closed spec fn as_map(self) -> Map<Seq<u8>, Seq<u8>> {
        Map::new(
            |k: Seq<u8>| spec_search(self.root, k) is Some,
            |k: Seq<u8>| spec_search(self.root, k).unwrap(),
        )
    }

    /// The number of keys that currently have an assigned value.
    pub closed spec fn spec_len(self) -> nat {
        self.size as nat
    }

    /// The usage counter of the cell on which an exact walk for `tokens`
    /// ends, or 0 when no such cell exists.
    pub closed spec fn uses_of(self, tokens: Seq<u8>) -> nat {
        spec_uses(self.root, tokens)
    }

    /// Returns an empty trie: no cells, no keys, every counter at 0.
    pub fn new() -> (t: Self)
        ensures
            t.wf(),
            t@ == Map::<Seq<u8>, Seq<u8>>::empty(),
            t.spec_len() == 0,
            forall|k: Seq<u8>| t.uses_of(k) == 0,
    {
        let t = Trie { root: None, size: 0 };
        proof {
            assert(t.as_map() =~= Map::<Seq<u8>, Seq<u8>>::empty());
        }
        t
    }

    /// The number of keys that currently have an assigned value.
    pub fn len(&self) -> (n: usize)
        ensures
            n == self.spec_len(),
    {
        self.size
    }

    /// Whether no key has a value yet.
    pub fn is_empty(&self) -> (b: bool)
        ensures
            b == (self.spec_len() == 0),
    {
        self.size == 0
    }
}

/// Two non-empty sequences with the same head and the same tail are equal.
proof fn lemma_cons_eq(a: Seq<u8>, b: Seq<u8>)
    requires
        a.len() > 0,
        b.len() > 0,
        a[0] == b[0],
        a.drop_first() == b.drop_first(),
    ensures
        a == b,
{
    assert(a.drop_first() =~= a.subrange(1, a.len() as int));
    assert(b.drop_first() =~= b.subrange(1, b.len() as int));
    assert(a.len() == a.drop_first().len() + 1);
    assert(b.len() == b.drop_first().len() + 1);
    assert forall|i: int| 0 <= i < a.len() implies a[i] == b[i] by {
        if i > 0 {
            assert(a.drop_first()[i - 1] == a[i]);
            assert(b.drop_first()[i - 1] == b[i]);
        }
    }
    assert(a =~= b);
}

/// Relies on Rc::clone: the returned handle points to the same allocation,
/// so it carries the very same byte blob as the handle it was cloned from.
#[verifier::external_body]
fn clone_value(value: &TrieValueType) -> (r: TrieValueType)
    ensures
        r == *value,
{
    value.clone()
}

impl Trie {
    /// Walks the sub-trie for `tokens[offset..]`, creating the missing cells
    /// of the path one byte at a time, and attaches the value to the cell on
    /// which the walk ends, unless that cell already holds one.
    fn recursive_insert(
        node: &mut Option<TrieNodeType>,
        tokens: &[u8],
        offset: usize,
        value: &TrieValueType,
    ) -> (r: Result<(), TrieError>)
        requires
            offset < tokens@.len(),
        ensures
            (r matches Err(e) && e == TrieError::DuplicateKey) <==> spec_search(
                *old(node),
                tokens@.skip(offset as int),
            ) is Some,
            r is Ok <==> spec_search(*old(node), tokens@.skip(offset as int)) is None,
            r is Err ==> *final(node) == *old(node),
            r is Ok ==> spec_search(*final(node), tokens@.skip(offset as int)) == Some(value@),
            r is Ok ==> forall|k: Seq<u8>|
                k != tokens@.skip(offset as int) ==> spec_search(*final(node), k) == spec_search(
                    *old(node),
                    k,
                ),
            r is Ok ==> num_values(*final(node)) == num_values(*old(node)) + 1,
            r is Ok ==> sibling_keys(*final(node)) == sibling_keys(*old(node)).insert(
                tokens@[offset as int],
            ),
            r is Ok && node_wf(*old(node)) ==> node_wf(*final(node)),
            forall|k: Seq<u8>| spec_uses(*final(node), k) == spec_uses(*old(node), k),
        decreases tokens@.len() - offset, *old(node),
    {
        let ghost orig = *old(node);
        let ghost suffix = tokens@.skip(offset as int);
        let mut boxed = match node.take() {
            None => TrieNode::new(&tokens[offset], None),
            Some(b) => b,
        };
        let ghost pre = boxed;
        let key = tokens[offset];
        let r: Result<(), TrieError>;
        if key < boxed.key {
            proof {
                assert(orig == Some(pre));
                lemma_search_unfold(pre, suffix);
            }
            r = Self::recursive_insert(&mut boxed.left, tokens, offset, value);
            proof {
                if r is Ok {
                    lemma_search_unfold(boxed, suffix);
                    assert forall|k: Seq<u8>|
                        k != suffix implies spec_search(Some(boxed), k) == spec_search(
                        orig,
                        k,
                    ) by {
                        lemma_search_unfold(boxed, k);
                        lemma_search_unfold(pre, k);
                    }
                    assert(num_values(Some(boxed)) == num_values(orig) + 1);
                    assert(sibling_keys(Some(boxed)) =~= sibling_keys(orig).insert(
                        tokens@[offset as int],
                    ));
                    if node_wf(orig) {
                        assert(node_wf(Some(boxed)));
                    }
                } else {
                    assert(boxed == pre);
                }
                assert forall|k: Seq<u8>| spec_uses(Some(boxed), k) == spec_uses(orig, k) by {
                    lemma_uses_unfold(boxed, k);
                    lemma_uses_unfold(pre, k);
                }
            }
        } else if key > boxed.key {
            proof {
                assert(orig == Some(pre));
                lemma_search_unfold(pre, suffix);
            }
            r = Self::recursive_insert(&mut boxed.right, tokens, offset, value);
            proof {
                if r is Ok {
                    lemma_search_unfold(boxed, suffix);
                    assert forall|k: Seq<u8>|
                        k != suffix implies spec_search(Some(boxed), k) == spec_search(
                        orig,
                        k,
                    ) by {
                        lemma_search_unfold(boxed, k);
                        lemma_search_unfold(pre, k);
                    }
                    assert(num_values(Some(boxed)) == num_values(orig) + 1);
                    assert(sibling_keys(Some(boxed)) =~= sibling_keys(orig).insert(
                        tokens@[offset as int],
                    ));
                    if node_wf(orig) {
                        assert(node_wf(Some(boxed)));
                    }
                } else {
                    assert(boxed == pre);
                }
                assert forall|k: Seq<u8>| spec_uses(Some(boxed), k) == spec_uses(orig, k) by {
                    lemma_uses_unfold(boxed, k);
                    lemma_uses_unfold(pre, k);
                }
            }
        } else if offset + 1 == tokens.len() {
            proof {
                assert(suffix.len() == 1);
                lemma_search_unfold(pre, suffix);
                if orig is None {
                    lemma_absent(suffix);
                }
            }
            if boxed.value.is_some() {
                r = Err(TrieError::DuplicateKey);
                proof {
                    assert(orig == Some(pre));
                    assert(spec_search(orig, suffix) is Some);
                }
            } else {
                boxed.value = Some(clone_value(value));
                r = Ok(());
                proof {
                    lemma_search_unfold(boxed, suffix);
                    assert(spec_search(Some(boxed), suffix) == Some(value@));
                    assert forall|k: Seq<u8>|
                        k != suffix implies spec_search(Some(boxed), k) == spec_search(
                        orig,
                        k,
                    ) by {
                        lemma_search_unfold(boxed, k);
                        lemma_search_unfold(pre, k);
                        lemma_absent(k);
                        if k.len() == 1 && k[0] == pre.key {
                            assert(k =~= suffix);
                        }
                        if k.len() > 1 && k[0] == pre.key {
                            lemma_absent(k.drop_first());
                        }
                    }
                    assert(num_values(Some(boxed)) == num_values(orig) + 1);
                    assert(sibling_keys(Some(boxed)) =~= sibling_keys(orig).insert(
                        tokens@[offset as int],
                    ));
                    if node_wf(orig) {
                        assert(node_wf(Some(boxed)));
                    }
                    assert forall|k: Seq<u8>| spec_uses(Some(boxed), k) == spec_uses(orig, k) by {
                        lemma_uses_unfold(boxed, k);
                        lemma_uses_unfold(pre, k);
                        lemma_absent(k);
                        if k.len() > 1 && k[0] == pre.key {
                            lemma_absent(k.drop_first());
                        }
                    }
                }
            }
        } else {
            proof {
                assert(suffix.len() >= 2);
                assert(suffix.drop_first() =~= tokens@.skip(offset as int + 1));
                lemma_search_unfold(pre, suffix);
                if orig is None {
                    lemma_absent(suffix);
                    lemma_absent(suffix.drop_first());
                }
            }
            r = Self::recursive_insert(&mut boxed.middle, tokens, offset + 1, value);
            proof {
                let tail = tokens@.skip(offset as int + 1);
                if r is Err {
                    assert(orig == Some(pre));
                    assert(boxed == pre);
                }
                if r is Ok {
                    lemma_search_unfold(boxed, suffix);
                    assert(spec_search(Some(boxed), suffix) == Some(value@));
                    assert forall|k: Seq<u8>|
                        k != suffix implies spec_search(Some(boxed), k) == spec_search(
                        orig,
                        k,
                    ) by {
                        lemma_search_unfold(boxed, k);
                        lemma_search_unfold(pre, k);
                        lemma_absent(k);
                        if k.len() > 1 && k[0] == pre.key {
                            if k.drop_first() == tail {
                                lemma_cons_eq(k, suffix);
                            }
                            lemma_absent(k.drop_first());
                        }
                    }
                    assert(num_values(Some(boxed)) == num_values(orig) + 1);
                    assert(sibling_keys(Some(boxed)) =~= sibling_keys(orig).insert(
                        tokens@[offset as int],
                    ));
                    if node_wf(orig) {
                        assert(node_wf(Some(boxed)));
                    }
                }
                assert forall|k: Seq<u8>| spec_uses(Some(boxed), k) == spec_uses(orig, k) by {
                    lemma_uses_unfold(boxed, k);
                    lemma_uses_unfold(pre, k);
                    lemma_absent(k);
                    if k.len() > 1 && k[0] == pre.key {
                        lemma_absent(k.drop_first());
                    }
                }
            }
        }
        *node = Some(boxed);
        r
    }

    /// Walks the sub-trie for `tokens[offset..]` and, when the walk consumes
    /// every byte and ends on a value-bearing cell, bumps that cell's usage
    /// counter and returns a shared handle to its value.
    fn search_at(node: &mut Option<TrieNodeType>, tokens: &[u8], offset: usize) -> (r: Option<
        TrieValueType,
    >)
        requires
            offset <= tokens@.len(),
            spec_search(*old(node), tokens@.skip(offset as int)) is Some ==> spec_uses(
                *old(node),
                tokens@.skip(offset as int),
            ) < usize::MAX,
        ensures
            same_skeleton(*old(node), *final(node)),
            spec_search(*old(node), tokens@.skip(offset as int)) is None ==> r is None
                && *final(node) == *old(node),
            spec_search(*old(node), tokens@.skip(offset as int)) matches Some(s) ==> (
                r matches Some(v) && v@ == s && spec_uses(*final(node), tokens@.skip(offset as int))
                == spec_uses(*old(node), tokens@.skip(offset as int)) + 1),
            forall|k: Seq<u8>|
                k != tokens@.skip(offset as int) ==> spec_uses(*final(node), k) == spec_uses(
                    *old(node),
                    k,
                ),
        decreases tokens@.len() - offset, *old(node),
    {
        let ghost orig = *old(node);
        let ghost suffix = tokens@.skip(offset as int);
        if offset >= tokens.len() {
            proof {
                lemma_skeleton_refl(orig);
                if orig is Some {
                    lemma_search_unfold(orig.unwrap(), suffix);
                } else {
                    lemma_absent(suffix);
                }
            }
            return None;
        }
        let mut boxed = match node.take() {
            None => {
                proof {
                    lemma_absent(suffix);
                }
                return None;
            },
            Some(b) => b,
        };
        let ghost pre = boxed;
        let key = tokens[offset];
        let r: Option<TrieValueType>;
        if key < boxed.key {
            proof {
                lemma_search_unfold(pre, suffix);
                lemma_uses_unfold(pre, suffix);
            }
            r = Self::search_at(&mut boxed.left, tokens, offset);
            proof {
                lemma_skeleton_refl(pre.middle);
                lemma_skeleton_refl(pre.right);
                assert(same_skeleton(Some(pre), Some(boxed)));
                lemma_uses_unfold(boxed, suffix);
                if spec_search(orig, suffix) is None {
                    assert(boxed == pre);
                }
                assert forall|k: Seq<u8>|
                    k != suffix implies spec_uses(Some(boxed), k) == spec_uses(orig, k) by {
                    lemma_uses_unfold(boxed, k);
                    lemma_uses_unfold(pre, k);
                }
            }
        } else if key > boxed.key {
            proof {
                lemma_search_unfold(pre, suffix);
                lemma_uses_unfold(pre, suffix);
            }
            r = Self::search_at(&mut boxed.right, tokens, offset);
            proof {
                lemma_skeleton_refl(pre.left);
                lemma_skeleton_refl(pre.middle);
                assert(same_skeleton(Some(pre), Some(boxed)));
                lemma_uses_unfold(boxed, suffix);
                if spec_search(orig, suffix) is None {
                    assert(boxed == pre);
                }
                assert forall|k: Seq<u8>|
                    k != suffix implies spec_uses(Some(boxed), k) == spec_uses(orig, k) by {
                    lemma_uses_unfold(boxed, k);
                    lemma_uses_unfold(pre, k);
                }
            }
        } else if offset + 1 == tokens.len() {
            proof {
                assert(suffix.len() == 1);
                lemma_search_unfold(pre, suffix);
                lemma_uses_unfold(pre, suffix);
            }
            if boxed.value.is_some() {
                boxed.uses = boxed.uses + 1;
                let v = clone_value(boxed.value.as_ref().unwrap());
                r = Some(v);
                proof {
                    lemma_skeleton_refl(pre.left);
                    lemma_skeleton_refl(pre.middle);
                    lemma_skeleton_refl(pre.right);
                    assert(same_skeleton(Some(pre), Some(boxed)));
                    lemma_uses_unfold(boxed, suffix);
                    assert forall|k: Seq<u8>|
                        k != suffix implies spec_uses(Some(boxed), k) == spec_uses(orig, k) by {
                        lemma_uses_unfold(boxed, k);
                        lemma_uses_unfold(pre, k);
                        if k.len() == 1 && k[0] == pre.key {
                            assert(k =~= suffix);
                        }
                    }
                }
            } else {
                r = None;
                proof {
                    assert(boxed == pre);
                    lemma_skeleton_refl(orig);
                }
            }
        } else {
            proof {
                assert(suffix.drop_first() =~= tokens@.skip(offset as int + 1));
                lemma_search_unfold(pre, suffix);
                lemma_uses_unfold(pre, suffix);
            }
            r = Self::search_at(&mut boxed.middle, tokens, offset + 1);
            proof {
                lemma_skeleton_refl(pre.left);
                lemma_skeleton_refl(pre.right);
                assert(same_skeleton(Some(pre), Some(boxed)));
                lemma_uses_unfold(boxed, suffix);
                if spec_search(orig, suffix) is None {
                    assert(boxed == pre);
                }
                assert forall|k: Seq<u8>|
                    k != suffix implies spec_uses(Some(boxed), k) == spec_uses(orig, k) by {
                    lemma_uses_unfold(boxed, k);
                    lemma_uses_unfold(pre, k);
                    if k.len() > 1 && k[0] == pre.key {
                        if k.drop_first() == tokens@.skip(offset as int + 1) {
                            lemma_cons_eq(k, suffix);
                        }
                    }
                }
            }
        }
        *node = Some(boxed);
        r
    }

    /// Exact-match lookup: returns a shared handle to the value stored for
    /// `tokens`, or nothing when `tokens` has no value.
    ///
    /// On a hit, the usage counter of the matched cell, and of no other cell,
    /// grows by one; on a miss the trie is left untouched.
    pub fn search(&mut self, tokens: &[u8]) -> (r: Option<TrieValueType>)
        requires
            old(self).wf(),
            old(self)@.contains_key(tokens@) ==> old(self).uses_of(tokens@) < usize::MAX,
        ensures
            final(self).wf(),
            final(self)@ == old(self)@,
            final(self).spec_len() == old(self).spec_len(),
            (r is Some) == old(self)@.contains_key(tokens@),
            r matches Some(v) ==> v@ == old(self)@[tokens@],
            old(self)@.contains_key(tokens@) ==> final(self).uses_of(tokens@) == old(self).uses_of(
                tokens@,
            ) + 1,
            !old(self)@.contains_key(tokens@) ==> *final(self) == *old(self),
            forall|k: Seq<u8>| k != tokens@ ==> final(self).uses_of(k) == old(self).uses_of(k),
    {
        proof {
            assert(tokens@.skip(0) =~= tokens@);
        }
        let r = Self::search_at(&mut self.root, tokens, 0);
        proof {
            lemma_skeleton_props(old(self).root, self.root);
            assert forall|k: Seq<u8>| #![trigger spec_search(self.root, k)]
                spec_search(self.root, k) == spec_search(old(self).root, k) by {
                lemma_skeleton_search(old(self).root, self.root, k);
            }
            assert(self.as_map() =~= old(self).as_map());
        }
        r
    }

    /// Walks the sub-trie for `tokens[offset..]` greedily: among the strict
    /// or full prefixes of the remaining input that end on a value-bearing
    /// cell, picks the longest, bumps that cell's usage counter, and returns
    /// a shared handle to its value with the total number of bytes consumed.
    fn longest_at(node: &mut Option<TrieNodeType>, tokens: &[u8], offset: usize) -> (r: Option<
        (TrieValueType, usize),
    >)
        requires
            offset <= tokens@.len(),
            forall|j: int|
                offset < j <= tokens@.len() && spec_search(
                    *old(node),
                    tokens@.subrange(offset as int, j),
                ) is Some ==> spec_uses(*old(node), tokens@.subrange(offset as int, j))
                    < usize::MAX,
        ensures
            same_skeleton(*old(node), *final(node)),
            r is None ==> *final(node) == *old(node) && (forall|j: int|
                offset < j <= tokens@.len() ==> spec_search(
                    *old(node),
                    tokens@.subrange(offset as int, j),
                ) is None),
            r matches Some(p) ==> ({
                &&& offset < p.1 <= tokens@.len()
                &&& spec_search(*old(node), tokens@.subrange(offset as int, p.1 as int)) == Some(
                    p.0@,
                )
                &&& (forall|j: int|
                    p.1 < j <= tokens@.len() ==> spec_search(
                        *old(node),
                        tokens@.subrange(offset as int, j),
                    ) is None)
                &&& spec_uses(*final(node), tokens@.subrange(offset as int, p.1 as int))
                    == spec_uses(*old(node), tokens@.subrange(offset as int, p.1 as int)) + 1
                &&& (forall|k: Seq<u8>|
                    k != tokens@.subrange(offset as int, p.1 as int) ==> spec_uses(
                        *final(node),
                        k,
                    ) == spec_uses(*old(node), k))
            }),
        decreases tokens@.len() - offset, *old(node),
    {
        let ghost orig = *old(node);
        if offset >= tokens.len() {
            proof {
                lemma_skeleton_refl(orig);
            }
            return None;
        }
        let mut boxed = match node.take() {
            None => {
                proof {
                    assert forall|j: int|
                        offset < j <= tokens@.len() implies spec_search(
                        orig,
                        tokens@.subrange(offset as int, j),
                    ) is None by {
                        lemma_absent(tokens@.subrange(offset as int, j));
                    }
                }
                return None;
            },
            Some(b) => b,
        };
        let ghost pre = boxed;
        let key = tokens[offset];
        let r: Option<(TrieValueType, usize)>;
        if key < boxed.key {
            proof {
                assert forall|j: int|
                    offset < j <= tokens@.len() implies spec_search(
                    pre.left,
                    tokens@.subrange(offset as int, j),
                ) == spec_search(orig, tokens@.subrange(offset as int, j)) && spec_uses(
                    pre.left,
                    tokens@.subrange(offset as int, j),
                ) == spec_uses(orig, tokens@.subrange(offset as int, j)) by {
                    lemma_search_unfold(pre, tokens@.subrange(offset as int, j));
                    lemma_uses_unfold(pre, tokens@.subrange(offset as int, j));
                }
            }
            r = Self::longest_at(&mut boxed.left, tokens, offset);
            proof {
                lemma_skeleton_refl(pre.middle);
                lemma_skeleton_refl(pre.right);
                assert(same_skeleton(Some(pre), Some(boxed)));
                if r is None {
                    assert(boxed == pre);
                }
                if r is Some {
                    let p = r.unwrap();
                    lemma_uses_unfold(boxed, tokens@.subrange(offset as int, p.1 as int));
                    lemma_uses_unfold(pre, tokens@.subrange(offset as int, p.1 as int));
                    assert forall|k: Seq<u8>|
                        k != tokens@.subrange(offset as int, p.1 as int) implies spec_uses(
                        Some(boxed),
                        k,
                    ) == spec_uses(orig, k) by {
                        lemma_uses_unfold(boxed, k);
                        lemma_uses_unfold(pre, k);
                    }
                }
            }
        } else if key > boxed.key {
            proof {
                assert forall|j: int|
                    offset < j <= tokens@.len() implies spec_search(
                    pre.right,
                    tokens@.subrange(offset as int, j),
                ) == spec_search(orig, tokens@.subrange(offset as int, j)) && spec_uses(
                    pre.right,
                    tokens@.subrange(offset as int, j),
                ) == spec_uses(orig, tokens@.subrange(offset as int, j)) by {
                    lemma_search_unfold(pre, tokens@.subrange(offset as int, j));
                    lemma_uses_unfold(pre, tokens@.subrange(offset as int, j));
                }
            }
            r = Self::longest_at(&mut boxed.right, tokens, offset);
            proof {
                lemma_skeleton_refl(pre.left);
                lemma_skeleton_refl(pre.middle);
                assert(same_skeleton(Some(pre), Some(boxed)));
                if r is None {
                    assert(boxed == pre);
                }
                if r is Some {
                    let p = r.unwrap();
                    lemma_uses_unfold(boxed, tokens@.subrange(offset as int, p.1 as int));
                    lemma_uses_unfold(pre, tokens@.subrange(offset as int, p.1 as int));
                    assert forall|k: Seq<u8>|
                        k != tokens@.subrange(offset as int, p.1 as int) implies spec_uses(
                        Some(boxed),
                        k,
                    ) == spec_uses(orig, k) by {
                        lemma_uses_unfold(boxed, k);
                        lemma_uses_unfold(pre, k);
                    }
                }
            }
        } else {
            let ghost sub1 = tokens@.subrange(offset as int, offset as int + 1);
            proof {
                assert(sub1.len() == 1 && sub1[0] == tokens@[offset as int]);
                lemma_search_unfold(pre, sub1);
                lemma_uses_unfold(pre, sub1);
                assert forall|j: int|
                    #![trigger tokens@.subrange(offset as int + 1, j)]
                    offset + 1 < j <= tokens@.len() implies tokens@.subrange(
                    offset as int,
                    j,
                ).drop_first() == tokens@.subrange(offset as int + 1, j) && spec_search(
                    pre.middle,
                    tokens@.subrange(offset as int + 1, j),
                ) == spec_search(orig, tokens@.subrange(offset as int, j)) && spec_uses(
                    pre.middle,
                    tokens@.subrange(offset as int + 1, j),
                ) == spec_uses(orig, tokens@.subrange(offset as int, j)) by {
                    assert(tokens@.subrange(offset as int, j).drop_first() =~= tokens@.subrange(
                        offset as int + 1,
                        j,
                    ));
                    lemma_search_unfold(pre, tokens@.subrange(offset as int, j));
                    lemma_uses_unfold(pre, tokens@.subrange(offset as int, j));
                }
            }
            let deeper = Self::longest_at(&mut boxed.middle, tokens, offset + 1);
            match deeper {
                Some(p) => {
                    r = Some(p);
                    proof {
                        let sub_p = tokens@.subrange(offset as int, p.1 as int);
                        lemma_skeleton_refl(pre.left);
                        lemma_skeleton_refl(pre.right);
                        assert(same_skeleton(Some(pre), Some(boxed)));
                        assert(sub_p.drop_first() =~= tokens@.subrange(offset as int + 1, p.1 as int));
                        lemma_search_unfold(pre, sub_p);
                        lemma_uses_unfold(pre, sub_p);
                        lemma_uses_unfold(boxed, sub_p);
                        assert(spec_search(orig, sub_p) == Some(p.0@));
                        assert forall|j: int|
                            p.1 < j <= tokens@.len() implies spec_search(
                            orig,
                            tokens@.subrange(offset as int, j),
                        ) is None by {
                            assert(tokens@.subrange(offset as int, j).drop_first()
                                =~= tokens@.subrange(offset as int + 1, j));
                            lemma_search_unfold(pre, tokens@.subrange(offset as int, j));
                        }
                        assert forall|k: Seq<u8>|
                            k != sub_p implies spec_uses(Some(boxed), k) == spec_uses(
                            orig,
                            k,
                        ) by {
                            lemma_uses_unfold(boxed, k);
                            lemma_uses_unfold(pre, k);
                            if k.len() > 1 && k[0] == pre.key {
                                if k.drop_first() == tokens@.subrange(offset as int + 1, p.1 as int) {
                                    lemma_cons_eq(k, sub_p);
                                }
                            }
                        }
                    }
                },
                None => {
                    if boxed.value.is_some() {
                        boxed.uses = boxed.uses + 1;
                        let v = clone_value(boxed.value.as_ref().unwrap());
                        r = Some((v, offset + 1));
                        proof {
                            lemma_skeleton_refl(pre.left);
                            lemma_skeleton_refl(pre.middle);
                            lemma_skeleton_refl(pre.right);
                            assert(same_skeleton(Some(pre), Some(boxed)));
                            lemma_uses_unfold(boxed, sub1);
                            assert(spec_search(orig, sub1) == Some(pre.value.unwrap()@));
                            assert forall|j: int|
                                offset + 1 < j <= tokens@.len() implies spec_search(
                                orig,
                                tokens@.subrange(offset as int, j),
                            ) is None by {
                                assert(tokens@.subrange(offset as int, j).drop_first()
                                    =~= tokens@.subrange(offset as int + 1, j));
                                lemma_search_unfold(pre, tokens@.subrange(offset as int, j));
                            }
                            assert forall|k: Seq<u8>|
                                k != sub1 implies spec_uses(Some(boxed), k) == spec_uses(
                                orig,
                                k,
                            ) by {
                                lemma_uses_unfold(boxed, k);
                                lemma_uses_unfold(pre, k);
                                if k.len() == 1 && k[0] == pre.key {
                                    assert(k =~= sub1);
                                }
                            }
                        }
                    } else {
                        r = None;
                        proof {
                            assert(boxed == pre);
                            lemma_skeleton_refl(orig);
                            assert forall|j: int|
                                offset < j <= tokens@.len() implies spec_search(
                                orig,
                                tokens@.subrange(offset as int, j),
                            ) is None by {
                                lemma_search_unfold(pre, tokens@.subrange(offset as int, j));
                                if j > offset + 1 {
                                    assert(tokens@.subrange(offset as int, j).drop_first()
                                        =~= tokens@.subrange(offset as int + 1, j));
                                }
                            }
                        }
                    }
                },
            }
        }
        *node = Some(boxed);
        r
    }

    /// Greedy longest-prefix lookup: among all prefixes of `tokens` that
    /// have a value, returns a shared handle to the value of the longest one
    /// together with its length in bytes, or nothing when no prefix has a
    /// value.
    ///
    /// On a hit, the usage counter of the one cell that produced the
    /// returned match, and of no other cell, grows by one; on a miss the
    /// trie is left untouched.
    pub fn longest_match(&mut self, tokens: &[u8]) -> (r: Option<(TrieValueType, usize)>)
        requires
            old(self).wf(),
            forall|j: int|
                0 < j <= tokens@.len() && old(self)@.contains_key(tokens@.take(j)) ==> old(
                    self,
                ).uses_of(tokens@.take(j)) < usize::MAX,
        ensures
            final(self).wf(),
            final(self)@ == old(self)@,
            final(self).spec_len() == old(self).spec_len(),
            r is None ==> *final(self) == *old(self) && (forall|j: int|
                0 < j <= tokens@.len() ==> !old(self)@.contains_key(tokens@.take(j))),
            r matches Some(p) ==> ({
                &&& 0 < p.1 <= tokens@.len()
                &&& old(self)@.contains_key(tokens@.take(p.1 as int))
                &&& p.0@ == old(self)@[tokens@.take(p.1 as int)]
                &&& (forall|j: int|
                    p.1 < j <= tokens@.len() ==> !old(self)@.contains_key(tokens@.take(j)))
                &&& final(self).uses_of(tokens@.take(p.1 as int)) == old(self).uses_of(
                    tokens@.take(p.1 as int),
                ) + 1
                &&& (forall|k: Seq<u8>|
                    k != tokens@.take(p.1 as int) ==> final(self).uses_of(k) == old(self).uses_of(
                        k,
                    ))
            }),
    {
        proof {
            assert forall|j: int| 0 <= j <= tokens@.len() implies tokens@.take(j)
                == tokens@.subrange(0, j) by {}
        }
        let r = Self::longest_at(&mut self.root, tokens, 0);
        proof {
            lemma_skeleton_props(old(self).root, self.root);
            assert forall|k: Seq<u8>| #![trigger spec_search(self.root, k)]
                spec_search(self.root, k) == spec_search(old(self).root, k) by {
                lemma_skeleton_search(old(self).root, self.root, k);
            }
            assert(self.as_map() =~= old(self).as_map());
        }
        r
    }

    /// Associates `value` with the byte sequence `tokens`.
    ///
    /// Rejects an empty `tokens` with `InvalidArgument` and a key that
    /// already holds a value with `DuplicateKey`; in both cases the trie is
    /// left untouched. On success the key count grows by exactly one, the new
    /// key maps to `value`, every other key keeps its value, and no usage
    /// counter moves.
    pub fn insert(&mut self, tokens: &[u8], value: &TrieValueType) -> (r: Result<(), TrieError>)
        requires
            old(self).wf(),
            old(self).spec_len() < usize::MAX,
        ensures
            final(self).wf(),
            tokens@.len() == 0 <==> r == Err::<(), TrieError>(TrieError::InvalidArgument),
            (r matches Err(e) && e == TrieError::DuplicateKey) <==> (tokens@.len() > 0 && old(
                self,
            )@.contains_key(tokens@)),
            r is Ok <==> (tokens@.len() > 0 && !old(self)@.contains_key(tokens@)),
            r is Err ==> *final(self) == *old(self),
            r is Ok ==> final(self)@ == old(self)@.insert(tokens@, value@),
            r is Ok ==> final(self).spec_len() == old(self).spec_len() + 1,
            forall|k: Seq<u8>| final(self).uses_of(k) == old(self).uses_of(k),
    {
        if tokens.len() == 0 {
            return Err(TrieError::InvalidArgument);
        }
        proof {
            assert(tokens@.skip(0) =~= tokens@);
        }
        let r = Self::recursive_insert(&mut self.root, tokens, 0, value);
        match r {
            Ok(u) => {
                self.size = self.size + 1;
                proof {
                    assert(final(self)@ =~= old(self)@.insert(tokens@, value@));
                }
                Ok(u)
            },
            Err(e) => Err(e),
        }
    }

    /// Reads the usage counter of the cell on which an exact walk for
    /// `tokens[offset..]` ends, or 0 when no such cell exists.
    fn uses_at(node: &Option<TrieNodeType>, tokens: &[u8], offset: usize) -> (n: usize)
        requires
            offset <= tokens@.len(),
        ensures
            n as nat == spec_uses(*node, tokens@.skip(offset as int)),
        decreases tokens@.len() - offset, *node,
    {
        let ghost suffix = tokens@.skip(offset as int);
        if offset >= tokens.len() {
            proof {
                if *node is Some {
                    lemma_uses_unfold(node.unwrap(), suffix);
                } else {
                    lemma_absent(suffix);
                }
            }
            return 0;
        }
        match node {
            None => 0,
            Some(b) => {
                let key = tokens[offset];
                if key < b.key {
                    Self::uses_at(&b.left, tokens, offset)
                } else if key > b.key {
                    Self::uses_at(&b.right, tokens, offset)
                } else if offset + 1 == tokens.len() {
                    b.uses
                } else {
                    proof {
                        assert(suffix.drop_first() =~= tokens@.skip(offset as int + 1));
                    }
                    Self::uses_at(&b.middle, tokens, offset + 1)
                }
            },
        }
    }

    /// Reads the usage counter that `search` and `longest_match` maintain
    /// for the key `tokens`: how many lookups have resolved to its value.
    /// Reads 0 for a key that was never inserted.
    pub fn uses(&self, tokens: &[u8]) -> (n: usize)
        ensures
            n == self.uses_of(tokens@),
    {
        proof {
            assert(tokens@.skip(0) =~= tokens@);
        }
        Self::uses_at(&self.root, tokens, 0)
    }
}

impl View for Trie {
    type V = Map<Seq<u8>, Seq<u8>>;

    open spec fn view(&self) -> Map<Seq<u8>, Seq<u8>> {
        self.as_map()
    }
}

impl Default for Trie {
    /// Same as `Trie::new`: an empty trie.
    fn default() -> (t: Self)
        ensures
            t.wf(),
            t@ == Map::<Seq<u8>, Seq<u8>>::empty(),
            t.spec_len() == 0,
            forall|k: Seq<u8>| t.uses_of(k) == 0,
    {
        Self::new()
    }
}

/// A trie whose key count reads 0 holds no key at all: every exact search
/// comes back absent.
pub proof fn lemma_len_zero_no_keys(t: Trie, k: Seq<u8>)
    requires
        t.wf(),
        t.spec_len() == 0,
    ensures
        !t@.contains_key(k),
{
    lemma_no_values_no_keys(t.root, k);
}

/// Round trip: an insert that succeeded for key `k` and value `v` leaves the
/// trie mapping `k` to exactly `v`, which is what an exact search returns.
pub proof fn lemma_insert_round_trip(pre: Trie, post: Trie, k: Seq<u8>, v: Seq<u8>)
    requires
        post@ == pre@.insert(k, v),
    ensures
        post@.contains_key(k),
        post@[k] == v,
{
}

/// Non-membership: on an empty trie an exact search for any input comes
/// back absent.
pub proof fn lemma_empty_search_absent(t: Trie, k: Seq<u8>)
    requires
        t@ == Map::<Seq<u8>, Seq<u8>>::empty(),
    ensures
        !t@.contains_key(k),
{
}

/// Negative lookup: when only `k` was ever inserted, an exact search for any
/// key that is not byte-identical to `k` comes back absent.
pub proof fn lemma_negative_lookup(pre: Trie, post: Trie, k: Seq<u8>, v: Seq<u8>, other: Seq<u8>)
    requires
        pre@ == Map::<Seq<u8>, Seq<u8>>::empty(),
        post@ == pre@.insert(k, v),
        other != k,
    ensures
        !post@.contains_key(other),
{
}

} // verus!
