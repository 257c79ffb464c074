use vstd::prelude::*;
use std::collections::BTreeMap;
use vstd::std_specs::iter::IteratorSpec;
use vstd::string::StrSliceExecFns;
use crate::text::{chars_of, copy_range};

verus! {

broadcast use {vstd::laws_cmp::group_laws_cmp, vstd::std_specs::btree::group_btree_axioms};

/// A node that holds the single rule left below it: the rest of its key and
/// its replacement.
#[derive(Debug, Clone)]
pub struct Leaf {
    key: Vec<char>,
    value: String,
}

/// A branching node: the replacement of a key that ends here, if any, and
/// one child for each next character (keyed by its code point).
#[derive(Debug, Clone)]
pub struct Node {
    value: Option<String>,
    tails: BTreeMap<u32, DictNode>,
}

/// A prefix tree from keys (sequences of characters) to replacements.
#[derive(Debug)]
pub enum DictNode {
    Leaf(Leaf),
    Node(Node),
}

impl DictNode {
    /// The replacement stored under `k` in this tree, if any.
    pub closed spec fn lookup(self, k: Seq<char>) -> Option<Seq<char>>
        decreases k.len(),
    {
        match self {
            DictNode::Leaf(l) => if k == l.key@ {
                Some(l.value@)
            } else {
                None
            },
            DictNode::Node(n) => if k.len() == 0 {
                match n.value {
                    Some(v) => Some(v@),
                    None => None,
                }
            } else if n.tails@.contains_key(k[0] as u32) {
                n.tails@[k[0] as u32].lookup(k.drop_first())
            } else {
                None
            },
        }
    }

    /// Whether the tree is in branching form with no replacement and no
    /// children: the shape of a tree that holds no rules.
    pub closed spec fn is_empty_branch(self) -> bool {
        match self {
            DictNode::Node(n) => n.value is None && n.tails@ == Map::<u32, DictNode>::empty(),
            DictNode::Leaf(_) => false,
        }
    }

    /// An empty tree.
    pub(crate) fn node() -> (r: Self)
        ensures
            r is Node,
            r.is_empty_branch(),
            r@ == Map::<Seq<char>, Seq<char>>::empty(),
    {
        let r = DictNode::Node(Node { value: None, tails: BTreeMap::new() });
        assert(r@ =~= Map::<Seq<char>, Seq<char>>::empty());
        r
    }

    /// A tree that holds the single rule from `key[start..]` to `value`.
    fn leaf(key: &Vec<char>, start: usize, value: String) -> (r: Self)
        requires
            start <= key.len(),
        ensures
            r is Leaf,
            r@ == Map::<Seq<char>, Seq<char>>::empty().insert(key@.skip(start as int), value@),
    {
        let suffix = copy_range(key, start, key.len());
        assert(suffix@ =~= key@.skip(start as int));
        let r = DictNode::Leaf(Leaf { key: suffix, value });
        assert(r@ =~= Map::<Seq<char>, Seq<char>>::empty().insert(key@.skip(start as int), value@));
        r
    }

    /// The rule of a tree in leaf form.
    fn into_leaf(self) -> (r: Leaf)
        requires
            self is Leaf,
        ensures
            r == self->Leaf_0,
    {
        match self {
            DictNode::Leaf(leaf) => leaf,
            DictNode::Node(_) => unreached(),
        }
    }

    /// The branching node of a tree in branching form, to update in place.
    fn unwrap_node_mut(&mut self) -> (r: &mut Node)
        requires
            *old(self) is Node,
        ensures
            *r == (*old(self))->Node_0,
            *final(self) == DictNode::Node(*final(r)),
    {
        match self {
            DictNode::Node(node) => node,
            DictNode::Leaf(_) => unreached(),
        }
    }

    /// Stores the rule from `key[start..]` to `value`, replacing the
    /// replacement that key had.
    pub(crate) fn add(&mut self, key: &Vec<char>, start: usize, value: String)
        requires
            start <= key.len(),
        ensures
            *final(self) is Node,
            final(self)@ == old(self)@.insert(key@.skip(start as int), value@),
        decreases key.len() - start,
    {
        let ghost k = key@.skip(start as int);
        if let DictNode::Leaf(_) = self {
            let mut old_leaf = DictNode::Node(Node { value: None, tails: BTreeMap::new() });
            std::mem::swap(self, &mut old_leaf);
            let Leaf { key: leaf_key, value: leaf_value } = old_leaf.into_leaf();
            let ghost lk = leaf_key@;
            let ghost lv = leaf_value@;
            let node = self.unwrap_node_mut();
            if leaf_key.len() > 0 {
                let hash_key = leaf_key[0] as u32;
                let child = DictNode::leaf(&leaf_key, 1, leaf_value);
                proof {
                    assert(lk.skip(1) =~= lk.drop_first());
                }
                node.tails.insert(hash_key, child);
            } else {
                node.value = Some(leaf_value);
            }
            proof {
                assert forall|q: Seq<char>| #[trigger] self.lookup(q) == (if q == lk {
                    Some(lv)
                } else {
                    None::<Seq<char>>
                }) by {
                    if q.len() == 0 && lk.len() == 0 {
                        assert(q =~= lk);
                    }
                    if q.len() > 0 && lk.len() > 0 {
                        lemma_code_injective(q[0], lk[0]);
                        if q[0] == lk[0] {
                            lemma_eq_by_tail(q, lk);
                            let c = self->Node_0.tails@[lk[0] as u32];
                            lemma_lookup_view(c, q.drop_first());
                        }
                    }
                }
                assert(self@ =~= old(self)@);
            }
        }
        let ghost before = *self;
        let ghost mut new_child = *self;
        let node = self.unwrap_node_mut();
        if start < key.len() {
            let hash_key = key[start] as u32;
            match node.tails.remove(&hash_key) {
                Some(mut child) => {
                    child.add(key, start + 1, value);
                    proof {
                        new_child = child;
                    }
                    node.tails.insert(hash_key, child);
                },
                None => {
                    let child = DictNode::leaf(key, start + 1, value);
                    proof {
                        new_child = child;
                    }
                    node.tails.insert(hash_key, child);
                },
            }
        } else {
            node.value = Some(value);
        }
        proof {
            if start < key.len() {
                assert(key@.skip(start as int + 1) =~= k.drop_first());
            }
            assert forall|q: Seq<char>| #[trigger] self.lookup(q) == (if q == k {
                Some(value@)
            } else {
                before.lookup(q)
            }) by {
                if q.len() == 0 && k.len() == 0 {
                    assert(q =~= k);
                }
                if q.len() > 0 && k.len() > 0 {
                    lemma_code_injective(q[0], k[0]);
                    if q[0] == k[0] {
                        lemma_eq_by_tail(q, k);
                        lemma_lookup_view(new_child, q.drop_first());
                        let tails = before->Node_0.tails@;
                        if tails.contains_key(k[0] as u32) {
                            lemma_lookup_view(tails[k[0] as u32], q.drop_first());
                        }
                    }
                }
            }
            assert(self@ =~= old(self)@.insert(k, value@));
        }
    }

    /// A copy of the tree, holding the same rules.
    pub fn duplicate(&self) -> (r: Self)
        ensures
            r@ == self@,
        decreases self,
    {
        match self {
            DictNode::Leaf(leaf) => {
                let r = DictNode::Leaf(
                    Leaf { key: copy_range(&leaf.key, 0, leaf.key.len()), value: leaf.value.clone() },
                );
                proof {
                    assert(leaf.key@.subrange(0, leaf.key@.len() as int) =~= leaf.key@);
                    assert(r@ =~= self@);
                }
                r
            },
            DictNode::Node(node) => {
                let value = match &node.value {
                    Some(v) => Some(v.clone()),
                    None => None,
                };
                let ghost m = node.tails@;
                let mut tails: BTreeMap<u32, DictNode> = BTreeMap::new();
                proof {
                    assert(m.dom().finite());
                }
                for entry in iter: node.tails.iter()
                    invariant
                        m == node.tails@,
                        m.dom().finite(),
                        *self == DictNode::Node(*node),
                        forall|i: int|
                            0 <= i < iter.seq().len() ==> m.contains_key(*(#[trigger] iter.seq()[i]).0)
                                && m[*iter.seq()[i].0] == *iter.seq()[i].1,
                        forall|k: u32| #[trigger] tails@.contains_key(k) ==> m.contains_key(k) && tails@[k]@ == m[k]@,
                        forall|k: u32| #[trigger] m.contains_key(k) ==> tails@.contains_key(k) || exists|i: int|
                            iter.index() <= i < iter.seq().len() && *(#[trigger] iter.seq()[i]).0 == k,
                {
                    let (k, child) = entry;
                    proof {
                        assert(iter.seq()[iter.index() as int] == entry);
                        assert(m.contains_key(*k) && m[*k] == *child);
                        assert(decreases_to!(node.tails => node.tails@));
                        assert(decreases_to!(m => m[*k]));
                        assert(*self == DictNode::Node(*node));
                        assert(decreases_to!(*self => self->Node_0));
                        assert(decreases_to!(*node => node.tails));
                        assert(decreases_to!(*self => *child));
                    }
                    let copy = child.duplicate();
                    tails.insert(*k, copy);
                }
                let r = DictNode::Node(Node { value, tails });
                proof {
                    assert forall|q: Seq<char>| #[trigger] r.lookup(q) == self.lookup(q) by {
                        if q.len() > 0 && m.contains_key(q[0] as u32) {
                            lemma_lookup_view(tails@[q[0] as u32], q.drop_first());
                            lemma_lookup_view(m[q[0] as u32], q.drop_first());
                        }
                    }
                    assert(r@ =~= self@);
                }
                r
            },
        }
    }

    /// The longest key of the tree that is a prefix of `q[start..]`: the
    /// number of characters it covers, and its replacement.
    pub(crate) fn match_at<'a>(&'a self, q: &Vec<char>, start: usize) -> (r: Option<(usize, &'a String)>)
        requires
            start <= q.len(),
        ensures
            is_longest_match(self@, q@.skip(start as int), r),
        decreases q.len() - start,
    {
        let ghost t = q@.skip(start as int);
        match self {
            DictNode::Leaf(leaf) => {
                let found = starts_with_at(q, start, &leaf.key);
                proof {
                    assert forall|j: nat| #[trigger] is_key_prefix(self@, t, j) implies found && j == leaf.key@.len() by {
                        lemma_lookup_view(*self, t.take(j as int));
                    }
                    if found {
                        lemma_lookup_view(*self, t.take(leaf.key@.len() as int));
                    }
                }
                if found {
                    Some((leaf.key.len(), &leaf.value))
                } else {
                    None
                }
            },
            DictNode::Node(node) => {
                if start < q.len() {
                    let hash_key = q[start] as u32;
                    if let Some(child) = node.tails.get(&hash_key) {
                        if let Some((n, v)) = child.match_at(q, start + 1) {
                            proof {
                                lemma_node_prefixes(*self, t);
                                assert(q@.skip(start as int + 1) =~= t.drop_first());
                                assert(t[0] == q@[start as int]);
                                assert(is_key_prefix(self@, t, (n + 1) as nat));
                                assert forall|j: nat| #[trigger] is_key_prefix(self@, t, j) implies j <= n + 1 by {
                                    if j >= 1 {
                                        assert(is_key_prefix(child@, t.drop_first(), (j - 1) as nat));
                                    }
                                }
                            }
                            return Some((n + 1, v));
                        }
                    }
                }
                proof {
                    if start < q.len() {
                        assert(q@.skip(start as int + 1) =~= t.drop_first());
                    }
                    lemma_node_prefixes(*self, t);
                    assert(t.take(0) =~= Seq::<char>::empty());
                    lemma_lookup_view(*self, t.take(0));
                }
                match &node.value {
                    Some(v) => Some((0, v)),
                    None => None,
                }
            },
        }
    }

    /// Finds the longest key of the tree that is a prefix of `query`, and
    /// returns that prefix of `query` with the key's replacement.
    pub fn prefix_match<'a, 'b>(&'a self, query: &'b str) -> (r: Option<(&'b str, &'a str)>)
        ensures
            match r {
                None => forall|j: nat| !#[trigger] is_key_prefix(self@, query@, j),
                Some((p, v)) => {
                    &&& p@ == query@.take(p@.len() as int)
                    &&& longest_key(self@, query@) == Some(p@.len())
                    &&& v@ == self@[p@]
                },
            },
    {
        let q = chars_of(query);
        match self.match_at(&q, 0) {
            Some((n, v)) => {
                proof {
                    assert(q@.skip(0) =~= query@);
                    lemma_longest_key(self@, query@, n as nat);
                }
                Some((query.substring_char(0, n), v.as_str()))
            },
            None => {
                assert(q@.skip(0) =~= query@);
                None
            },
        }
    }
}

/// The length of the longest key of `m` that is a prefix of `t` and covers
/// at most `n` characters.
pub open spec fn longest_key_upto(m: Map<Seq<char>, Seq<char>>, t: Seq<char>, n: nat) -> Option<nat>
    decreases n,
{
    if is_key_prefix(m, t, n) {
        Some(n)
    } else if n == 0 {
        None
    } else {
        longest_key_upto(m, t, (n - 1) as nat)
    }
}

/// The length of the longest key of `m` that is a prefix of `t`.
pub open spec fn longest_key(m: Map<Seq<char>, Seq<char>>, t: Seq<char>) -> Option<nat> {
    longest_key_upto(m, t, t.len())
}

/// A search bounded by `n` finds a key prefix no longer than `n`, and the
/// longest such one.
pub proof fn lemma_longest_key_upto(m: Map<Seq<char>, Seq<char>>, t: Seq<char>, n: nat)
    ensures
        match longest_key_upto(m, t, n) {
            None => forall|j: nat| j <= n ==> !#[trigger] is_key_prefix(m, t, j),
            Some(k) => k <= n && is_key_prefix(m, t, k) && forall|j: nat|
                k < j <= n ==> !#[trigger] is_key_prefix(m, t, j),
        },
    decreases n,
{
    if n > 0 {
        lemma_longest_key_upto(m, t, (n - 1) as nat);
    }
}

/// `longest_key` is the length of the longest key of `m` that is a prefix of
/// `t`, when there is one.
pub proof fn lemma_longest_key(m: Map<Seq<char>, Seq<char>>, t: Seq<char>, n: nat)
    requires
        is_key_prefix(m, t, n),
        forall|j: nat| #[trigger] is_key_prefix(m, t, j) ==> j <= n,
    ensures
        longest_key(m, t) == Some(n),
{
    lemma_longest_key_upto(m, t, t.len());
}

/// `longest_key` is `None` exactly when no key of `m` is a prefix of `t`.
pub proof fn lemma_no_longest_key(m: Map<Seq<char>, Seq<char>>, t: Seq<char>)
    ensures
        (longest_key(m, t) is None) == forall|j: nat| !#[trigger] is_key_prefix(m, t, j),
{
    lemma_longest_key_upto(m, t, t.len());
    if longest_key(m, t) is Some {
        assert(is_key_prefix(m, t, longest_key(m, t)->0));
    }
}

/// Whether the `n` first characters of `t` form a key of `m`.
pub open spec fn is_key_prefix(m: Map<Seq<char>, Seq<char>>, t: Seq<char>, n: nat) -> bool {
    n <= t.len() && m.contains_key(t.take(n as int))
}

/// Whether `r` is the longest match of `m` at the start of `t`: `None` when
/// no key of `m` is a prefix of `t`, else the length of the longest such key
/// and its replacement.
pub open spec fn is_longest_match(
    m: Map<Seq<char>, Seq<char>>,
    t: Seq<char>,
    r: Option<(usize, &String)>,
) -> bool {
    match r {
        None => forall|j: nat| !#[trigger] is_key_prefix(m, t, j),
        Some((n, v)) => {
            &&& is_key_prefix(m, t, n as nat)
            &&& v@ == m[t.take(n as int)]
            &&& forall|j: nat| #[trigger] is_key_prefix(m, t, j) ==> j <= n
        },
    }
}

/// Whether `key` stands in `q` from `start` on.
fn starts_with_at(q: &Vec<char>, start: usize, key: &Vec<char>) -> (r: bool)
    requires
        start <= q.len(),
    ensures
        r == (key@.len() <= q@.len() - start && q@.skip(start as int).take(key@.len() as int)
            == key@),
{
    if key.len() > q.len() - start {
        return false;
    }
    let mut i: usize = 0;
    while i < key.len()
        invariant
            start <= q.len(),
            key@.len() <= q@.len() - start,
            i <= key.len(),
            forall|j: int| 0 <= j < i ==> q@[start + j] == key@[j],
        decreases key.len() - i,
    {
        if q[start + i] != key[i] {
            proof {
                assert(q@.skip(start as int).take(key@.len() as int)[i as int] != key@[i as int]);
            }
            return false;
        }
        i = i + 1;
    }
    assert(q@.skip(start as int).take(key@.len() as int) =~= key@);
    true
}

/// The keys of a branching node that are prefixes of a nonempty `t`, beyond
/// the empty one, are those of the child for `t[0]` that are prefixes of the
/// rest of `t`.
proof fn lemma_node_prefixes(n: DictNode, t: Seq<char>)
    requires
        n is Node,
    ensures
        is_key_prefix(n@, t, 0) == n->Node_0.value is Some,
        t.len() > 0 ==> forall|j: nat|
            #![trigger is_key_prefix(n@, t, j)]
            j >= 1 ==> is_key_prefix(n@, t, j) == (n->Node_0.tails@.contains_key(t[0] as u32)
                && is_key_prefix(n->Node_0.tails@[t[0] as u32]@, t.drop_first(), (j - 1) as nat)),
        t.len() > 0 && n->Node_0.tails@.contains_key(t[0] as u32) ==> forall|j: nat|
            #![trigger is_key_prefix(n@, t, j)]
            j >= 1 && is_key_prefix(n@, t, j) ==> n@[t.take(j as int)]
                == n->Node_0.tails@[t[0] as u32]@[t.drop_first().take(j - 1)],
{
    assert(t.take(0) =~= Seq::<char>::empty());
    lemma_lookup_view(n, t.take(0));
    if t.len() > 0 {
        assert forall|j: nat| #![trigger is_key_prefix(n@, t, j)] j >= 1 && j <= t.len() implies
            n.lookup(t.take(j as int)) == (if n->Node_0.tails@.contains_key(t[0] as u32) {
                n->Node_0.tails@[t[0] as u32].lookup(t.drop_first().take(j - 1))
            } else {
                None
            }) by {
            assert(t.take(j as int).drop_first() =~= t.drop_first().take(j - 1));
        }
        assert forall|j: nat| #![trigger is_key_prefix(n@, t, j)] j >= 1 implies
            is_key_prefix(n@, t, j) == (n->Node_0.tails@.contains_key(t[0] as u32)
                && is_key_prefix(n->Node_0.tails@[t[0] as u32]@, t.drop_first(), (j - 1) as nat)) by {
            if j <= t.len() {
                lemma_lookup_view(n, t.take(j as int));
                if n->Node_0.tails@.contains_key(t[0] as u32) {
                    lemma_lookup_view(n->Node_0.tails@[t[0] as u32], t.drop_first().take(j - 1));
                }
            }
        }
        if n->Node_0.tails@.contains_key(t[0] as u32) {
            assert forall|j: nat| #![trigger is_key_prefix(n@, t, j)] j >= 1 && is_key_prefix(n@, t, j)
                implies n@[t.take(j as int)] == n->Node_0.tails@[t[0] as u32]@[t.drop_first().take(j - 1)] by {
                lemma_lookup_view(n, t.take(j as int));
                lemma_lookup_view(n->Node_0.tails@[t[0] as u32], t.drop_first().take(j - 1));
            }
        }
    }
}

/// The view of a tree agrees with its lookup.
proof fn lemma_lookup_view(n: DictNode, k: Seq<char>)
    ensures
        n.lookup(k) == if n@.contains_key(k) {
            Some(n@[k])
        } else {
            None
        },
{
}

/// Distinct characters have distinct code points.
proof fn lemma_code_injective(a: char, b: char)
    ensures
        (a as u32 == b as u32) ==> a == b,
{
}

/// Two sequences with the same first element are equal exactly when their
/// tails are.
proof fn lemma_eq_by_tail(a: Seq<char>, b: Seq<char>)
    requires
        a.len() > 0,
        b.len() > 0,
        a[0] == b[0],
    ensures
        a == b <==> a.drop_first() == b.drop_first(),
{
    if a.drop_first() == b.drop_first() {
        assert(a =~= seq![a[0]] + a.drop_first());
        assert(b =~= seq![b[0]] + b.drop_first());
    }
}

impl Clone for DictNode {
    /// A copy of the tree; see `duplicate`.
    fn clone(&self) -> Self {
        self.duplicate()
    }
}

impl View for DictNode {
    type V = Map<Seq<char>, Seq<char>>;

    /// The rules held by the tree, as a map from key to replacement.
    closed spec fn view(&self) -> Map<Seq<char>, Seq<char>> {
        Map::new(|k: Seq<char>| self.lookup(k) is Some, |k: Seq<char>| self.lookup(k)->0)
    }
}

} // verus!
