use vstd::prelude::*;

use crate::digest::{
    branch_digest, branch_hash, digest_of, empty_digest, hash, leaf_digest, leaf_hash,
    lemma_digest_len, zero_digest, TrieError,
};
use crate::nibbles::{
    all_nibbles, common2, common_all, common_prefix, lemma_lcp, lemma_nibbles_injective,
    lemma_nibbles_valid, nibbles_of, to_nibbles,
};

verus! {

/// A Merkle-Patricia trie node.
#[derive(Debug)]
pub enum Trie {
    Empty,
    Leaf { hash: Vec<u8>, prefix: Vec<u8>, key: Vec<u8>, value: Vec<u8> },
    Branch { hash: Vec<u8>, prefix: Vec<u8>, children: Vec<Option<Trie>>, size: usize },
}

/// Digest that a slot contributes to its branch's merkle root.
pub open spec fn slot_digest(c: Option<Trie>) -> Seq<u8> {
    match c {
        Some(t) => t.spec_hash(),
        None => zero_digest(),
    }
}

/// The child digests in slot order, concatenated.
pub open spec fn children_concat(cs: Seq<Option<Trie>>) -> Seq<u8>
    decreases cs.len(),
{
    if cs.len() == 0 {
        Seq::empty()
    } else {
        children_concat(cs.drop_last()) + slot_digest(cs.last())
    }
}

/// The merkle root of a branch's children.
pub open spec fn merkle_spec(cs: Seq<Option<Trie>>) -> Seq<u8> {
    digest_of(children_concat(cs))
}

/// Number of leaves that a slot holds.
pub open spec fn slot_size(c: Option<Trie>) -> nat {
    match c {
        Some(t) => t.spec_size(),
        None => 0,
    }
}

/// Sum of the sizes of the children.
pub open spec fn children_size(cs: Seq<Option<Trie>>) -> nat
    decreases cs.len(),
{
    if cs.len() == 0 {
        0
    } else {
        children_size(cs.drop_last()) + slot_size(cs.last())
    }
}

/// Number of populated slots.
pub open spec fn populated(cs: Seq<Option<Trie>>) -> nat
    decreases cs.len(),
{
    if cs.len() == 0 {
        0
    } else {
        populated(cs.drop_last()) + if cs.last() is Some { 1nat } else { 0nat }
    }
}

/// Sixteen empty slots with the given subtries placed, later ones overriding
/// earlier ones.
pub open spec fn sparse(data: Seq<(u8, Trie)>) -> Seq<Option<Trie>>
    decreases data.len(),
{
    if data.len() == 0 {
        Seq::new(16, |i: int| None)
    } else {
        sparse(data.drop_last()).update(data.last().0 as int, Some(data.last().1))
    }
}

/// `suffix` is a suffix of `s`.
pub open spec fn ends_with(s: Seq<u8>, suffix: Seq<u8>) -> bool {
    suffix.len() <= s.len() && s.skip(s.len() - suffix.len()) == suffix
}

impl Trie {
    /// The node's digest; the sentinel for the empty trie.
    pub open spec fn spec_hash(&self) -> Seq<u8> {
        match self {
            Trie::Empty => zero_digest(),
            Trie::Leaf { hash, .. } => hash@,
            Trie::Branch { hash, .. } => hash@,
        }
    }

    /// The node's cached number of leaves.
    pub open spec fn spec_size(&self) -> nat {
        match self {
            Trie::Empty => 0,
            Trie::Leaf { .. } => 1,
            Trie::Branch { size, .. } => *size as nat,
        }
    }

    /// A well-formed node below the routing-path prefix `pre`, in a trie whose
    /// keys all have routing paths of length `n`: each leaf's edge completes its
    /// key's routing path, each branch has 16 slots of which at least two are
    /// populated, and every cached digest and size equals its recomputation.
    pub open spec fn wf_node(&self, pre: Seq<u8>, n: nat) -> bool
        decreases self, 0nat,
    {
        match self {
            Trie::Empty => false,
            Trie::Leaf { hash, prefix, key, value } => {
                &&& nibbles_of(key@) == pre + prefix@
                &&& nibbles_of(key@).len() == n
                &&& hash@ == leaf_digest(prefix@, value@)
            },
            Trie::Branch { hash, prefix, children, size } => {
                &&& children@.len() == 16
                &&& populated(children@) >= 2
                &&& all_nibbles(prefix@)
                &&& pre.len() + prefix@.len() < n
                &&& *size as nat == children_size(children@)
                &&& hash@ == branch_digest(prefix@, merkle_spec(children@))
                &&& forall|i: int|
                    0 <= i < 16 && (#[trigger] children@[i]) is Some ==> children@[i]->Some_0.wf_child(
                        pre + prefix@,
                        n,
                        i,
                    )
            },
        }
    }

    /// A well-formed child in slot `i`: its edge begins with the slot's nibble.
    pub open spec fn wf_child(&self, pre: Seq<u8>, n: nat, i: int) -> bool
        decreases self, 1nat,
    {
        &&& self.wf_node(pre, n)
        &&& self.edge().len() > 0
        &&& self.edge()[0] == i
    }

    /// Number of leaves reachable from this node.
    pub open spec fn leaf_count(&self) -> nat
        decreases self, 1nat, 0nat,
    {
        match self {
            Trie::Empty => 0,
            Trie::Leaf { .. } => 1,
            Trie::Branch { children, .. } => self.slots_leaf_count(children@.len()),
        }
    }

    /// Number of leaves reachable through the first `i` slots of a branch.
    pub open spec fn slots_leaf_count(&self, i: nat) -> nat
        decreases self, 0nat, i,
    {
        match self {
            Trie::Branch { children, .. } => if i == 0 || i > children@.len() {
                0
            } else {
                self.slots_leaf_count((i - 1) as nat) + match children@[i - 1] {
                    Some(c) => c.leaf_count(),
                    None => 0,
                }
            },
            _ => 0,
        }
    }

    /// The segment of the routing path that this node consumes.
    pub open spec fn edge(&self) -> Seq<u8> {
        match self {
            Trie::Empty => Seq::empty(),
            Trie::Leaf { prefix, .. } => prefix@,
            Trie::Branch { prefix, .. } => prefix@,
        }
    }

    /// A well-formed trie: empty, or a well-formed node at the root.
    pub open spec fn wf(&self) -> bool {
        self is Empty || exists|n: nat| self.wf_node(Seq::empty(), n)
    }

    /// Keys of `len` bytes can go into this trie.
    pub open spec fn accepts_key_len(&self, len: nat) -> bool {
        self is Empty || self.wf_node(Seq::empty(), 2 * len)
    }

    /// The key and value of the leaf that routing path `path` reaches, if any.
    pub open spec fn lookup(&self, path: Seq<u8>) -> Option<(Seq<u8>, Seq<u8>)>
        decreases self,
    {
        match self {
            Trie::Empty => None,
            Trie::Leaf { prefix, key, value, .. } => if path == prefix@ {
                Some((key@, value@))
            } else {
                None
            },
            Trie::Branch { prefix, children, .. } => {
                let l = prefix@.len() as int;
                if path.len() > l && path.take(l) == prefix@ && (path[l] as int) < children@.len() {
                    match children@[path[l] as int] {
                        Some(c) => c.lookup(path.skip(l)),
                        None => None,
                    }
                } else {
                    None
                }
            },
        }
    }

    /// The value stored under `key`.
    pub open spec fn spec_get(&self, key: Seq<u8>) -> Option<Seq<u8>> {
        match self.lookup(nibbles_of(key)) {
            Some((k, v)) => if k == key {
                Some(v)
            } else {
                None
            },
            None => None,
        }
    }
}


proof fn lemma_children_size_update(cs: Seq<Option<Trie>>, i: int, x: Option<Trie>)
    requires
        0 <= i < cs.len(),
    ensures
        children_size(cs.update(i, x)) + slot_size(cs[i]) == children_size(cs) + slot_size(x),
        populated(cs.update(i, x)) + (if cs[i] is Some { 1nat } else { 0nat }) == populated(cs)
            + (if x is Some { 1nat } else { 0nat }),
    decreases cs.len(),
{
    let u = cs.update(i, x);
    if i == cs.len() - 1 {
        assert(u.drop_last() =~= cs.drop_last());
    } else {
        assert(u.drop_last() =~= cs.drop_last().update(i, x));
        lemma_children_size_update(cs.drop_last(), i, x);
    }
}

proof fn lemma_children_size_take(cs: Seq<Option<Trie>>, i: int)
    requires
        0 <= i <= cs.len(),
    ensures
        children_size(cs.take(i)) <= children_size(cs),
    decreases cs.len(),
{
    if i < cs.len() {
        assert(cs.drop_last().take(i) =~= cs.take(i));
        lemma_children_size_take(cs.drop_last(), i);
    } else {
        assert(cs.take(i) =~= cs);
    }
}

proof fn lemma_empty_slots(len: nat)
    ensures
        children_size(Seq::new(len, |i: int| None::<Trie>)) == 0,
        populated(Seq::new(len, |i: int| None::<Trie>)) == 0,
    decreases len,
{
    if len > 0 {
        assert(Seq::new(len, |i: int| None::<Trie>).drop_last() =~= Seq::new(
            (len - 1) as nat,
            |i: int| None::<Trie>,
        ));
        lemma_empty_slots((len - 1) as nat);
    }
}

/// Some slot of a set of slots with a populated one is populated.
proof fn lemma_populated_witness(cs: Seq<Option<Trie>>)
    requires
        populated(cs) > 0,
    ensures
        exists|i: int| 0 <= i < cs.len() && (#[trigger] cs[i]) is Some,
    decreases cs.len(),
{
    if cs.last() is None {
        lemma_populated_witness(cs.drop_last());
        let i = choose|i: int| 0 <= i < cs.drop_last().len() && (#[trigger] cs.drop_last()[i]) is Some;
        assert(cs[i] is Some);
    } else {
        assert(cs[cs.len() - 1] is Some);
    }
}

/// Replaces slot `i`.
fn put_slot(v: &mut Vec<Option<Trie>>, i: usize, x: Option<Trie>) -> (r: Option<Trie>)
    requires
        i < old(v).len(),
    ensures
        final(v)@ == old(v)@.update(i as int, x),
        r == old(v)@[i as int],
{
    let r = v.remove(i);
    v.insert(i, x);
    assert(final(v)@ =~= old(v)@.update(i as int, x));
    r
}

/// Sixteen empty slots with the given subtries placed by nibble.
pub fn to_sparse_vec(data: Vec<(u8, Trie)>) -> (r: Vec<Option<Trie>>)
    requires
        forall|i: int| 0 <= i < data.len() ==> (#[trigger] data@[i]).0 < 16,
    ensures
        r@ == sparse(data@),
{
    let mut result: Vec<Option<Trie>> = Vec::new();
    let mut k: usize = 0;
    while k < 16
        invariant
            k <= 16,
            result@ =~= Seq::new(k as nat, |i: int| None::<Trie>),
        decreases 16 - k,
    {
        result.push(None);
        k = k + 1;
    }
    let ghost all = data@;
    let n0 = data.len();
    assert(all.len() == n0);
    let mut data = data;
    let mut done: usize = 0;
    while data.len() > 0
        invariant
            done + data@.len() == all.len(),
            all.len() <= usize::MAX,
            data@ == all.skip(done as int),
            result@ == sparse(all.take(done as int)),
            result@.len() == 16,
            forall|i: int| 0 <= i < all.len() ==> (#[trigger] all[i]).0 < 16,
        decreases data@.len(),
    {
        let (index, value) = data.remove(0);
        proof {
            assert(all.take(done as int + 1).drop_last() =~= all.take(done as int));
            assert(all[done as int] == (index, value));
        }
        put_slot(&mut result, index as usize, Some(value));
        done = done + 1;
        assert(data@ =~= all.skip(done as int));
    }
    assert(all.take(done as int) =~= all);
    result
}

/// The merkle root of a branch's children: the digest of their digests in
/// slot order, an empty slot contributing the sentinel.
pub fn merkle_root(children: &Vec<Option<Trie>>) -> (r: Vec<u8>)
    ensures
        r@ == merkle_spec(children@),
{
    let mut acc: Vec<u8> = Vec::new();
    let mut i: usize = 0;
    while i < children.len()
        invariant
            i <= children.len(),
            acc@ == children_concat(children@.take(i as int)),
        decreases children.len() - i,
    {
        let mut d = match &children[i] {
            Some(t) => t.hash(),
            None => empty_digest(),
        };
        proof {
            assert(children@.take(i as int + 1).drop_last() =~= children@.take(i as int));
        }
        acc.append(&mut d);
        i = i + 1;
    }
    assert(children@.take(i as int) =~= children@);
    hash(&acc)
}

impl Trie {
    /// The empty trie.
    pub fn new() -> (r: Self)
        ensures
            r is Empty,
            r.wf(),
            r.spec_size() == 0,
            r.spec_hash() == zero_digest(),
            forall|k: Seq<u8>| r.spec_get(k) is None,
    {
        Trie::Empty
    }

    /// The trie holds no entries.
    pub fn is_empty(&self) -> (r: bool)
        ensures
            r == self is Empty,
    {
        match self {
            Trie::Empty => true,
            _ => false,
        }
    }

    /// The node's digest; the sentinel for the empty trie.
    pub fn hash(&self) -> (r: Vec<u8>)
        ensures
            r@ == self.spec_hash(),
    {
        match self {
            Trie::Empty => empty_digest(),
            Trie::Leaf { hash, .. } => {
                let r = hash.clone();
                assert(r@ =~= hash@);
                r
            },
            Trie::Branch { hash, .. } => {
                let r = hash.clone();
                assert(r@ =~= hash@);
                r
            },
        }
    }

    /// Number of leaves below this node.
    pub fn size(&self) -> (r: usize)
        ensures
            r == self.spec_size(),
    {
        match self {
            Trie::Empty => 0,
            Trie::Leaf { .. } => 1,
            Trie::Branch { size, .. } => *size,
        }
    }

    /// A leaf for `key` and `value` whose edge is `suffix`; fails unless the
    /// edge is a suffix of the key's routing path.
    pub fn leaf(suffix: Vec<u8>, key: Vec<u8>, value: Vec<u8>) -> (r: Result<Self, TrieError>)
        requires
            2 * key.len() <= usize::MAX,
        ensures
            r is Ok <==> ends_with(nibbles_of(key@), suffix@),
            r is Err ==> r == Err::<Trie, TrieError>(TrieError::EdgeNotSuffix),
            r matches Ok(t) ==> (t matches Trie::Leaf { hash: h, prefix: p, key: k, value: v } && p
                == suffix && k == key && v == value && h@ == leaf_digest(suffix@, value@)),
    {
        let kc = key.clone();
        assert(kc@ =~= key@);
        let path = to_nibbles(kc);
        proof {
            lemma_nibbles_valid(key@);
        }
        if suffix.len() > path.len() {
            return Err(TrieError::EdgeNotSuffix);
        }
        let start = path.len() - suffix.len();
        let mut i: usize = 0;
        while i < suffix.len()
            invariant
                i <= suffix.len(),
                start + suffix.len() == path.len(),
                path@ == nibbles_of(key@),
                forall|j: int| 0 <= j < i ==> path@[start + j] == suffix@[j],
            decreases suffix.len() - i,
        {
            if path[start + i] != suffix[i] {
                proof {
                    assert(path@.skip(start as int)[i as int] != suffix@[i as int]);
                    assert(path@.skip(start as int) != suffix@);
                    assert(path@.len() - suffix@.len() == start);
                }
                return Err(TrieError::EdgeNotSuffix);
            }
            i = i + 1;
        }
        assert(path@.skip(start as int) =~= suffix@);
        proof {
            assert forall|j: int| 0 <= j < suffix@.len() implies #[trigger] suffix@[j] < 16 by {
                assert(path@[start + j] < 16);
            }
        }
        let vd = hash(&value);
        let edge = suffix.clone();
        assert(edge@ =~= suffix@);
        let h = match leaf_hash(edge, vd) {
            Ok(h) => h,
            Err(e) => {
                return Err(e);
            },
        };
        Ok(Trie::Leaf { hash: h, prefix: suffix, key, value })
    }

    /// A branch with edge `prefix` over `children`; fails unless there are
    /// exactly 16 slots of which at least two are populated.
    pub fn branch(prefix: Vec<u8>, children: Vec<Option<Trie>>) -> (r: Result<Self, TrieError>)
        requires
            children_size(children@) <= usize::MAX,
        ensures
            r is Ok <==> children@.len() == 16 && populated(children@) >= 2,
            r is Err ==> r == Err::<Trie, TrieError>(TrieError::StructuralInvariantViolation),
            r matches Ok(t) ==> (t matches Trie::Branch { hash: h, prefix: p, children: c, size: s }
                && p == prefix && c == children && s as nat == children_size(children@) && h@
                == branch_digest(prefix@, merkle_spec(children@))),
    {
        let mut count: usize = 0;
        let mut size: usize = 0;
        let mut i: usize = 0;
        while i < children.len()
            invariant
                i <= children.len(),
                count == populated(children@.take(i as int)),
                count <= i,
                size == children_size(children@.take(i as int)),
                children_size(children@) <= usize::MAX,
            decreases children.len() - i,
        {
            proof {
                assert(children@.take(i as int + 1).drop_last() =~= children@.take(i as int));
                lemma_children_size_take(children@, i as int + 1);
            }
            match &children[i] {
                Some(t) => {
                    count = count + 1;
                    size = size + t.size();
                },
                None => {},
            }
            i = i + 1;
        }
        assert(children@.take(i as int) =~= children@);
        if count < 2 {
            return Err(TrieError::StructuralInvariantViolation);
        }
        if children.len() != 16 {
            return Err(TrieError::StructuralInvariantViolation);
        }
        let root = merkle_root(&children);
        proof {
            lemma_digest_len(children_concat(children@));
        }
        let h = match branch_hash(&prefix, &root) {
            Ok(h) => h,
            Err(e) => {
                return Err(e);
            },
        };
        Ok(Trie::Branch { hash: h, prefix, children, size })
    }
}


/// Two sequences agree exactly when they agree before and from index `m` on.
proof fn lemma_seq_split(p: Seq<u8>, e: Seq<u8>, m: int)
    requires
        0 <= m <= e.len(),
    ensures
        p == e <==> (p.len() >= m && p.take(m) == e.take(m) && p.skip(m) == e.skip(m)),
{
    if p.len() >= m && p.take(m) == e.take(m) && p.skip(m) == e.skip(m) {
        assert(p.len() == e.len()) by {
            assert(p.skip(m).len() == e.skip(m).len());
        }
        assert forall|i: int| 0 <= i < p.len() implies p[i] == e[i] by {
            if i < m {
                assert(p.take(m)[i] == e.take(m)[i]);
            } else {
                assert(p.skip(m)[i - m] == e.skip(m)[i - m]);
            }
        }
        assert(p =~= e);
    }
}

/// Routing through the first `m` nibbles of `b` and then through the rest
/// of `b` is routing through `b`.
proof fn lemma_seq_split_prefix(p: Seq<u8>, b: Seq<u8>, m: int)
    requires
        0 <= m < b.len(),
    ensures
        ({
            let q = p.skip(m);
            let b2 = b.skip(m);
            &&& (p.len() > b.len() && p.take(b.len() as int) == b) <==> (p.len() > m && p.take(m)
                == b.take(m) && q.len() > b2.len() && q.take(b2.len() as int) == b2)
            &&& (p.len() > b.len() && p.take(b.len() as int) == b) ==> q[b2.len() as int]
                == p[b.len() as int] && q.skip(b2.len() as int) == p.skip(b.len() as int)
        }),
{
    let q = p.skip(m);
    let b2 = b.skip(m);
    if p.len() > b.len() && p.take(b.len() as int) == b {
        assert(p.take(m) =~= b.take(m)) by {
            assert forall|i: int| 0 <= i < m implies p.take(m)[i] == b.take(m)[i] by {
                assert(p.take(b.len() as int)[i] == b[i]);
            }
        }
        assert(q.take(b2.len() as int) =~= b2) by {
            assert forall|i: int| 0 <= i < b2.len() implies q.take(b2.len() as int)[i] == b2[i] by {
                assert(p.take(b.len() as int)[i + m] == b[i + m]);
            }
        }
        assert(q.skip(b2.len() as int) =~= p.skip(b.len() as int));
    }
    if p.len() > m && p.take(m) == b.take(m) && q.len() > b2.len() && q.take(b2.len() as int)
        == b2 {
        assert(p.take(b.len() as int) =~= b) by {
            assert forall|i: int| 0 <= i < b.len() implies p.take(b.len() as int)[i] == b[i] by {
                if i < m {
                    assert(p.take(m)[i] == b.take(m)[i]);
                } else {
                    assert(q.take(b2.len() as int)[i - m] == b2[i - m]);
                }
            }
        }
    }
}

/// The pairwise longest common prefix, as `common_prefix` computes it.
proof fn lemma_common_pair(a: Seq<u8>, b: Seq<u8>)
    ensures
        common_all(seq![a, b]) == common2(a, b),
{
    assert(seq![a, b].drop_last() =~= seq![a]);
    assert(common_all(seq![a]) == a);
}

impl Trie {
    /// What a lookup finds is stored under a key whose routing path is the
    /// path followed.
    pub proof fn lemma_lookup_key(&self, pre: Seq<u8>, n: nat, p: Seq<u8>)
        requires
            self.wf_node(pre, n),
            self.lookup(p) is Some,
        ensures
            nibbles_of(self.lookup(p)->Some_0.0) == pre + p,
            nibbles_of(self.lookup(p)->Some_0.0).len() == n,
        decreases self,
    {
        match self {
            Trie::Empty => {},
            Trie::Leaf { .. } => {},
            Trie::Branch { prefix, children, .. } => {
                let l = prefix@.len() as int;
                let i = p[l] as int;
                let c = children@[i]->Some_0;
                assert(children@[i] is Some);
                assert(c.wf_child(pre + prefix@, n, i));
                c.lemma_lookup_key(pre + prefix@, n, p.skip(l));
                assert(pre + prefix@ + p.skip(l) =~= pre + p) by {
                    assert(p.take(l) == prefix@);
                    assert forall|j: int| 0 <= j < l implies p[j] == prefix@[j] by {
                        assert(p.take(l)[j] == p[j]);
                    }
                }
            },
        }
    }
}

/// A copy of `v` from index `from` on.
fn tail(v: &Vec<u8>, from: usize) -> (r: Vec<u8>)
    requires
        from <= v.len(),
    ensures
        r@ == v@.skip(from as int),
{
    let mut r: Vec<u8> = Vec::new();
    let mut i: usize = from;
    while i < v.len()
        invariant
            from <= i <= v.len(),
            r@ =~= v@.subrange(from as int, i as int),
        decreases v.len() - i,
    {
        r.push(v[i]);
        i = i + 1;
    }
    r
}

/// `b` occurs in `path` at index `pos`.
fn occurs_at(b: &Vec<u8>, path: &Vec<u8>, pos: usize) -> (r: bool)
    requires
        pos <= path.len(),
    ensures
        r == (b@.len() <= path@.skip(pos as int).len() && path@.skip(pos as int).take(
            b@.len() as int,
        ) == b@),
{
    let ghost rest = path@.skip(pos as int);
    if b.len() > path.len() - pos {
        return false;
    }
    let mut i: usize = 0;
    while i < b.len()
        invariant
            i <= b.len(),
            b.len() <= path.len() - pos,
            pos <= path.len(),
            rest == path@.skip(pos as int),
            forall|j: int| 0 <= j < i ==> rest[j] == b@[j],
        decreases b.len() - i,
    {
        if path[pos + i] != b[i] {
            assert(rest.take(b@.len() as int)[i as int] != b@[i as int]);
            return false;
        }
        i = i + 1;
    }
    assert(rest.take(b@.len() as int) =~= b@);
    true
}

impl Trie {
    /// The key and value of the leaf that the rest of `path` from `pos` reaches.
    fn get_at(&self, path: &Vec<u8>, pos: usize) -> (r: Option<(&Vec<u8>, &Vec<u8>)>)
        requires
            pos <= path.len(),
        ensures
            match r {
                Some((k, v)) => self.lookup(path@.skip(pos as int)) == Some((k@, v@)),
                None => self.lookup(path@.skip(pos as int)) is None,
            },
        decreases self,
    {
        let ghost rest = path@.skip(pos as int);
        match self {
            Trie::Empty => None,
            Trie::Leaf { prefix, key, value, .. } => {
                if occurs_at(prefix, path, pos) && prefix.len() == path.len() - pos {
                    assert(rest.take(prefix@.len() as int) =~= rest);
                    Some((key, value))
                } else {
                    assert(rest.take(prefix@.len() as int) =~= rest ==> rest != prefix@);
                    None
                }
            },
            Trie::Branch { prefix, children, .. } => {
                let l = prefix.len();
                if path.len() - pos > l && occurs_at(prefix, path, pos) && (path[pos + l] as usize)
                    < children.len() {
                    assert(rest[l as int] == path@[pos + l]);
                    match &children[path[pos + l] as usize] {
                        Some(c) => {
                            assert(rest.skip(l as int) =~= path@.skip(pos + l));
                            c.get_at(path, pos + l)
                        },
                        None => None,
                    }
                } else {
                    proof {
                        if rest.len() > l && rest.take(l as int) == prefix@ {
                            assert(rest[l as int] == path@[pos + l]);
                        }
                    }
                    None
                }
            },
        }
    }

    /// The value stored under `key`.
    pub fn get(&self, key: &Vec<u8>) -> (r: Option<Vec<u8>>)
        requires
            2 * key.len() <= usize::MAX,
        ensures
            match r {
                Some(v) => self.spec_get(key@) == Some(v@),
                None => self.spec_get(key@) is None,
            },
    {
        let kc = key.clone();
        assert(kc@ =~= key@);
        let path = to_nibbles(kc);
        assert(path@.skip(0) =~= path@);
        match self.get_at(&path, 0) {
            Some((k, v)) => {
                if k == key {
                    assert(k@ =~= key@);
                    let r = v.clone();
                    assert(r@ =~= v@);
                    Some(r)
                } else {
                    assert(k@ != key@) by {
                        if k@ == key@ {
                            assert(k@ =~= key@);
                        }
                    }
                    None
                }
            },
            None => None,
        }
    }

    /// Length in bytes of the keys in this trie: that of its leftmost leaf.
    fn width(&self) -> (r: Option<usize>)
        ensures
            forall|pre: Seq<u8>, n: nat|
                self.wf_node(pre, n) ==> r is Some && 2 * r->Some_0 == n,
        decreases self,
    {
        match self {
            Trie::Empty => None,
            Trie::Leaf { key, .. } => {
                assert forall|pre: Seq<u8>, n: nat| self.wf_node(pre, n) implies 2 * key.len() == n by {
                    lemma_nibbles_valid(key@);
                }
                Some(key.len())
            },
            Trie::Branch { prefix, children, .. } => {
                let mut i: usize = 0;
                #[verifier::loop_isolation(false)]
                while i < children.len()
                    invariant
                        i <= children.len(),
                        forall|j: int| 0 <= j < i ==> children@[j] is None,
                    decreases children.len() - i,
                {
                    match &children[i] {
                        Some(c) => {
                            let r = c.width();
                            assert forall|pre: Seq<u8>, n: nat| self.wf_node(pre, n) implies r is Some
                                && 2 * r->Some_0 == n by {
                                assert(children@[i as int] is Some);
                                assert(c.wf_child(pre + prefix@, n, i as int));
                                assert(c.wf_node(pre + prefix@, n));
                            }
                            return r;
                        },
                        None => {},
                    }
                    i = i + 1;
                }
                assert forall|pre: Seq<u8>, n: nat| !self.wf_node(pre, n) by {
                    if self.wf_node(pre, n) {
                        lemma_populated_witness(children@);
                    }
                }
                None
            },
        }
    }
}


/// What a slot's subtrie finds along a path.
pub open spec fn slot_lookup(c: Option<Trie>, q: Seq<u8>) -> Option<(Seq<u8>, Seq<u8>)> {
    match c {
        Some(t) => t.lookup(q),
        None => None,
    }
}

/// Lookups through a branch whose edge was split at index `m` to make room
/// for a leaf on the routing path `rem`.
proof fn lemma_split_lookup(
    t: Trie,
    me: Trie,
    inner: Trie,
    leaf: Trie,
    rem: Seq<u8>,
    m: int,
    kv: (Seq<u8>, Seq<u8>),
    p: Seq<u8>,
)
    requires
        me is Branch,
        inner is Branch,
        t is Branch,
        inner->Branch_children == me->Branch_children,
        inner->Branch_prefix@ == me->Branch_prefix@.skip(m),
        0 <= m < me->Branch_prefix@.len(),
        m < rem.len(),
        rem.take(m) == me->Branch_prefix@.take(m),
        rem[m] != me->Branch_prefix@[m],
        t->Branch_prefix@ == me->Branch_prefix@.take(m),
        t->Branch_children@ == Seq::new(16, |i: int| None::<Trie>).update(
            me->Branch_prefix@[m] as int,
            Some(inner),
        ).update(rem[m] as int, Some(leaf)),
        me->Branch_prefix@[m] < 16,
        rem[m] < 16,
        forall|q: Seq<u8>| #[trigger]
            leaf.lookup(q) == if q == rem.skip(m) {
                Some(kv)
            } else {
                None
            },
    ensures
        t.lookup(p) == if p == rem {
            Some(kv)
        } else {
            me.lookup(p)
        },
{
    let b = me->Branch_prefix@;
    let tc = t->Branch_children@;
    let q = p.skip(m);
    lemma_seq_split(p, rem, m);
    lemma_seq_split_prefix(p, b, m);
    assert(t->Branch_prefix@.len() == m);
    assert(tc.len() == 16);
    if p.len() > m && p.take(m) == b.take(m) {
        let sel = p[m];
        assert(q[0] == sel);
        if sel >= 16 {
            assert(t.lookup(p) is None);
            assert(me.lookup(p) is None) by {
                if q.len() > b.skip(m).len() && q.take(b.skip(m).len() as int) == b.skip(m) {
                    assert(q.take(b.skip(m).len() as int)[0] == b[m]);
                }
            }
            assert(p != rem);
        } else if sel == b[m] {
            assert(tc[sel as int] == Some(inner));
            assert(t.lookup(p) == inner.lookup(q));
            assert(p != rem);
        } else {
            assert(me.lookup(p) is None) by {
                if q.len() > b.skip(m).len() && q.take(b.skip(m).len() as int) == b.skip(m) {
                    assert(q.take(b.skip(m).len() as int)[0] == b[m]);
                }
            }
            if sel == rem[m] {
                assert(tc[sel as int] == Some(leaf));
                assert(t.lookup(p) == leaf.lookup(q));
            } else {
                assert(tc[sel as int] is None);
                assert(t.lookup(p) is None);
                assert(p != rem);
            }
        }
    } else {
        assert(t.lookup(p) is None);
        assert(me.lookup(p) is None);
        assert(p != rem) by {
            if p == rem {
                assert(p.take(m) == rem.take(m));
            }
        }
    }
}

/// Lookups through the branch that replaces a leaf with edge `e` when a leaf
/// on the routing path `rem` is added, the two parting at index `m`.
proof fn lemma_leaf_split_lookup(
    t: Trie,
    me: Trie,
    l1: Trie,
    l2: Trie,
    e: Seq<u8>,
    rem: Seq<u8>,
    m: int,
    kv: (Seq<u8>, Seq<u8>),
    p: Seq<u8>,
)
    requires
        me is Leaf,
        t is Branch,
        me->Leaf_prefix@ == e,
        0 <= m < e.len(),
        m < rem.len(),
        rem.take(m) == e.take(m),
        rem[m] != e[m],
        e[m] < 16,
        rem[m] < 16,
        t->Branch_prefix@ == e.take(m),
        t->Branch_children@ == Seq::new(16, |i: int| None::<Trie>).update(e[m] as int, Some(l1)).update(
            rem[m] as int,
            Some(l2),
        ),
        forall|q: Seq<u8>| #[trigger]
            l1.lookup(q) == if q == e.skip(m) {
                Some((me->Leaf_key@, me->Leaf_value@))
            } else {
                None
            },
        forall|q: Seq<u8>| #[trigger]
            l2.lookup(q) == if q == rem.skip(m) {
                Some(kv)
            } else {
                None
            },
    ensures
        t.lookup(p) == if p == rem {
            Some(kv)
        } else {
            me.lookup(p)
        },
{
    let tc = t->Branch_children@;
    let q = p.skip(m);
    lemma_seq_split(p, rem, m);
    lemma_seq_split(p, e, m);
    assert(tc.len() == 16);
    if p.len() > m && p.take(m) == e.take(m) {
        let sel = p[m];
        assert(q[0] == sel);
        assert(e.skip(m)[0] == e[m]);
        assert(rem.skip(m)[0] == rem[m]);
        if sel >= 16 {
            assert(t.lookup(p) is None);
        } else if sel == e[m] {
            assert(tc[sel as int] == Some(l1));
            assert(t.lookup(p) == l1.lookup(q));
        } else if sel == rem[m] {
            assert(tc[sel as int] == Some(l2));
            assert(t.lookup(p) == l2.lookup(q));
        } else {
            assert(tc[sel as int] is None);
            assert(t.lookup(p) is None);
        }
    } else {
        assert(t.lookup(p) is None);
    }
}

/// Lookups through a branch whose slot `s` was replaced by `nc`, the old
/// subtrie of that slot with a leaf on the routing path `rem` added.
proof fn lemma_descend_lookup(
    t: Trie,
    me: Trie,
    nc: Trie,
    rem: Seq<u8>,
    s: u8,
    kv: (Seq<u8>, Seq<u8>),
    p: Seq<u8>,
)
    requires
        me is Branch,
        t is Branch,
        t->Branch_prefix@ == me->Branch_prefix@,
        me->Branch_children@.len() == 16,
        s < 16,
        t->Branch_children@ == me->Branch_children@.update(s as int, Some(nc)),
        rem.len() > me->Branch_prefix@.len(),
        rem.take(me->Branch_prefix@.len() as int) == me->Branch_prefix@,
        rem[me->Branch_prefix@.len() as int] == s,
        forall|q: Seq<u8>| #[trigger]
            nc.lookup(q) == if q == rem.skip(me->Branch_prefix@.len() as int) {
                Some(kv)
            } else {
                slot_lookup(me->Branch_children@[s as int], q)
            },
    ensures
        t.lookup(p) == if p == rem {
            Some(kv)
        } else {
            me.lookup(p)
        },
{
    let b = me->Branch_prefix@;
    let cs = me->Branch_children@;
    let tc = t->Branch_children@;
    let m = b.len() as int;
    let q = p.skip(m);
    lemma_seq_split(p, rem, m);
    assert(tc.len() == 16);
    if p.len() > m && p.take(m) == b {
        let sel = p[m];
        assert(p.take(m) == rem.take(m));
        assert(q[0] == sel);
        assert(rem.skip(m)[0] == s);
        if sel >= 16 {
            assert(p != rem);
        } else if sel == s {
            assert(tc[sel as int] == Some(nc));
            assert(t.lookup(p) == nc.lookup(q));
            assert(me.lookup(p) == slot_lookup(cs[sel as int], q));
        } else {
            assert(tc[sel as int] == cs[sel as int]);
            assert(p != rem);
        }
    } else {
        assert(t.lookup(p) is None);
        assert(me.lookup(p) is None);
        assert(p != rem);
    }
}

impl Trie {
    fn is_leaf(&self) -> (r: bool)
        ensures
            r == self is Leaf,
    {
        match self {
            Trie::Leaf { .. } => true,
            _ => false,
        }
    }

    /// Inserts `key` below this node, whose position in the trie is reached
    /// by the first `pos` nibbles of the key's routing path `path`.
    #[verifier::rlimit(40)]
    fn insert_at(
        self,
        Ghost(pre): Ghost<Seq<u8>>,
        Ghost(n): Ghost<nat>,
        path: &Vec<u8>,
        pos: usize,
        key: Vec<u8>,
        value: Vec<u8>,
    ) -> (r: Result<Trie, TrieError>)
        requires
            self.wf_node(pre, n),
            path@ == nibbles_of(key@),
            2 * key.len() <= usize::MAX,
            n == path@.len(),
            pos == pre.len(),
            path@.take(pos as int) == pre,
            self.spec_size() < usize::MAX,
        ensures
            r is Err <==> self.lookup(path@.skip(pos as int)) is Some,
            r is Err ==> r == Err::<Trie, TrieError>(TrieError::DuplicateKey),
            r matches Ok(t) ==> {
                &&& t.wf_node(pre, n)
                &&& t.spec_size() == self.spec_size() + 1
                &&& forall|p: Seq<u8>| #[trigger]
                    t.lookup(p) == if p == path@.skip(pos as int) {
                        Some((key@, value@))
                    } else {
                        self.lookup(p)
                    }
                &&& self.edge().len() > 0 && pos < path.len() && self.edge()[0] == path@[pos as int]
                    ==> t.edge().len() > 0 && t.edge()[0] == self.edge()[0]
            },
        decreases self, 1nat,
    {
        if self.is_empty() {
            return Err(TrieError::InternalInconsistency);
        }
        if self.is_leaf() {
            self.insert_at_leaf(Ghost(pre), Ghost(n), path, pos, key, value)
        } else {
            self.insert_at_branch(Ghost(pre), Ghost(n), path, pos, key, value)
        }
    }

    /// `insert_at` on a leaf: the leaf becomes a branch over two leaves.
    #[verifier::rlimit(40)]
    fn insert_at_leaf(
        self,
        Ghost(pre): Ghost<Seq<u8>>,
        Ghost(n): Ghost<nat>,
        path: &Vec<u8>,
        pos: usize,
        key: Vec<u8>,
        value: Vec<u8>,
    ) -> (r: Result<Trie, TrieError>)
        requires
            self.wf_node(pre, n),
            self is Leaf,
            path@ == nibbles_of(key@),
            2 * key.len() <= usize::MAX,
            n == path@.len(),
            pos == pre.len(),
            path@.take(pos as int) == pre,
            self.spec_size() < usize::MAX,
        ensures
            r is Err <==> self.lookup(path@.skip(pos as int)) is Some,
            r is Err ==> r == Err::<Trie, TrieError>(TrieError::DuplicateKey),
            r matches Ok(t) ==> {
                &&& t.wf_node(pre, n)
                &&& t.spec_size() == self.spec_size() + 1
                &&& forall|p: Seq<u8>| #[trigger]
                    t.lookup(p) == if p == path@.skip(pos as int) {
                        Some((key@, value@))
                    } else {
                        self.lookup(p)
                    }
                &&& self.edge().len() > 0 && pos < path.len() && self.edge()[0] == path@[pos as int]
                    ==> t.edge().len() > 0 && t.edge()[0] == self.edge()[0]
            },
        decreases self, 0nat,
    {
        let ghost rem = path@.skip(pos as int);
        proof {
            lemma_nibbles_valid(key@);
            assert(pre + rem =~= path@);
        }
        let rem_v = tail(path, pos);
        let ghost me = self;
        match self {
            Trie::Empty => {
                proof {
                    assert(false);
                }
                Err(TrieError::InternalInconsistency)
            },
            Trie::Leaf { hash: _, prefix, key: lk, value: lv } => {
                if prefix == rem_v {
                    assert(prefix@ =~= rem);
                    return Err(TrieError::DuplicateKey);
                }
                assert(prefix@ != rem) by {
                    if prefix@ == rem {
                        assert(prefix@ =~= rem_v@);
                    }
                }
                let mut words: Vec<&Vec<u8>> = Vec::new();
                words.push(&prefix);
                words.push(&rem_v);
                let cp = common_prefix(words);
                let ghost e = prefix@;
                proof {
                    assert(words@.map_values(|w: &Vec<u8>| w@) =~= seq![e, rem]);
                    lemma_common_pair(e, rem);
                    lemma_lcp(e, rem);
                    lemma_nibbles_valid(lk@);
                    assert(e.len() == rem.len());
                }
                let m = cp.len();
                assert(cp@ == e.take(m as int));
                let this_nibble = prefix[m];
                let new_nibble = rem_v[m];
                if this_nibble == new_nibble {
                    return Err(TrieError::InternalInconsistency);
                }
                proof {
                    assert(this_nibble < 16) by {
                        assert(nibbles_of(lk@)[pre.len() + m] == e[m as int]);
                    }
                    assert(new_nibble < 16) by {
                        assert(path@[pos + m] == rem[m as int]);
                    }
                    assert(pre + cp@ + e.skip(m as int) =~= pre + e);
                    assert(pre + cp@ + rem.skip(m as int) =~= pre + rem);
                    assert(nibbles_of(lk@).skip(nibbles_of(lk@).len() - e.skip(m as int).len())
                        =~= e.skip(m as int));
                    assert(path@.skip(path@.len() - rem.skip(m as int).len()) =~= rem.skip(m as int));
                }
                let leaf1 = match Trie::leaf(tail(&prefix, m), lk, lv) {
                    Ok(t) => t,
                    Err(e) => {
                        return Err(e);
                    },
                };
                let leaf2 = match Trie::leaf(tail(&rem_v, m), key, value) {
                    Ok(t) => t,
                    Err(e) => {
                        return Err(e);
                    },
                };
                let ghost l1 = leaf1;
                let ghost l2 = leaf2;
                let mut data: Vec<(u8, Trie)> = Vec::new();
                data.push((this_nibble, leaf1));
                data.push((new_nibble, leaf2));
                let children = to_sparse_vec(data);
                let ghost empty = Seq::new(16, |i: int| None::<Trie>);
                proof {
                    let d = data@;
                    assert(d.drop_last().drop_last() =~= Seq::<(u8, Trie)>::empty());
                        assert(sparse(d.drop_last().drop_last()) == empty);
                        assert(d.drop_last().last() == (this_nibble, l1));
                        assert(d.last() == (new_nibble, l2));
                        assert(sparse(d.drop_last()) == empty.update(this_nibble as int, Some(l1)));
                    assert(children@ == empty.update(this_nibble as int, Some(l1)).update(
                        new_nibble as int,
                        Some(l2),
                    ));
                    lemma_empty_slots(16);
                    lemma_children_size_update(empty, this_nibble as int, Some(l1));
                    lemma_children_size_update(
                        empty.update(this_nibble as int, Some(l1)),
                        new_nibble as int,
                        Some(l2),
                    );
                }
                let ghost cs = children@;
                let r = Trie::branch(cp, children);
                match r {
                    Ok(t) => {
                        proof {
                            assert(cp@ =~= e.take(m as int));
                            assert(all_nibbles(cp@)) by {
                                assert forall|j: int| 0 <= j < cp@.len() implies #[trigger] cp@[j]
                                    < 16 by {
                                    assert(nibbles_of(lk@)[pre.len() + j] == e[j]);
                                }
                            }
                            assert forall|i: int|
                                0 <= i < 16 && (#[trigger] cs[i]) is Some implies cs[i]->Some_0.wf_child(
                                pre + cp@,
                                n,
                                i,
                            ) by {
                                if i == new_nibble as int {
                                    assert(rem.skip(m as int)[0] == new_nibble);
                                } else {
                                    assert(i == this_nibble as int);
                                    assert(e.skip(m as int)[0] == this_nibble);
                                }
                            }
                            assert forall|p: Seq<u8>| #[trigger]
                                t.lookup(p) == if p == rem {
                                    Some((key@, value@))
                                } else {
                                    me.lookup(p)
                                } by {
                                lemma_leaf_split_lookup(t, me, l1, l2, e, rem, m as int, (key@, value@), p);
                            }
                            if e.len() > 0 && rem.len() > 0 && e[0] == rem[0] {
                                assert(m > 0);
                                assert(cp@[0] == e[0]);
                            }
                        }
                        Ok(t)
                    },
                    Err(e) => Err(e),
                }
            },
            Trie::Branch { .. } => {
                proof {
                    assert(false);
                }
                Err(TrieError::InternalInconsistency)
            },
        }
    }

    /// `insert_at` on a branch: split its edge, fill an empty slot, or descend.
    #[verifier::rlimit(100)]
    fn insert_at_branch(
        self,
        Ghost(pre): Ghost<Seq<u8>>,
        Ghost(n): Ghost<nat>,
        path: &Vec<u8>,
        pos: usize,
        key: Vec<u8>,
        value: Vec<u8>,
    ) -> (r: Result<Trie, TrieError>)
        requires
            self.wf_node(pre, n),
            self is Branch,
            path@ == nibbles_of(key@),
            2 * key.len() <= usize::MAX,
            n == path@.len(),
            pos == pre.len(),
            path@.take(pos as int) == pre,
            self.spec_size() < usize::MAX,
        ensures
            r is Err <==> self.lookup(path@.skip(pos as int)) is Some,
            r is Err ==> r == Err::<Trie, TrieError>(TrieError::DuplicateKey),
            r matches Ok(t) ==> {
                &&& t.wf_node(pre, n)
                &&& t.spec_size() == self.spec_size() + 1
                &&& forall|p: Seq<u8>| #[trigger]
                    t.lookup(p) == if p == path@.skip(pos as int) {
                        Some((key@, value@))
                    } else {
                        self.lookup(p)
                    }
                &&& self.edge().len() > 0 && pos < path.len() && self.edge()[0] == path@[pos as int]
                    ==> t.edge().len() > 0 && t.edge()[0] == self.edge()[0]
            },
        decreases self, 0nat,
    {
        let ghost rem = path@.skip(pos as int);
        proof {
            lemma_nibbles_valid(key@);
            assert(pre + rem =~= path@);
        }
        let rem_v = tail(path, pos);
        let ghost me = self;
        match self {
            Trie::Empty => {
                proof {
                    assert(false);
                }
                Err(TrieError::InternalInconsistency)
            },
            Trie::Leaf { .. } => {
                proof {
                    assert(false);
                }
                Err(TrieError::InternalInconsistency)
            },
            Trie::Branch { hash: _, prefix, children, size } => {
                let mut words: Vec<&Vec<u8>> = Vec::new();
                words.push(&prefix);
                words.push(&rem_v);
                let cp = common_prefix(words);
                let ghost b = prefix@;
                let ghost cs = children@;
                proof {
                    assert(words@.map_values(|w: &Vec<u8>| w@) =~= seq![b, rem]);
                    lemma_common_pair(b, rem);
                    lemma_lcp(b, rem);
                    lemma_children_size_update(cs, 0, None);
                }
                let m = cp.len();
                assert(cp@ == b.take(m as int));
                if m < prefix.len() {
                    // The key leaves this branch's edge: split the edge.
                    let this_nibble = prefix[m];
                    let new_nibble = rem_v[m];
                    if this_nibble == new_nibble {
                        return Err(TrieError::InternalInconsistency);
                    }
                    proof {
                        assert(new_nibble < 16) by {
                            assert(path@[pos + m] == rem[m as int]);
                        }
                        assert(pre + cp@ + rem.skip(m as int) =~= pre + rem);
                        assert(path@.skip(path@.len() - rem.skip(m as int).len()) =~= rem.skip(m as int));
                        lemma_seq_split_prefix(rem, b, m as int);
                    }
                    let inner = match Trie::branch(tail(&prefix, m), children) {
                        Ok(t) => t,
                        Err(e) => {
                            return Err(e);
                        },
                    };
                    let leaf = match Trie::leaf(tail(&rem_v, m), key, value) {
                        Ok(t) => t,
                        Err(e) => {
                            return Err(e);
                        },
                    };
                    let ghost l1 = inner;
                    let ghost l2 = leaf;
                    proof {
                        let pre1 = pre + cp@;
                        assert(pre1 + b.skip(m as int) =~= pre + b);
                        assert(all_nibbles(b.skip(m as int))) by {
                            assert forall|j: int| 0 <= j < b.skip(m as int).len() implies #[trigger] b.skip(
                                m as int,
                            )[j] < 16 by {
                                assert(b[j + m] < 16);
                            }
                        }
                        assert(l1.wf_node(pre1, n));
                    }
                    let mut data: Vec<(u8, Trie)> = Vec::new();
                    data.push((this_nibble, inner));
                    data.push((new_nibble, leaf));
                    let children2 = to_sparse_vec(data);
                    let ghost empty = Seq::new(16, |i: int| None::<Trie>);
                    proof {
                        let d = data@;
                        assert(d.drop_last().drop_last() =~= Seq::<(u8, Trie)>::empty());
                        assert(sparse(d.drop_last().drop_last()) == empty);
                        assert(d.drop_last().last() == (this_nibble, l1));
                        assert(d.last() == (new_nibble, l2));
                        assert(sparse(d.drop_last()) == empty.update(this_nibble as int, Some(l1)));
                        assert(children2@ == empty.update(this_nibble as int, Some(l1)).update(
                            new_nibble as int,
                            Some(l2),
                        ));
                        lemma_empty_slots(16);
                        lemma_children_size_update(empty, this_nibble as int, Some(l1));
                        lemma_children_size_update(
                            empty.update(this_nibble as int, Some(l1)),
                            new_nibble as int,
                            Some(l2),
                        );
                    }
                    let ghost cs2 = children2@;
                    let r = Trie::branch(cp, children2);
                    match r {
                        Ok(t) => {
                            proof {
                                assert(cp@ =~= b.take(m as int));
                                assert(all_nibbles(cp@)) by {
                                    assert forall|j: int| 0 <= j < cp@.len() implies #[trigger] cp@[j]
                                        < 16 by {
                                        assert(b[j] < 16);
                                    }
                                }
                                assert forall|i: int|
                                    0 <= i < 16 && (#[trigger] cs2[i]) is Some implies cs2[i]->Some_0.wf_child(
                                    pre + cp@,
                                    n,
                                    i,
                                ) by {
                                    if i == new_nibble as int {
                                        assert(rem.skip(m as int)[0] == new_nibble);
                                    } else {
                                        assert(i == this_nibble as int);
                                        assert(b.skip(m as int)[0] == this_nibble);
                                    }
                                }
                                if b.len() > 0 && rem.len() > 0 && b[0] == rem[0] {
                                    assert(m > 0);
                                    assert(cp@[0] == b[0]);
                                }
                                assert forall|p: Seq<u8>| #[trigger]
                                    t.lookup(p) == if p == rem {
                                        Some((key@, value@))
                                    } else {
                                        me.lookup(p)
                                    } by {
                                    lemma_split_lookup(t, me, l1, l2, rem, m as int, (key@, value@), p);
                                }
                            }
                            Ok(t)
                        },
                        Err(e) => Err(e),
                    }
                } else {
                    // The key follows this branch's edge: descend into its slot.
                    let s = rem_v[m];
                    proof {
                        assert(m == b.len());
                        assert(s < 16) by {
                            assert(path@[pos + m] == rem[m as int]);
                        }
                        assert(rem.take(m as int) =~= b);
                        assert(rem.skip(m as int) =~= path@.skip(pos + m));
                    }
                    let mut children = children;
                    let slot = put_slot(&mut children, s as usize, None);
                    proof {
                        lemma_children_size_update(cs, s as int, None);
                    }
                    let new_child = match slot {
                        None => {
                            proof {
                                assert(pre + b + rem.skip(m as int) =~= pre + rem);
                                assert(path@.skip(path@.len() - rem.skip(m as int).len()) =~= rem.skip(
                                    m as int,
                                ));
                                assert(rem.skip(m as int)[0] == s);
                            }
                            match Trie::leaf(tail(&rem_v, m), key, value) {
                                Ok(t) => t,
                                Err(e) => {
                                    return Err(e);
                                },
                            }
                        },
                        Some(c) => {
                            proof {
                                assert(cs[s as int] is Some);
                                assert(cs[s as int]->Some_0.wf_child(pre + b, n, s as int));
                                assert(path@.take(pos + m) =~= pre + b);
                                assert(path@[pos + m] == s);
                            }
                            match c.insert_at(
                                Ghost(pre + b),
                                Ghost(n),
                                path,
                                pos + m,
                                key,
                                value,
                            ) {
                                Ok(t) => t,
                                Err(e) => {
                                    return Err(e);
                                },
                            }
                        },
                    };
                    let ghost nc = new_child;
                    put_slot(&mut children, s as usize, Some(new_child));
                    let ghost cs2 = children@;
                    proof {
                        assert(cs2 =~= cs.update(s as int, Some(nc)));
                        lemma_children_size_update(cs, s as int, Some(nc));
                    }
                    let r = Trie::branch(prefix, children);
                    match r {
                        Ok(t) => {
                            proof {
                                assert forall|i: int|
                                    0 <= i < 16 && (#[trigger] cs2[i]) is Some implies cs2[i]->Some_0.wf_child(
                                    pre + b,
                                    n,
                                    i,
                                ) by {
                                    if i != s as int {
                                        assert(cs2[i] == cs[i]);
                                    }
                                }
                                assert forall|p: Seq<u8>| #[trigger]
                                    t.lookup(p) == if p == rem {
                                        Some((key@, value@))
                                    } else {
                                        me.lookup(p)
                                    } by {
                                    lemma_descend_lookup(t, me, nc, rem, s, (key@, value@), p);
                                }
                            }
                            Ok(t)
                        },
                        Err(e) => Err(e),
                    }
                }
            },
        }
    }
}

impl Trie {
    /// Inserts `key` with `value`. Fails with `DuplicateKey` when the key is
    /// present, and with `KeyLengthMismatch` when the trie holds keys of
    /// another length; otherwise the result holds exactly one entry more.
    pub fn insert(self, key: Vec<u8>, value: Vec<u8>) -> (r: Result<Self, TrieError>)
        requires
            self.wf(),
            self.spec_size() < usize::MAX,
            2 * key.len() <= usize::MAX,
        ensures
            r is Ok <==> self.spec_get(key@) is None && self.accepts_key_len(key@.len()),
            r == Err::<Trie, TrieError>(TrieError::DuplicateKey) <==> self.spec_get(key@) is Some,
            r == Err::<Trie, TrieError>(TrieError::KeyLengthMismatch) <==> !self.accepts_key_len(
                key@.len(),
            ),
            r matches Ok(t) ==> {
                &&& t.wf()
                &&& t.accepts_key_len(key@.len())
                &&& t.spec_size() == self.spec_size() + 1
                &&& forall|k: Seq<u8>| #[trigger]
                    t.spec_get(k) == if k == key@ {
                        Some(value@)
                    } else {
                        self.spec_get(k)
                    }
            },
    {
        let ghost k0 = key@;
        let ghost v0 = value@;
        let kc = key.clone();
        assert(kc@ =~= key@);
        let path = to_nibbles(kc);
        proof {
            lemma_nibbles_valid(key@);
            assert(path@.skip(0) =~= path@);
            assert(path@.take(0) =~= Seq::<u8>::empty());
            assert(Seq::<u8>::empty() + path@ =~= path@);
            assert(path@.skip(0) =~= path@);
            assert forall|k: Seq<u8>| nibbles_of(k) == path@ implies k == k0 by {
                lemma_nibbles_injective(k, k0);
            }
        }
        if self.is_empty() {
            let r = Trie::leaf(path, key, value);
            match r {
                Ok(t) => {
                    proof {
                        assert(t.wf_node(Seq::empty(), 2 * k0.len()));
                        assert forall|k: Seq<u8>| #[trigger]
                            t.spec_get(k) == if k == k0 {
                                Some(v0)
                            } else {
                                self.spec_get(k)
                            } by {
                            if nibbles_of(k) == nibbles_of(k0) {
                                lemma_nibbles_injective(k, k0);
                            }
                        }
                    }
                    return Ok(t);
                },
                Err(e) => {
                    return Err(e);
                },
            }
        }
        let ghost n0 = choose|n: nat| self.wf_node(Seq::empty(), n);
        let w = self.width();
        let w = match w {
            Some(w) => w,
            None => {
                return Err(TrieError::InternalInconsistency);
            },
        };
        proof {
            if self.spec_get(k0) is Some {
                self.lemma_lookup_key(Seq::empty(), n0, nibbles_of(k0));
                assert(Seq::<u8>::empty() + nibbles_of(k0) =~= nibbles_of(k0));
            }
        }
        if key.len() != w {
            return Err(TrieError::KeyLengthMismatch);
        }
        let ghost me = self;
        let r = self.insert_at(Ghost(Seq::empty()), Ghost(n0), &path, 0, key, value);
        proof {
            if me.lookup(path@) is Some {
                me.lemma_lookup_key(Seq::empty(), n0, path@);
                let k = me.lookup(path@)->Some_0.0;
                assert(Seq::<u8>::empty() + path@ =~= path@);
                lemma_nibbles_injective(k, k0);
            }
        }
        match r {
            Ok(t) => {
                proof {
                    assert forall|k: Seq<u8>| #[trigger]
                        t.spec_get(k) == if k == k0 {
                            Some(v0)
                        } else {
                            me.spec_get(k)
                        } by {
                        if nibbles_of(k) == nibbles_of(k0) {
                            lemma_nibbles_injective(k, k0);
                        }
                    }
                }
                Ok(t)
            },
            Err(e) => Err(e),
        }
    }
}

/// Two populated slots of a set of slots with at least two populated ones.
proof fn lemma_populated_two(cs: Seq<Option<Trie>>) -> (r: (int, int))
    requires
        populated(cs) >= 2,
    ensures
        0 <= r.0 < cs.len(),
        0 <= r.1 < cs.len(),
        r.0 != r.1,
        cs[r.0] is Some,
        cs[r.1] is Some,
    decreases cs.len(),
{
    let d = cs.drop_last();
    if cs.last() is Some {
        lemma_populated_witness(d);
        let i = choose|i: int| 0 <= i < d.len() && (#[trigger] d[i]) is Some;
        assert(cs[i] == d[i]);
        (i, cs.len() - 1)
    } else {
        let (i, j) = lemma_populated_two(d);
        assert(cs[i] == d[i] && cs[j] == d[j]);
        (i, j)
    }
}

/// Slots whose digests agree one by one have the same concatenated digest.
proof fn lemma_concat_eq(a: Seq<Option<Trie>>, b: Seq<Option<Trie>>)
    requires
        a.len() == b.len(),
        forall|i: int| 0 <= i < a.len() ==> slot_digest(#[trigger] a[i]) == slot_digest(b[i]),
    ensures
        children_concat(a) == children_concat(b),
    decreases a.len(),
{
    if a.len() > 0 {
        let da = a.drop_last();
        let db = b.drop_last();
        assert forall|i: int| 0 <= i < da.len() implies slot_digest(#[trigger] da[i]) == slot_digest(
            db[i],
        ) by {
            assert(da[i] == a[i] && db[i] == b[i]);
        }
        lemma_concat_eq(da, db);
        assert(slot_digest(a[a.len() - 1]) == slot_digest(b[b.len() - 1]));
    }
}

impl Trie {
    /// A path found below a node begins with the node's edge; below a branch
    /// it goes on past the edge.
    proof fn lemma_lookup_edge(&self, p: Seq<u8>)
        requires
            self.lookup(p) is Some,
        ensures
            p.len() >= self.edge().len(),
            p.take(self.edge().len() as int) == self.edge(),
            self is Branch ==> p.len() > self.edge().len(),
    {
        if self is Leaf {
            assert(p.take(p.len() as int) =~= p);
        }
    }

    /// A well-formed node holds an entry.
    proof fn lemma_some_entry(&self, pre: Seq<u8>, n: nat) -> (p: Seq<u8>)
        requires
            self.wf_node(pre, n),
        ensures
            self.lookup(p) is Some,
        decreases self,
    {
        match self {
            Trie::Empty => Seq::empty(),
            Trie::Leaf { prefix, .. } => prefix@,
            Trie::Branch { prefix, children, .. } => {
                let (i, j) = lemma_populated_two(children@);
                let c = children@[i]->Some_0;
                assert(c.wf_child(pre + prefix@, n, i));
                let q = c.lemma_some_entry(pre + prefix@, n);
                c.lemma_lookup_edge(q);
                assert(q.take(c.edge().len() as int)[0] == q[0]);
                let b = prefix@;
                let p = b + q;
                assert(p.take(b.len() as int) =~= b);
                assert(p.skip(b.len() as int) =~= q);
                assert(p[b.len() as int] == q[0]);
                p
            },
        }
    }

    /// What a child finds along `q` its branch finds along the edge followed by `q`.
    proof fn lemma_child_lookup(&self, pre: Seq<u8>, n: nat, i: int, q: Seq<u8>)
        requires
            self.wf_node(pre, n),
            self is Branch,
            0 <= i < 16,
        ensures
            slot_lookup(self->Branch_children@[i], q) == if q.len() > 0 && q[0] == i {
                self.lookup(self.edge() + q)
            } else {
                None
            },
    {
        let b = self.edge();
        let cs = self->Branch_children@;
        let p = b + q;
        assert(p.take(b.len() as int) =~= b);
        assert(p.skip(b.len() as int) =~= q);
        if cs[i] is Some {
            let c = cs[i]->Some_0;
            assert(c.wf_child(pre + b, n, i));
            if c.lookup(q) is Some {
                c.lemma_lookup_edge(q);
                assert(q.take(c.edge().len() as int)[0] == q[0]);
            }
        }
        if q.len() > 0 && q[0] == i {
            assert(p[b.len() as int] == q[0]);
        }
    }

    /// Two well-formed nodes at the same position that find the same entries
    /// along every path have the same edge and the same digest.
    proof fn lemma_canonical(&self, other: Trie, pre: Seq<u8>, n1: nat, n2: nat)
        requires
            self.wf_node(pre, n1),
            other.wf_node(pre, n2),
            forall|p: Seq<u8>| #[trigger] self.lookup(p) == other.lookup(p),
        ensures
            self.edge() == other.edge(),
            self.spec_hash() == other.spec_hash(),
        decreases self,
    {
        let t1 = *self;
        let t2 = other;
        if t1 is Leaf {
            let e1 = t1.edge();
            assert(t1.lookup(e1) is Some);
            assert(t2.lookup(e1) is Some);
            if t2 is Branch {
                let p = t2.lemma_some_entry(pre, n2);
                let (i, j) = lemma_populated_two(t2->Branch_children@);
                let c1 = t2->Branch_children@[i]->Some_0;
                let c2 = t2->Branch_children@[j]->Some_0;
                assert(c1.wf_child(pre + t2.edge(), n2, i));
                assert(c2.wf_child(pre + t2.edge(), n2, j));
                let q1 = c1.lemma_some_entry(pre + t2.edge(), n2);
                let q2 = c2.lemma_some_entry(pre + t2.edge(), n2);
                t2.lemma_child_lookup(pre, n2, i, q1);
                t2.lemma_child_lookup(pre, n2, j, q2);
                c1.lemma_lookup_edge(q1);
                c2.lemma_lookup_edge(q2);
                assert(q1.take(c1.edge().len() as int)[0] == q1[0]);
                assert(q2.take(c2.edge().len() as int)[0] == q2[0]);
                let p1 = t2.edge() + q1;
                let p2 = t2.edge() + q2;
                assert(t1.lookup(p1) is Some && t1.lookup(p2) is Some);
                assert(p1[t2.edge().len() as int] != p2[t2.edge().len() as int]);
                assert(false);
            }
        } else if t2 is Leaf {
            let e2 = t2.edge();
            assert(t2.lookup(e2) is Some);
            assert forall|p: Seq<u8>| #[trigger] t2.lookup(p) == t1.lookup(p) by {}
            t2.lemma_canonical_leaf_branch(t1, pre, n2, n1);
        } else {
            let b1 = t1.edge();
            let b2 = t2.edge();
            // Two entries of `t1` part right after its edge.
            let (i, j) = lemma_populated_two(t1->Branch_children@);
            let c1 = t1->Branch_children@[i]->Some_0;
            let c2 = t1->Branch_children@[j]->Some_0;
            assert(c1.wf_child(pre + b1, n1, i));
            assert(c2.wf_child(pre + b1, n1, j));
            let q1 = c1.lemma_some_entry(pre + b1, n1);
            let q2 = c2.lemma_some_entry(pre + b1, n1);
            t1.lemma_child_lookup(pre, n1, i, q1);
            t1.lemma_child_lookup(pre, n1, j, q2);
            c1.lemma_lookup_edge(q1);
            c2.lemma_lookup_edge(q2);
            assert(q1.take(c1.edge().len() as int)[0] == q1[0]);
            assert(q2.take(c2.edge().len() as int)[0] == q2[0]);
            let p1 = b1 + q1;
            let p2 = b1 + q2;
            assert(p1[b1.len() as int] != p2[b1.len() as int]);
            t2.lemma_lookup_edge(p1);
            t2.lemma_lookup_edge(p2);
            // The same for `t2`.
            let (k, l) = lemma_populated_two(t2->Branch_children@);
            let d1 = t2->Branch_children@[k]->Some_0;
            let d2 = t2->Branch_children@[l]->Some_0;
            assert(d1.wf_child(pre + b2, n2, k));
            assert(d2.wf_child(pre + b2, n2, l));
            let r1 = d1.lemma_some_entry(pre + b2, n2);
            let r2 = d2.lemma_some_entry(pre + b2, n2);
            t2.lemma_child_lookup(pre, n2, k, r1);
            t2.lemma_child_lookup(pre, n2, l, r2);
            d1.lemma_lookup_edge(r1);
            d2.lemma_lookup_edge(r2);
            assert(r1.take(d1.edge().len() as int)[0] == r1[0]);
            assert(r2.take(d2.edge().len() as int)[0] == r2[0]);
            let s1 = b2 + r1;
            let s2 = b2 + r2;
            assert(s1[b2.len() as int] != s2[b2.len() as int]);
            t1.lemma_lookup_edge(s1);
            t1.lemma_lookup_edge(s2);
            assert(b1.len() == b2.len()) by {
                if b1.len() < b2.len() {
                    assert(p1.take(b2.len() as int)[b1.len() as int] == p1[b1.len() as int]);
                    assert(p2.take(b2.len() as int)[b1.len() as int] == p2[b1.len() as int]);
                } else if b2.len() < b1.len() {
                    assert(s1.take(b1.len() as int)[b2.len() as int] == s1[b2.len() as int]);
                    assert(s2.take(b1.len() as int)[b2.len() as int] == s2[b2.len() as int]);
                }
            }
            assert(b1 == b2) by {
                assert(p1.take(b1.len() as int) == b1);
            }
            let cs1 = t1->Branch_children@;
            let cs2 = t2->Branch_children@;
            assert forall|x: int| 0 <= x < cs1.len() implies slot_digest(#[trigger] cs1[x])
                == slot_digest(cs2[x]) by {
                assert forall|q: Seq<u8>| #[trigger]
                    slot_lookup(cs1[x], q) == slot_lookup(cs2[x], q) by {
                    t1.lemma_child_lookup(pre, n1, x, q);
                    t2.lemma_child_lookup(pre, n2, x, q);
                }
                if cs1[x] is Some && cs2[x] is Some {
                    let a = cs1[x]->Some_0;
                    let c = cs2[x]->Some_0;
                    assert(a.wf_child(pre + b1, n1, x));
                    assert(c.wf_child(pre + b2, n2, x));
                    assert forall|q: Seq<u8>| #[trigger] a.lookup(q) == c.lookup(q) by {
                        assert(slot_lookup(cs1[x], q) == slot_lookup(cs2[x], q));
                    }
                    a.lemma_canonical(c, pre + b1, n1, n2);
                } else if cs1[x] is Some {
                    let a = cs1[x]->Some_0;
                    assert(a.wf_child(pre + b1, n1, x));
                    let q = a.lemma_some_entry(pre + b1, n1);
                    assert(slot_lookup(cs1[x], q) == slot_lookup(cs2[x], q));
                } else if cs2[x] is Some {
                    let c = cs2[x]->Some_0;
                    assert(c.wf_child(pre + b2, n2, x));
                    let q = c.lemma_some_entry(pre + b2, n2);
                    assert(slot_lookup(cs1[x], q) == slot_lookup(cs2[x], q));
                }
            }
            lemma_concat_eq(cs1, cs2);
        }
    }

    /// A leaf and a branch never find the same entries.
    proof fn lemma_canonical_leaf_branch(&self, other: Trie, pre: Seq<u8>, n1: nat, n2: nat)
        requires
            self is Leaf,
            self.wf_node(pre, n1),
            other.wf_node(pre, n2),
            forall|p: Seq<u8>| #[trigger] self.lookup(p) == other.lookup(p),
        ensures
            self.edge() == other.edge(),
            self.spec_hash() == other.spec_hash(),
    {
        let t1 = *self;
        let t2 = other;
        let e1 = t1.edge();
        assert(t1.lookup(e1) is Some);
        if t2 is Branch {
            let (i, j) = lemma_populated_two(t2->Branch_children@);
            let c1 = t2->Branch_children@[i]->Some_0;
            let c2 = t2->Branch_children@[j]->Some_0;
            assert(c1.wf_child(pre + t2.edge(), n2, i));
            assert(c2.wf_child(pre + t2.edge(), n2, j));
            let q1 = c1.lemma_some_entry(pre + t2.edge(), n2);
            let q2 = c2.lemma_some_entry(pre + t2.edge(), n2);
            t2.lemma_child_lookup(pre, n2, i, q1);
            t2.lemma_child_lookup(pre, n2, j, q2);
            c1.lemma_lookup_edge(q1);
            c2.lemma_lookup_edge(q2);
            assert(q1.take(c1.edge().len() as int)[0] == q1[0]);
            assert(q2.take(c2.edge().len() as int)[0] == q2[0]);
            let p1 = t2.edge() + q1;
            let p2 = t2.edge() + q2;
            assert(t1.lookup(p1) is Some && t1.lookup(p2) is Some);
            assert(p1[t2.edge().len() as int] != p2[t2.edge().len() as int]);
        } else {
            assert(t2.lookup(e1) is Some);
        }
    }
}

/// Two well-formed tries holding the same entries have the same root digest:
/// the digest depends on the set of key/value pairs alone, so inserting the
/// same pairs in any order gives the same digest.
pub proof fn lemma_same_entries_same_digest(t1: Trie, t2: Trie)
    requires
        t1.wf(),
        t2.wf(),
        forall|k: Seq<u8>| #[trigger] t1.spec_get(k) == t2.spec_get(k),
    ensures
        t1.spec_hash() == t2.spec_hash(),
{
    if t1 is Empty && t2 is Empty {
    } else if t1 is Empty || t2 is Empty {
        let t = if t1 is Empty { t2 } else { t1 };
        let n = choose|n: nat| t.wf_node(Seq::empty(), n);
        let p = t.lemma_some_entry(Seq::empty(), n);
        t.lemma_lookup_key(Seq::empty(), n, p);
        let k = t.lookup(p)->Some_0.0;
        assert(Seq::<u8>::empty() + p =~= p);
        assert(t1.spec_get(k) == t2.spec_get(k));
    } else {
        let n1 = choose|n: nat| t1.wf_node(Seq::empty(), n);
        let n2 = choose|n: nat| t2.wf_node(Seq::empty(), n);
        assert forall|p: Seq<u8>| #[trigger] t1.lookup(p) == t2.lookup(p) by {
            assert(Seq::<u8>::empty() + p =~= p);
            if t1.lookup(p) is Some {
                t1.lemma_lookup_key(Seq::empty(), n1, p);
                let k = t1.lookup(p)->Some_0.0;
                assert(t1.spec_get(k) == t2.spec_get(k));
                t2.lemma_lookup_key(Seq::empty(), n2, p);
            } else if t2.lookup(p) is Some {
                t2.lemma_lookup_key(Seq::empty(), n2, p);
                let k = t2.lookup(p)->Some_0.0;
                assert(t1.spec_get(k) == t2.spec_get(k));
            }
        }
        t1.lemma_canonical(t2, Seq::empty(), n1, n2);
    }
}

impl Trie {
    proof fn lemma_size_is_leaf_count(&self, pre: Seq<u8>, n: nat)
        requires
            self.wf_node(pre, n),
        ensures
            self.spec_size() == self.leaf_count(),
        decreases self, 1nat, 0nat,
    {
        if self is Branch {
            self.lemma_slots_leaf_count(pre, n, 16);
            assert(self->Branch_children@.take(16) =~= self->Branch_children@);
        }
    }

    proof fn lemma_slots_leaf_count(&self, pre: Seq<u8>, n: nat, i: nat)
        requires
            self.wf_node(pre, n),
            self is Branch,
            i <= 16,
        ensures
            self.slots_leaf_count(i) == children_size(self->Branch_children@.take(i as int)),
        decreases self, 0nat, i,
    {
        let cs = self->Branch_children@;
        if i > 0 {
            self.lemma_slots_leaf_count(pre, n, (i - 1) as nat);
            assert(cs.take(i as int).drop_last() =~= cs.take(i - 1));
            if cs[i - 1] is Some {
                let c = cs[i - 1]->Some_0;
                assert(c.wf_child(pre + self.edge(), n, i - 1));
                c.lemma_size_is_leaf_count(pre + self.edge(), n);
            }
        } else {
            assert(cs.take(0) =~= Seq::<Option<Trie>>::empty());
        }
    }
}

/// The size cached at the root of a well-formed trie is the number of
/// leaves reachable from it.
pub proof fn lemma_size_counts_leaves(t: Trie)
    requires
        t.wf(),
    ensures
        t.spec_size() == t.leaf_count(),
{
    if !(t is Empty) {
        let n = choose|n: nat| t.wf_node(Seq::empty(), n);
        t.lemma_size_is_leaf_count(Seq::empty(), n);
    }
}

} // verus!
