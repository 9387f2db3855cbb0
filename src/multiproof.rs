use crate::account::{account_bytes, lemma_path_injective, path_of, Account, Address, TREE_DEPTH};
use crate::error::Error;
use crate::hash::{digest, hash_bytes, hash_pair, node_digest};
use vstd::prelude::*;

verus! {

/// The hash of the leaf that holds `a`.
pub open spec fn leaf_digest(a: Account) -> Seq<u8> {
    digest(account_bytes(a))
}

/// Witness data a multiproof is built from: the known part of the tree, with
/// each unknown subtree given by its hash alone.
pub enum Witness {
    /// A subtree of which only the hash is known.
    Hash(Vec<u8>),
    /// A known account record at the bottom of the tree.
    Leaf(Account),
    /// An internal node whose two children are given.
    Branch(Box<Witness>, Box<Witness>),
}

impl Witness {
    /// The root hash of this subtree, computed from its leaves and hashes.
    pub open spec fn root_hash(self) -> Seq<u8>
        decreases self,
    {
        match self {
            Witness::Hash(h) => h@,
            Witness::Leaf(a) => leaf_digest(a),
            Witness::Branch(l, r) => node_digest(l.root_hash(), r.root_hash()),
        }
    }

    /// Leaves stand exactly at the bottom of the tree, internal nodes above it.
    pub open spec fn shaped(self, depth: nat) -> bool
        decreases self,
    {
        match self {
            Witness::Hash(_) => true,
            Witness::Leaf(_) => depth == TREE_DEPTH,
            Witness::Branch(l, r) => depth < TREE_DEPTH && l.shaped(depth + 1) && r.shaped(depth + 1),
        }
    }

    /// The record found by following `path` down from this subtree, if known.
    pub open spec fn lookup(self, path: Seq<bool>) -> Option<Account>
        decreases self,
    {
        match self {
            Witness::Hash(_) => None,
            Witness::Leaf(a) => if path.len() == 0 {
                Some(a)
            } else {
                None
            },
            Witness::Branch(l, r) => if path.len() == 0 {
                None
            } else if path[0] {
                r.lookup(path.drop_first())
            } else {
                l.lookup(path.drop_first())
            },
        }
    }
}

impl Witness {
    /// The root hash of this subtree, computed from its leaves and hashes.
    pub fn compute_root(&self) -> (r: Vec<u8>)
        ensures
            r@ == self.root_hash(),
        decreases self,
    {
        match self {
            Witness::Hash(h) => copy_bytes(h),
            Witness::Leaf(a) => hash_bytes(&a.to_bytes()),
            Witness::Branch(l, r) => {
                let lh = l.compute_root();
                let rh = r.compute_root();
                hash_pair(&lh, &rh)
            },
        }
    }
}

/// The content of a partial tree without its carried hashes: what a
/// multiproof knows, and what its root hash is a function of.
pub enum Tree {
    /// A subtree known only by its hash.
    Opaque(Seq<u8>),
    /// A known account record.
    Leaf(Account),
    /// An internal node with its two children.
    Branch(Box<Tree>, Box<Tree>),
}

impl Tree {
    /// The root hash, computed from the leaves and opaque hashes upward.
    pub open spec fn root_hash(self) -> Seq<u8>
        decreases self,
    {
        match self {
            Tree::Opaque(h) => h,
            Tree::Leaf(a) => leaf_digest(a),
            Tree::Branch(l, r) => node_digest(l.root_hash(), r.root_hash()),
        }
    }

    /// The record found by following `path` down from this subtree, if known.
    pub open spec fn lookup(self, path: Seq<bool>) -> Option<Account>
        decreases self,
    {
        match self {
            Tree::Opaque(_) => None,
            Tree::Leaf(a) => if path.len() == 0 {
                Some(a)
            } else {
                None
            },
            Tree::Branch(l, r) => if path.len() == 0 {
                None
            } else if path[0] {
                r.lookup(path.drop_first())
            } else {
                l.lookup(path.drop_first())
            },
        }
    }

    /// The tree with the known leaf at the end of `path` holding `acct`; the
    /// same tree where that leaf is not known.
    pub open spec fn with_record(self, path: Seq<bool>, acct: Account) -> Tree
        decreases self,
    {
        match self {
            Tree::Opaque(h) => Tree::Opaque(h),
            Tree::Leaf(a) => if path.len() == 0 {
                Tree::Leaf(acct)
            } else {
                Tree::Leaf(a)
            },
            Tree::Branch(l, r) => if path.len() == 0 {
                Tree::Branch(l, r)
            } else if path[0] {
                Tree::Branch(l, Box::new(r.with_record(path.drop_first(), acct)))
            } else {
                Tree::Branch(Box::new(l.with_record(path.drop_first(), acct)), r)
            },
        }
    }
}

/// Replacing a known leaf changes what is found there and nothing else.
pub proof fn lemma_with_record(t: Tree, p: Seq<bool>, acct: Account)
    ensures
        t.lookup(p).is_some() ==> t.with_record(p, acct).lookup(p) == Some(acct),
        t.lookup(p).is_none() ==> t.with_record(p, acct) == t,
        forall|q: Seq<bool>| q != p ==> #[trigger] t.with_record(p, acct).lookup(q) == t.lookup(q),
    decreases t,
{
    match t {
        Tree::Branch(l, r) => {
            if p.len() > 0 {
                lemma_with_record(*l, p.drop_first(), acct);
                lemma_with_record(*r, p.drop_first(), acct);
                assert forall|q: Seq<bool>| q != p implies #[trigger] t.with_record(p, acct).lookup(q)
                    == t.lookup(q) by {
                    if q.len() > 0 {
                        if q[0] == p[0] {
                            if q.drop_first() == p.drop_first() {
                                lemma_same_head_tail(q, p);
                            }
                            if p[0] {
                                assert(r.with_record(p.drop_first(), acct).lookup(q.drop_first())
                                    == r.lookup(q.drop_first()));
                            } else {
                                assert(l.with_record(p.drop_first(), acct).lookup(q.drop_first())
                                    == l.lookup(q.drop_first()));
                            }
                        }
                    }
                }
            }
        },
        Tree::Leaf(_) => {
            assert forall|q: Seq<bool>| q != p implies #[trigger] t.with_record(p, acct).lookup(q)
                == t.lookup(q) by {
                if q.len() == 0 && p.len() == 0 {
                    assert(q =~= p);
                }
            }
        },
        Tree::Opaque(_) => {},
    }
}

/// The root hash of a subtree of the given height in which every account is
/// zero.
pub open spec fn zero_hash(height: nat) -> Seq<u8>
    decreases height,
{
    if height == 0 {
        leaf_digest(Account { balance: 0, nonce: 0 })
    } else {
        node_digest(zero_hash((height - 1) as nat), zero_hash((height - 1) as nat))
    }
}

/// No two entries name the same address.
pub open spec fn distinct_addresses(entries: Seq<(Address, Account)>) -> bool {
    forall|i: int, j: int| 0 <= i < j < entries.len() ==> entries[i].0 != entries[j].0
}

/// The hashes of all-zero subtrees, indexed by height.
fn zero_hashes() -> (r: Vec<Vec<u8>>)
    ensures
        r@.len() == TREE_DEPTH + 1,
        forall|h: int| 0 <= h <= TREE_DEPTH ==> (#[trigger] r@[h])@ == zero_hash(h as nat),
{
    let zero = Account { balance: 0, nonce: 0 };
    let mut r: Vec<Vec<u8>> = Vec::new();
    r.push(hash_bytes(&zero.to_bytes()));
    let mut h: usize = 1;
    while h <= TREE_DEPTH
        invariant
            1 <= h <= TREE_DEPTH + 1,
            r@.len() == h,
            forall|k: int| 0 <= k < h ==> (#[trigger] r@[k])@ == zero_hash(k as nat),
        decreases TREE_DEPTH + 1 - h,
    {
        let next = hash_pair(&r[h - 1], &r[h - 1]);
        r.push(next);
        h = h + 1;
    }
    r
}

/// Index `k` is listed in one of the two index sequences.
spec fn placed(lidx: Seq<int>, ridx: Seq<int>, k: int) -> bool {
    (exists|j: int| 0 <= j < lidx.len() && lidx[j] == k) || (exists|j: int|
        0 <= j < ridx.len() && ridx[j] == k)
}

/// Builds the witness for the subtree at `depth` above `prefix`, in which
/// the given accounts are known and every other subtree is all zero.
fn build_subtree(
    entries: Vec<(Address, Account)>,
    depth: usize,
    zeros: &Vec<Vec<u8>>,
    Ghost(prefix): Ghost<Seq<bool>>,
) -> (r: Witness)
    requires
        depth <= TREE_DEPTH,
        zeros@.len() == TREE_DEPTH + 1,
        forall|h: int| 0 <= h <= TREE_DEPTH ==> (#[trigger] zeros@[h])@ == zero_hash(h as nat),
        distinct_addresses(entries@),
        forall|k: int|
            0 <= k < entries@.len() ==> path_of((#[trigger] entries@[k]).0).subrange(0, depth as int)
                == prefix,
    ensures
        r.shaped(depth as nat),
        forall|k: int|
            0 <= k < entries@.len() ==> r.lookup(path_below((#[trigger] entries@[k]).0, depth as int))
                == Some(entries@[k].1),
        forall|q: Seq<bool>|
            (#[trigger] r.lookup(q)).is_some() ==> exists|k: int|
                0 <= k < entries@.len() && q == path_below(entries@[k].0, depth as int),
    decreases TREE_DEPTH - depth,
{
    if entries.len() == 0 {
        return Witness::Hash(copy_bytes(&zeros[TREE_DEPTH - depth]));
    }
    if depth == TREE_DEPTH {
        proof {
            if entries@.len() > 1 {
                assert(path_of(entries@[0].0) =~= path_of(entries@[0].0).subrange(0, depth as int));
                assert(path_of(entries@[1].0) =~= path_of(entries@[1].0).subrange(0, depth as int));
                lemma_path_injective(entries@[0].0, entries@[1].0);
            }
            assert forall|q: Seq<bool>| #[trigger] Witness::Leaf(entries@[0].1).lookup(q).is_some()
                implies exists|k: int| 0 <= k < entries@.len() && q == path_below(entries@[k].0, depth as int) by {
                assert(q =~= path_below(entries@[0].0, depth as int));
            }
        }
        return Witness::Leaf(entries[0].1);
    }
    let mut left: Vec<(Address, Account)> = Vec::new();
    let mut right: Vec<(Address, Account)> = Vec::new();
    let ghost mut lidx: Seq<int> = Seq::empty();
    let ghost mut ridx: Seq<int> = Seq::empty();
    let mut i: usize = 0;
    while i < entries.len()
        invariant
            i <= entries@.len(),
            depth < TREE_DEPTH,
            left@.len() == lidx.len(),
            right@.len() == ridx.len(),
            forall|j: int| 0 <= j < lidx.len() ==> 0 <= #[trigger] lidx[j] < i,
            forall|j: int| 0 <= j < ridx.len() ==> 0 <= #[trigger] ridx[j] < i,
            forall|j: int, l: int| 0 <= j < l < lidx.len() ==> lidx[j] < lidx[l],
            forall|j: int, l: int| 0 <= j < l < ridx.len() ==> ridx[j] < ridx[l],
            forall|j: int|
                0 <= j < lidx.len() ==> #[trigger] left@[j] == entries@[lidx[j]] && !path_of(
                    entries@[lidx[j]].0,
                )[depth as int],
            forall|j: int|
                0 <= j < ridx.len() ==> #[trigger] right@[j] == entries@[ridx[j]] && path_of(
                    entries@[ridx[j]].0,
                )[depth as int],
            forall|k: int| 0 <= k < i ==> #[trigger] placed(lidx, ridx, k),
        decreases entries@.len() - i,
    {
        let e = entries[i];
        let go_right = e.0.bit(depth);
        assert(e == entries@[i as int]);
        let ghost old_l = lidx;
        let ghost old_r = ridx;
        let ghost old_left = left@;
        let ghost old_right = right@;
        if go_right {
            proof {
                ridx = ridx.push(i as int);
            }
            right.push(e);
        } else {
            proof {
                lidx = lidx.push(i as int);
            }
            left.push(e);
        }
        proof {
            assert forall|j: int| 0 <= j < lidx.len() implies #[trigger] left@[j] == entries@[lidx[j]]
                && !path_of(entries@[lidx[j]].0)[depth as int] by {
                if j < old_l.len() {
                    assert(lidx[j] == old_l[j]);
                    assert(left@[j] == old_left[j]);
                } else {
                    assert(lidx[j] == i);
                }
            }
            assert forall|j: int| 0 <= j < ridx.len() implies #[trigger] right@[j] == entries@[ridx[j]]
                && path_of(entries@[ridx[j]].0)[depth as int] by {
                if j < old_r.len() {
                    assert(ridx[j] == old_r[j]);
                    assert(right@[j] == old_right[j]);
                } else {
                    assert(ridx[j] == i);
                }
            }
            assert forall|k: int| 0 <= k <= i implies #[trigger] placed(lidx, ridx, k) by {
                if k == i {
                    if go_right {
                        assert(ridx[ridx.len() - 1] == k);
                    } else {
                        assert(lidx[lidx.len() - 1] == k);
                    }
                } else {
                    assert(placed(old_l, old_r, k));
                    if exists|j: int| 0 <= j < old_l.len() && old_l[j] == k {
                        let j = choose|j: int| 0 <= j < old_l.len() && old_l[j] == k;
                        assert(lidx[j] == k);
                    } else {
                        let j = choose|j: int| 0 <= j < old_r.len() && old_r[j] == k;
                        assert(ridx[j] == k);
                    }
                }
            }
        }
        i = i + 1;
    }
    let ghost lp = prefix.push(false);
    let ghost rp = prefix.push(true);
    proof {
        assert forall|k: int| 0 <= k < left@.len() implies path_of((#[trigger] left@[k]).0).subrange(
            0,
            depth + 1,
        ) == lp by {
            let a = left@[k].0;
            assert(path_of(a).subrange(0, depth as int) == prefix);
            assert(path_of(a).subrange(0, depth + 1) =~= path_of(a).subrange(0, depth as int).push(
                path_of(a)[depth as int],
            ));
        }
        assert forall|k: int| 0 <= k < right@.len() implies path_of((#[trigger] right@[k]).0).subrange(
            0,
            depth + 1,
        ) == rp by {
            let a = right@[k].0;
            assert(path_of(a).subrange(0, depth as int) == prefix);
            assert(path_of(a).subrange(0, depth + 1) =~= path_of(a).subrange(0, depth as int).push(
                path_of(a)[depth as int],
            ));
        }
        assert forall|j: int, l: int| 0 <= j < l < left@.len() implies left@[j].0 != left@[l].0 by {
            assert(lidx[j] < lidx[l]);
        }
        assert forall|j: int, l: int| 0 <= j < l < right@.len() implies right@[j].0 != right@[l].0 by {
            assert(ridx[j] < ridx[l]);
        }
    }
    let ghost le = left@;
    let ghost re = right@;
    let lw = build_subtree(left, depth + 1, zeros, Ghost(lp));
    let rw = build_subtree(right, depth + 1, zeros, Ghost(rp));
    let w = Witness::Branch(Box::new(lw), Box::new(rw));
    proof {
        assert forall|k: int| 0 <= k < entries@.len() implies w.lookup(
            path_below((#[trigger] entries@[k]).0, depth as int),
        ) == Some(entries@[k].1) by {
            let a = entries@[k].0;
            lemma_path_step(a, depth as int);
            assert(placed(lidx, ridx, k));
            if exists|j: int| 0 <= j < lidx.len() && #[trigger] lidx[j] == k {
                let j = choose|j: int| 0 <= j < lidx.len() && #[trigger] lidx[j] == k;
                assert(le[j] == entries@[k]);
            } else {
                let j = choose|j: int| 0 <= j < ridx.len() && #[trigger] ridx[j] == k;
                assert(re[j] == entries@[k]);
            }
        }
        assert forall|q: Seq<bool>| (#[trigger] w.lookup(q)).is_some() implies exists|k: int|
            0 <= k < entries@.len() && q == path_below(entries@[k].0, depth as int) by {
            assert(q.len() > 0);
            let rest = q.drop_first();
            if q[0] {
                assert(rw.lookup(rest).is_some());
                let j = choose|j: int| 0 <= j < re.len() && rest == path_below(re[j].0, depth + 1);
                let k = ridx[j];
                lemma_path_step(re[j].0, depth as int);
                lemma_same_head_tail(q, path_below(entries@[k].0, depth as int));
            } else {
                assert(lw.lookup(rest).is_some());
                let j = choose|j: int| 0 <= j < le.len() && rest == path_below(le[j].0, depth + 1);
                let k = lidx[j];
                lemma_path_step(le[j].0, depth as int);
                lemma_same_head_tail(q, path_below(entries@[k].0, depth as int));
            }
        }
    }
    w
}

impl Witness {
    /// The witness for a ledger in which the listed accounts hold the given
    /// records and every other account is zero: each listed account is known,
    /// and each subtree without one is given by its all-zero hash.
    pub fn from_accounts(entries: Vec<(Address, Account)>) -> (r: Witness)
        requires
            distinct_addresses(entries@),
        ensures
            r.shaped(0),
            forall|k: int|
                0 <= k < entries@.len() ==> r.lookup(path_of((#[trigger] entries@[k]).0)) == Some(
                    entries@[k].1,
                ),
            forall|a: Address|
                (#[trigger] r.lookup(path_of(a))).is_some() ==> exists|k: int|
                    0 <= k < entries@.len() && entries@[k].0 == a,
    {
        let zeros = zero_hashes();
        let ghost e = entries@;
        proof {
            assert forall|k: int| 0 <= k < e.len() implies path_of((#[trigger] e[k]).0).subrange(0, 0)
                == Seq::<bool>::empty() by {
                assert(path_of(e[k].0).subrange(0, 0) =~= Seq::<bool>::empty());
            }
        }
        let r = build_subtree(entries, 0, &zeros, Ghost(Seq::empty()));
        proof {
            assert forall|a: Address| path_below(a, 0) == path_of(a) by {
                assert(path_below(a, 0) =~= path_of(a));
            }
            assert forall|a: Address| (#[trigger] r.lookup(path_of(a))).is_some() implies exists|k: int|
                0 <= k < e.len() && e[k].0 == a by {
                assert(r.lookup(path_below(a, 0)).is_some());
                let k = choose|k: int| 0 <= k < e.len() && path_of(a) == path_below(e[k].0, 0);
                lemma_path_injective(a, e[k].0);
            }
        }
        r
    }
}

/// A node of the partial tree, each carrying its hash.
pub enum Node {
    /// A subtree known only by its hash.
    Opaque(Vec<u8>),
    /// A known account record and its leaf hash.
    Leaf(Account, Vec<u8>),
    /// An internal node: its hash and its two children.
    Branch(Vec<u8>, Box<Node>, Box<Node>),
}

impl Node {
    /// The hash this node carries.
    pub open spec fn cached(self) -> Seq<u8> {
        match self {
            Node::Opaque(h) => h@,
            Node::Leaf(_, h) => h@,
            Node::Branch(h, _, _) => h@,
        }
    }

    /// What this subtree knows, without the carried hashes.
    pub open spec fn tree(self) -> Tree
        decreases self,
    {
        match self {
            Node::Opaque(h) => Tree::Opaque(h@),
            Node::Leaf(a, _) => Tree::Leaf(a),
            Node::Branch(_, l, r) => Tree::Branch(Box::new(l.tree()), Box::new(r.tree())),
        }
    }

    /// Every carried hash is the hash of what lies below it, and leaves stand
    /// exactly at the bottom of the tree.
    pub open spec fn wf(self, depth: nat) -> bool
        decreases self,
    {
        match self {
            Node::Opaque(_) => true,
            Node::Leaf(a, h) => depth == TREE_DEPTH && h@ == leaf_digest(a),
            Node::Branch(h, l, r) => {
                &&& depth < TREE_DEPTH
                &&& l.wf(depth + 1)
                &&& r.wf(depth + 1)
                &&& h@ == node_digest(l.cached(), r.cached())
            },
        }
    }

    /// The record found by following `path` down from this node, if known.
    pub open spec fn lookup(self, path: Seq<bool>) -> Option<Account>
        decreases self,
    {
        match self {
            Node::Opaque(_) => None,
            Node::Leaf(a, _) => if path.len() == 0 {
                Some(a)
            } else {
                None
            },
            Node::Branch(_, l, r) => if path.len() == 0 {
                None
            } else if path[0] {
                r.lookup(path.drop_first())
            } else {
                l.lookup(path.drop_first())
            },
        }
    }

    fn hash(&self) -> (r: &Vec<u8>)
        ensures
            r@ == self.cached(),
    {
        match self {
            Node::Opaque(h) => h,
            Node::Leaf(_, h) => h,
            Node::Branch(h, _, _) => h,
        }
    }
}


/// Under well-formedness the carried hash is the one recomputed from the tree.
proof fn lemma_cached_is_computed(n: Node, depth: nat)
    requires
        n.wf(depth),
    ensures
        n.cached() == n.tree().root_hash(),
    decreases n,
{
    match n {
        Node::Branch(_, l, r) => {
            lemma_cached_is_computed(*l, depth + 1);
            lemma_cached_is_computed(*r, depth + 1);
        },
        _ => {},
    }
}

/// Looking a path up in a node finds what its tree holds there.
proof fn lemma_node_lookup(n: Node, p: Seq<bool>)
    ensures
        n.lookup(p) == n.tree().lookup(p),
    decreases n,
{
    match n {
        Node::Branch(_, l, r) => {
            if p.len() > 0 {
                lemma_node_lookup(*l, p.drop_first());
                lemma_node_lookup(*r, p.drop_first());
            }
        },
        _ => {},
    }
}

/// The part of an address's path that lies below `depth`.
pub open spec fn path_below(a: Address, depth: int) -> Seq<bool> {
    path_of(a).subrange(depth, TREE_DEPTH as int)
}

proof fn lemma_same_head_tail(q: Seq<bool>, p: Seq<bool>)
    requires
        q.len() > 0,
        p.len() > 0,
        q[0] == p[0],
        q.drop_first() == p.drop_first(),
    ensures
        q == p,
{
    assert(q.len() == p.len()) by {
        assert(q.drop_first().len() == q.len() - 1);
        assert(p.drop_first().len() == p.len() - 1);
    }
    assert forall|i: int| 0 <= i < q.len() implies q[i] == p[i] by {
        if i > 0 {
            assert(q[i] == q.drop_first()[i - 1]);
            assert(p[i] == p.drop_first()[i - 1]);
        }
    }
    assert(q =~= p);
}

proof fn lemma_path_step(a: Address, depth: int)
    requires
        0 <= depth < TREE_DEPTH,
    ensures
        path_below(a, depth).len() > 0,
        path_below(a, depth)[0] == path_of(a)[depth],
        path_below(a, depth).drop_first() == path_below(a, depth + 1),
{
    assert(path_below(a, depth).drop_first() =~= path_below(a, depth + 1));
}

impl Node {
    /// Builds the node for a witness, computing every hash bottom-up; `None`
    /// where a leaf or an internal node stands at the wrong depth.
    fn build(w: Witness, depth: usize) -> (r: Option<Node>)
        requires
            depth <= TREE_DEPTH,
        ensures
            r.is_some() == w.shaped(depth as nat),
            r.is_some() ==> {
                let n = r.unwrap();
                &&& n.wf(depth as nat)
                &&& n.cached() == w.root_hash()
                &&& forall|q: Seq<bool>| #[trigger] n.lookup(q) == w.lookup(q)
            },
        decreases TREE_DEPTH - depth,
    {
        match w {
            Witness::Hash(h) => Some(Node::Opaque(h)),
            Witness::Leaf(a) => {
                if depth == TREE_DEPTH {
                    let h = hash_bytes(&a.to_bytes());
                    Some(Node::Leaf(a, h))
                } else {
                    None
                }
            },
            Witness::Branch(l, r) => {
                if depth == TREE_DEPTH {
                    return None;
                }
                let ln = Node::build(*l, depth + 1);
                let rn = Node::build(*r, depth + 1);
                match (ln, rn) {
                    (Some(ln), Some(rn)) => {
                        let h = hash_pair(ln.hash(), rn.hash());
                        let n = Node::Branch(h, Box::new(ln), Box::new(rn));
                        assert forall|q: Seq<bool>| #[trigger] n.lookup(q) == w.lookup(q) by {
                            if q.len() > 0 {
                                assert(ln.lookup(q.drop_first()) == l.lookup(q.drop_first()));
                                assert(rn.lookup(q.drop_first()) == r.lookup(q.drop_first()));
                            }
                        }
                        Some(n)
                    },
                    _ => None,
                }
            },
        }
    }

    /// The record at `a`'s leaf, looked for below this node at `depth`.
    fn get(&self, a: &Address, depth: usize) -> (r: Option<Account>)
        requires
            depth <= TREE_DEPTH,
            self.wf(depth as nat),
        ensures
            r == self.lookup(path_below(*a, depth as int)),
        decreases TREE_DEPTH - depth,
    {
        match self {
            Node::Opaque(_) => None,
            Node::Leaf(acct, _) => Some(*acct),
            Node::Branch(_, l, r) => {
                proof {
                    lemma_path_step(*a, depth as int);
                }
                if a.bit(depth) {
                    r.get(a, depth + 1)
                } else {
                    l.get(a, depth + 1)
                }
            },
        }
    }

    /// Replaces the record at `a`'s leaf below this node at `depth` and
    /// recomputes the hashes on the way back up. Returns the new node and
    /// whether the leaf was known; where it was not, the node comes back as it was.
    fn set(self, a: &Address, depth: usize, acct: Account) -> (r: (Node, bool))
        requires
            depth <= TREE_DEPTH,
            self.wf(depth as nat),
        ensures
            r.0.wf(depth as nat),
            r.1 == self.lookup(path_below(*a, depth as int)).is_some(),
            r.1 ==> r.0.lookup(path_below(*a, depth as int)) == Some(acct),
            forall|q: Seq<bool>|
                q != path_below(*a, depth as int) ==> #[trigger] r.0.lookup(q) == self.lookup(q),
            !r.1 ==> r.0 == self,
            r.1 ==> r.0.tree() == self.tree().with_record(path_below(*a, depth as int), acct),
        decreases TREE_DEPTH - depth,
    {
        let ghost p = path_below(*a, depth as int);
        match self {
            Node::Opaque(h) => (Node::Opaque(h), false),
            Node::Leaf(_, _) => {
                let h = hash_bytes(&acct.to_bytes());
                let n = Node::Leaf(acct, h);
                assert(p.len() == 0);
                assert forall|q: Seq<bool>| q != p implies #[trigger] n.lookup(q) == self.lookup(q) by {
                    if q.len() == 0 {
                        assert(q =~= p);
                    }
                }
                (n, true)
            },
            Node::Branch(h, l, r) => {
                proof {
                    lemma_path_step(*a, depth as int);
                }
                let ghost old_l = *l;
                let ghost old_r = *r;
                let go_right = a.bit(depth);
                let (l2, r2, ok) = if go_right {
                    let (r2, ok) = (*r).set(a, depth + 1, acct);
                    (*l, r2, ok)
                } else {
                    let (l2, ok) = (*l).set(a, depth + 1, acct);
                    (l2, *r, ok)
                };
                if ok {
                    let h2 = hash_pair(l2.hash(), r2.hash());
                    let n = Node::Branch(h2, Box::new(l2), Box::new(r2));
                    assert forall|q: Seq<bool>| q != p implies #[trigger] n.lookup(q) == self.lookup(q) by {
                        if q.len() > 0 {
                            if q[0] == p[0] {
                                if q.drop_first() == p.drop_first() {
                                    lemma_same_head_tail(q, p);
                                }
                                if go_right {
                                    assert(r2.lookup(q.drop_first()) == old_r.lookup(q.drop_first()));
                                } else {
                                    assert(l2.lookup(q.drop_first()) == old_l.lookup(q.drop_first()));
                                }
                            }
                        }
                    }
                    (n, true)
                } else {
                    let n = Node::Branch(h, Box::new(l2), Box::new(r2));
                    assert(n == self);
                    (n, false)
                }
            },
        }
    }
}


/// Whether two byte strings are equal.
fn bytes_eq(a: &Vec<u8>, b: &Vec<u8>) -> (r: bool)
    ensures
        r == (a@ == b@),
{
    if a.len() != b.len() {
        return false;
    }
    let mut i: usize = 0;
    while i < a.len()
        invariant
            a@.len() == b@.len(),
            i <= a@.len(),
            forall|k: int| 0 <= k < i ==> a@[k] == b@[k],
        decreases a@.len() - i,
    {
        if a[i] != b[i] {
            return false;
        }
        i = i + 1;
    }
    assert(a@ =~= b@);
    true
}

/// A copy of a byte string.
fn copy_bytes(a: &Vec<u8>) -> (r: Vec<u8>)
    ensures
        r@ == a@,
{
    let mut out: Vec<u8> = Vec::new();
    let mut i: usize = 0;
    while i < a.len()
        invariant
            i <= a@.len(),
            out@ == a@.subrange(0, i as int),
        decreases a@.len() - i,
    {
        out.push(a[i]);
        i = i + 1;
    }
    assert(out@ =~= a@);
    out
}

/// A partial view of the account tree: the known leaves, the internal nodes
/// above them, and the hashes of every subtree left out.
pub struct Multiproof {
    root: Node,
}

impl Multiproof {
    /// Every carried hash matches what lies below it.
    pub closed spec fn wf(self) -> bool {
        self.root.wf(0)
    }

    /// What this view knows of the account tree.
    pub closed spec fn tree(self) -> Tree {
        self.root.tree()
    }

    /// The record at `a`'s leaf, where this view holds it.
    pub open spec fn record(self, a: Address) -> Option<Account> {
        self.tree().lookup(path_of(a))
    }

    /// The root hash this view carries.
    pub closed spec fn root_hash(self) -> Seq<u8> {
        self.root.cached()
    }


    /// Builds a multiproof from witness data and checks it against the root
    /// hash it is claimed to have.
    pub fn new(witness: Witness, root: &Vec<u8>) -> (r: Result<Multiproof, Error>)
        ensures
            !witness.shaped(0) <==> r == Err::<Multiproof, Error>(Error::MalformedProof),
            witness.shaped(0) && witness.root_hash() != root@ <==> r == Err::<Multiproof, Error>(
                Error::RootMismatch,
            ),
            r.is_ok() <==> witness.shaped(0) && witness.root_hash() == root@,
            r.is_ok() ==> {
                let m = r.unwrap();
                &&& m.wf()
                &&& m.root_hash() == root@
                &&& forall|a: Address| #[trigger] m.record(a) == witness.lookup(path_of(a))
            },
    {
        match Node::build(witness, 0) {
            None => Err(Error::MalformedProof),
            Some(n) => {
                if bytes_eq(n.hash(), root) {
                    proof {
                        assert forall|a: Address| #[trigger] n.tree().lookup(path_of(a)) == witness.lookup(
                            path_of(a),
                        ) by {
                            lemma_node_lookup(n, path_of(a));
                        }
                    }
                    Ok(Multiproof { root: n })
                } else {
                    Err(Error::RootMismatch)
                }
            },
        }
    }

    /// The current root hash.
    pub fn root(&self) -> (r: Vec<u8>)
        ensures
            r@ == self.root_hash(),
    {
        copy_bytes(self.root.hash())
    }

    /// The record at `a`'s leaf; `UnknownAddress` where only a hash covers it.
    pub fn get_record(&self, a: &Address) -> (r: Result<Account, Error>)
        requires
            self.wf(),
        ensures
            match self.record(*a) {
                Some(acct) => r == Ok::<Account, Error>(acct),
                None => r == Err::<Account, Error>(Error::UnknownAddress(*a)),
            },
    {
        proof {
            assert(path_below(*a, 0) =~= path_of(*a));
            lemma_node_lookup(self.root, path_of(*a));
        }
        match self.root.get(a, 0) {
            Some(acct) => Ok(acct),
            None => Err(Error::UnknownAddress(*a)),
        }
    }

    /// Replaces the record at `a`'s leaf and recomputes every hash on its path
    /// up to the root; `UnknownAddress`, with nothing changed, where only a
    /// hash covers the leaf.
    pub fn set_record(&mut self, a: &Address, acct: Account) -> (r: Result<(), Error>)
        requires
            old(self).wf(),
        ensures
            final(self).wf(),
            old(self).record(*a).is_some() ==> r == Ok::<(), Error>(()) && final(self).record(*a)
                == Some(acct),
            old(self).record(*a).is_none() ==> r == Err::<(), Error>(Error::UnknownAddress(*a))
                && *final(self) == *old(self),
            forall|b: Address|
                path_of(b) != path_of(*a) ==> #[trigger] final(self).record(b) == old(self).record(b),
            old(self).record(*a).is_some() ==> final(self).tree() == old(self).tree().with_record(
                path_of(*a),
                acct,
            ),
            final(self).root_hash() == final(self).tree().root_hash(),
    {
        proof {
            assert(path_below(*a, 0) =~= path_of(*a));
            lemma_node_lookup(self.root, path_of(*a));
            lemma_with_record(self.root.tree(), path_of(*a), acct);
        }
        let mut taken = Node::Opaque(Vec::new());
        std::mem::swap(&mut taken, &mut self.root);
        let (n, ok) = taken.set(a, 0, acct);
        self.root = n;
        proof {
            lemma_cached_is_computed(self.root, 0);
        }
        if ok {
            Ok(())
        } else {
            Err(Error::UnknownAddress(*a))
        }
    }

    /// The balance at `a`; `UnknownAddress` where only a hash covers it.
    pub fn balance(&self, a: &Address) -> (r: Result<u64, Error>)
        requires
            self.wf(),
        ensures
            match self.record(*a) {
                Some(acct) => r == Ok::<u64, Error>(acct.balance),
                None => r == Err::<u64, Error>(Error::UnknownAddress(*a)),
            },
    {
        match self.get_record(a) {
            Ok(acct) => Ok(acct.balance),
            Err(e) => Err(e),
        }
    }

    /// The nonce at `a`; `UnknownAddress` where only a hash covers it.
    pub fn nonce(&self, a: &Address) -> (r: Result<u64, Error>)
        requires
            self.wf(),
        ensures
            match self.record(*a) {
                Some(acct) => r == Ok::<u64, Error>(acct.nonce),
                None => r == Err::<u64, Error>(Error::UnknownAddress(*a)),
            },
    {
        match self.get_record(a) {
            Ok(acct) => Ok(acct.nonce),
            Err(e) => Err(e),
        }
    }
}

/// Root consistency: in a well-formed multiproof, and so after any run of
/// successful writes, the root hash it carries equals the root recomputed
/// from its leaves and opaque hashes.
pub proof fn lemma_root_consistent(m: Multiproof)
    requires
        m.wf(),
    ensures
        m.root_hash() == m.tree().root_hash(),
{
    lemma_cached_is_computed(m.root, 0);
}

} // verus!
