//! The authenticated AVL tree.

use vstd::prelude::*;
use vstd::arithmetic::power2::{pow2, lemma_pow2_unfold, lemma_pow2_strictly_increases, lemma2_to64};
use core::cmp::Ordering;
use crate::order::{key_lt, compare_keys, lemma_key_order};
use crate::digest::{
    transaction_text, node_text, sha256_hex_of, is_digest_text, push_transaction_text,
    node_text_of, sha256_hex,
};

verus! {

/// A transaction: the record stored under its `id`.
#[derive(Clone, Debug)]
pub struct Transaction {
    pub id: String,
    pub from: String,
    pub to: String,
    pub amount: u64,
    pub timestamp: Option<u64>,
}

/// The mathematical value of a transaction.
pub struct TransactionView {
    pub id: Seq<char>,
    pub from: Seq<char>,
    pub to: Seq<char>,
    pub amount: u64,
    pub timestamp: Option<u64>,
}

impl View for Transaction {
    type V = TransactionView;

    open spec fn view(&self) -> TransactionView {
        TransactionView {
            id: self.id@,
            from: self.from@,
            to: self.to@,
            amount: self.amount,
            timestamp: self.timestamp,
        }
    }
}

/// A node of the tree. Its height counts the nodes on its longest downward
/// path; its hash is the digest of its record, its children's hashes and its
/// height.
#[derive(Debug)]
pub struct CryptoTreeNode {
    pub transaction: Transaction,
    pub left: Option<Box<CryptoTreeNode>>,
    pub right: Option<Box<CryptoTreeNode>>,
    pub height: i32,
    pub hash: String,
}

/// The digest that a node with these parts must carry.
pub open spec fn node_digest(t: TransactionView, left: Seq<char>, right: Seq<char>, height: i32) -> Seq<char> {
    sha256_hex_of(node_text(transaction_text(t.id, t.from, t.to, t.amount, t.timestamp), left, right, height))
}

pub open spec fn max_int(a: int, b: int) -> int {
    if a >= b { a } else { b }
}

/// The stored height of a subtree; an absent one has height 0.
pub open spec fn link_height(l: Option<Box<CryptoTreeNode>>) -> int {
    match l {
        Some(n) => n.height as int,
        None => 0,
    }
}

/// The stored hash of a subtree; an absent one stands as `"0"`.
pub open spec fn link_hash(l: Option<Box<CryptoTreeNode>>) -> Seq<char> {
    match l {
        Some(n) => n.hash@,
        None => "0"@,
    }
}

/// The records of a subtree, by key.
pub open spec fn content(l: Option<Box<CryptoTreeNode>>) -> Map<Seq<char>, TransactionView>
    decreases l,
{
    match l {
        Some(n) => content(n.left).union_prefer_right(content(n.right)).insert(
            n.transaction.id@,
            n.transaction@,
        ),
        None => Map::empty(),
    }
}

/// The number of nodes of a subtree.
pub open spec fn size(l: Option<Box<CryptoTreeNode>>) -> nat
    decreases l,
{
    match l {
        Some(n) => 1 + size(n.left) + size(n.right),
        None => 0,
    }
}

/// Keys on the left sort before the node's key, keys on the right after it.
pub open spec fn ordered_at(n: CryptoTreeNode) -> bool {
    &&& forall|k: Seq<char>| #[trigger] content(n.left).contains_key(k) ==> key_lt(k, n.transaction.id@)
    &&& forall|k: Seq<char>| #[trigger] content(n.right).contains_key(k) ==> key_lt(n.transaction.id@, k)
}

pub open spec fn height_ok_at(n: CryptoTreeNode) -> bool {
    n.height as int == 1 + max_int(link_height(n.left), link_height(n.right))
}

pub open spec fn balance_of(n: CryptoTreeNode) -> int {
    link_height(n.left) - link_height(n.right)
}

pub open spec fn balanced_at(n: CryptoTreeNode) -> bool {
    -1 <= balance_of(n) <= 1
}

/// Search order, correct heights and AVL balance at every node.
pub open spec fn avl(l: Option<Box<CryptoTreeNode>>) -> bool
    decreases l,
{
    match l {
        Some(n) => {
            &&& ordered_at(*n)
            &&& height_ok_at(*n)
            &&& balanced_at(*n)
            &&& avl(n.left)
            &&& avl(n.right)
        },
        None => true,
    }
}

pub open spec fn hash_ok_at(n: CryptoTreeNode) -> bool {
    n.hash@ == node_digest(n.transaction@, link_hash(n.left), link_hash(n.right), n.height)
}

/// Every node's stored hash is the digest recomputed from its record, its
/// children's stored hashes and its height.
pub open spec fn hashes_ok(l: Option<Box<CryptoTreeNode>>) -> bool
    decreases l,
{
    match l {
        Some(n) => hash_ok_at(*n) && hashes_ok(n.left) && hashes_ok(n.right),
        None => true,
    }
}

/// Some node of the subtree holds key `k` and a stored hash that differs
/// from the digest recomputed from its parts.
pub open spec fn mismatch_at(l: Option<Box<CryptoTreeNode>>, k: Seq<char>) -> bool
    decreases l,
{
    match l {
        Some(n) => (n.transaction.id@ == k && !hash_ok_at(*n)) || mismatch_at(n.left, k) || mismatch_at(n.right, k),
        None => false,
    }
}

/// Every node's stored hash is 64 lowercase hexadecimal digits.
pub open spec fn digests_shaped(l: Option<Box<CryptoTreeNode>>) -> bool
    decreases l,
{
    match l {
        Some(n) => is_digest_text(n.hash@) && digests_shaped(n.left) && digests_shaped(n.right),
        None => true,
    }
}

/// A subtree as the tree keeps it: ordered, balanced, and sealed by its
/// digests.
pub open spec fn sound(l: Option<Box<CryptoTreeNode>>) -> bool {
    avl(l) && hashes_ok(l) && digests_shaped(l)
}

/// The parts of a single node that its own fields decide.
pub open spec fn sound_at(n: CryptoTreeNode) -> bool {
    &&& ordered_at(n)
    &&& height_ok_at(n)
    &&& hash_ok_at(n)
    &&& is_digest_text(n.hash@)
}

/// A subtree that may stand below a node whose height is being computed.
pub open spec fn ready(l: Option<Box<CryptoTreeNode>>) -> bool {
    sound(l) && 0 <= link_height(l) <= 200
}

proof fn lemma_pow2_monotone(a: nat, b: nat)
    requires
        a <= b,
    ensures
        pow2(a) <= pow2(b),
{
    if a < b {
        lemma_pow2_strictly_increases(a, b);
    }
}

/// An AVL subtree of height h holds at least 2^(h/2) - 1 nodes.
proof fn lemma_avl_size(l: Option<Box<CryptoTreeNode>>)
    requires
        avl(l),
    ensures
        link_height(l) >= 0,
        pow2((link_height(l) / 2) as nat) <= size(l) + 1,
    decreases l,
{
    match l {
        Some(n) => {
            lemma_avl_size(n.left);
            lemma_avl_size(n.right);
            let h = link_height(l);
            if h >= 2 {
                let e = (h / 2 - 1) as nat;
                lemma_pow2_monotone(e, (link_height(n.left) / 2) as nat);
                lemma_pow2_monotone(e, (link_height(n.right) / 2) as nat);
                lemma_pow2_unfold((e + 1) as nat);
            } else {
                assert(pow2(0) == 1) by {
                    vstd::arithmetic::power2::lemma_pow2(0);
                    vstd::arithmetic::power::lemma_pow0(2);
                }
            }
        },
        None => {
            vstd::arithmetic::power2::lemma_pow2(0);
            vstd::arithmetic::power::lemma_pow0(2);
        },
    }
}

/// A subtree that fits in memory has a height of at most 129.
proof fn lemma_height_bound(l: Option<Box<CryptoTreeNode>>)
    requires
        avl(l),
        size(l) <= usize::MAX,
    ensures
        0 <= link_height(l) <= 129,
{
    lemma_avl_size(l);
    lemma2_to64();
    if link_height(l) > 129 {
        lemma_pow2_monotone(65, (link_height(l) / 2) as nat);
        lemma_pow2_unfold(65);
    }
}

/// The stored hash of a subtree, or `"0"` for an absent one.
fn child_hash(l: &Option<Box<CryptoTreeNode>>) -> (r: &str)
    ensures
        r@ == link_hash(*l),
{
    match l {
        Some(n) => n.hash.as_str(),
        None => "0",
    }
}

/// The stored height of a subtree, or 0 for an absent one.
fn child_height(l: &Option<Box<CryptoTreeNode>>) -> (r: i32)
    ensures
        r as int == link_height(*l),
{
    match l {
        Some(n) => n.height,
        None => 0,
    }
}

impl CryptoTreeNode {
    /// A leaf holding `transaction`: no children, height 1, and the digest
    /// of the record with both child digests absent.
    pub fn new(transaction: Transaction) -> (r: Self)
        ensures
            r.transaction == transaction,
            r.left is None,
            r.right is None,
            r.height == 1,
            r.hash@ == node_digest(transaction@, "0"@, "0"@, 1),
            sound_at(r),
            sound(Some(Box::new(r))),
    {
        let hash = Self::calculate_hash(&transaction, "0", "0", 1);
        let r = CryptoTreeNode { transaction, left: None, right: None, height: 1, hash };
        assert(avl(r.left) && avl(r.right) && hashes_ok(r.left) && hashes_ok(r.right));
        assert(digests_shaped(r.left) && digests_shaped(r.right));
        assert(ordered_at(r));
        r
    }

    /// The digest of a node with this record, these child digests and this
    /// height.
    pub fn calculate_hash(transaction: &Transaction, left_hash: &str, right_hash: &str, height: i32) -> (r: String)
        ensures
            r@ == node_digest(transaction@, left_hash@, right_hash@, height),
            is_digest_text(r@),
    {
        let mut tx = String::new();
        push_transaction_text(
            &mut tx,
            transaction.id.as_str(),
            transaction.from.as_str(),
            transaction.to.as_str(),
            transaction.amount,
            transaction.timestamp,
        );
        assert(tx@ =~= transaction_text(
            transaction@.id,
            transaction@.from,
            transaction@.to,
            transaction.amount,
            transaction.timestamp,
        ));
        let text = node_text_of(tx.as_str(), left_hash, right_hash, height);
        sha256_hex(text.as_str())
    }

    /// Recomputes this node's digest from its record, its children's stored
    /// digests and its height.
    fn update_hash(&mut self)
        ensures
            final(self).transaction == old(self).transaction,
            final(self).left == old(self).left,
            final(self).right == old(self).right,
            final(self).height == old(self).height,
            hash_ok_at(*final(self)),
            is_digest_text(final(self).hash@),
    {
        let h = Self::calculate_hash(&self.transaction, child_hash(&self.left), child_hash(&self.right), self.height);
        self.hash = h;
    }

    /// Height of the left subtree minus height of the right one.
    fn get_balance_factor(&self) -> (r: i32)
        requires
            0 <= link_height(self.left) <= 1000,
            0 <= link_height(self.right) <= 1000,
        ensures
            r == balance_of(*self),
    {
        child_height(&self.left) - child_height(&self.right)
    }

    /// Recomputes this node's height from its children's stored heights.
    fn update_height(&mut self)
        requires
            0 <= link_height(old(self).left) <= 1000,
            0 <= link_height(old(self).right) <= 1000,
        ensures
            final(self).transaction == old(self).transaction,
            final(self).left == old(self).left,
            final(self).right == old(self).right,
            final(self).hash == old(self).hash,
            height_ok_at(*final(self)),
    {
        let l = child_height(&self.left);
        let r = child_height(&self.right);
        self.height = if l >= r { l + 1 } else { r + 1 };
    }

    /// A node over these children, with its height and digest computed.
    fn join(
        transaction: Transaction,
        left: Option<Box<CryptoTreeNode>>,
        right: Option<Box<CryptoTreeNode>>,
    ) -> (r: Self)
        requires
            0 <= link_height(left) <= 1000,
            0 <= link_height(right) <= 1000,
        ensures
            r.transaction == transaction,
            r.left == left,
            r.right == right,
            height_ok_at(r),
            hash_ok_at(r),
            is_digest_text(r.hash@),
            shape_of(Some(Box::new(r))) == shape_join(transaction@, shape_of(left), shape_of(right)),
    {
        let mut n = CryptoTreeNode { transaction, left, right, height: 0, hash: String::new() };
        n.update_height();
        n.update_hash();
        n
    }
}


/// The mathematical view of a subtree: each node's record, height and
/// stored digest, arranged as in the tree.
pub enum Shape {
    Empty,
    Node { left: Box<Shape>, record: TransactionView, right: Box<Shape>, height: int, hash: Seq<char> },
}

pub open spec fn shape_of(l: Option<Box<CryptoTreeNode>>) -> Shape
    decreases l,
{
    match l {
        Some(n) => Shape::Node {
            left: Box::new(shape_of(n.left)),
            record: n.transaction@,
            right: Box::new(shape_of(n.right)),
            height: n.height as int,
            hash: n.hash@,
        },
        None => Shape::Empty,
    }
}

pub open spec fn shape_height(s: Shape) -> int {
    match s {
        Shape::Node { height, .. } => height,
        Shape::Empty => 0,
    }
}

pub open spec fn shape_hash(s: Shape) -> Seq<char> {
    match s {
        Shape::Node { hash, .. } => hash,
        Shape::Empty => "0"@,
    }
}

pub open spec fn shape_balance(s: Shape) -> int {
    match s {
        Shape::Node { left, right, .. } => shape_height(*left) - shape_height(*right),
        Shape::Empty => 0,
    }
}

/// Whether some node of the view holds key `k`.
pub open spec fn shape_has(s: Shape, k: Seq<char>) -> bool
    decreases s,
{
    match s {
        Shape::Node { left, record, right, .. } => record.id == k || shape_has(*left, k) || shape_has(*right, k),
        Shape::Empty => false,
    }
}

/// A node over two views, with its height and digest computed.
pub open spec fn shape_join(record: TransactionView, left: Shape, right: Shape) -> Shape {
    let h = 1 + max_int(shape_height(left), shape_height(right));
    Shape::Node {
        left: Box::new(left),
        record,
        right: Box::new(right),
        height: h,
        hash: node_digest(record, shape_hash(left), shape_hash(right), h as i32),
    }
}

/// Right rotation of a view whose root has a left child.
#[verifier::opaque]
pub open spec fn shape_rotate_right(s: Shape) -> Shape {
    match s {
        Shape::Node { left, record: zr, right: t3, .. } => match *left {
            Shape::Node { left: t1, record: yr, right: t2, .. } => shape_join(yr, *t1, shape_join(zr, *t2, *t3)),
            Shape::Empty => s,
        },
        Shape::Empty => s,
    }
}

/// Left rotation of a view whose root has a right child.
#[verifier::opaque]
pub open spec fn shape_rotate_left(s: Shape) -> Shape {
    match s {
        Shape::Node { left: t1, record: zr, right, .. } => match *right {
            Shape::Node { left: t2, record: yr, right: t3, .. } => shape_join(yr, shape_join(zr, *t1, *t2), *t3),
            Shape::Empty => s,
        },
        Shape::Empty => s,
    }
}

/// The node over `record`, `left` and `right` after the AVL fix-up: the
/// rotations that its balance factor calls for, then fresh heights and
/// digests.
#[verifier::opaque]
pub open spec fn shape_fix(record: TransactionView, left: Shape, right: Shape) -> Shape {
    let b = shape_height(left) - shape_height(right);
    if b > 1 {
        let l2 = if shape_balance(left) < 0 { shape_rotate_left(left) } else { left };
        shape_rotate_right(shape_join(record, l2, right))
    } else if b < -1 {
        let r2 = if shape_balance(right) > 0 { shape_rotate_right(right) } else { right };
        shape_rotate_left(shape_join(record, left, r2))
    } else {
        shape_join(record, left, right)
    }
}

/// The view after inserting record `t`: unchanged when its key is present,
/// else a new leaf placed by key with every node on the way fixed up.
#[verifier::opaque]
pub open spec fn shape_insert(s: Shape, t: TransactionView) -> Shape
    decreases s,
{
    if shape_has(s, t.id) {
        s
    } else {
        match s {
            Shape::Node { left, record, right, .. } => if key_lt(t.id, record.id) {
                shape_fix(record, shape_insert(*left, t), *right)
            } else {
                shape_fix(record, *left, shape_insert(*right, t))
            },
            Shape::Empty => shape_join(t, Shape::Empty, Shape::Empty),
        }
    }
}

/// The view of the tree built by inserting `txs` in order into an empty one.
pub open spec fn shape_built(txs: Seq<TransactionView>) -> Shape
    decreases txs.len(),
{
    if txs.len() == 0 {
        Shape::Empty
    } else {
        shape_insert(shape_built(txs.drop_last()), txs.last())
    }
}

proof fn lemma_shape_link(l: Option<Box<CryptoTreeNode>>)
    ensures
        shape_height(shape_of(l)) == link_height(l),
        shape_hash(shape_of(l)) == link_hash(l),
        l is Some ==> shape_balance(shape_of(l)) == balance_of(*l.unwrap()),
{
    if let Some(n) = l {
        assert(shape_height(shape_of(n.left)) == link_height(n.left));
        assert(shape_height(shape_of(n.right)) == link_height(n.right));
    }
}

proof fn lemma_shape_has(l: Option<Box<CryptoTreeNode>>, k: Seq<char>)
    ensures
        shape_has(shape_of(l), k) == content(l).contains_key(k),
    decreases l,
{
    if let Some(n) = l {
        lemma_shape_has(n.left, k);
        lemma_shape_has(n.right, k);
    }
}

/// The tree: an optional root, the number of records, and the root's digest
/// (`"0"` while empty).
#[derive(Debug)]
pub struct CryptoBinaryTree {
    root: Option<Box<CryptoTreeNode>>,
    size: usize,
    merkle_root: String,
}

/// The subtrees of a ready subtree are ready.
proof fn lemma_ready_children(l: Option<Box<CryptoTreeNode>>)
    requires
        ready(l),
        l is Some,
    ensures
        ready(l.unwrap().left),
        ready(l.unwrap().right),
        link_height(l.unwrap().left) < link_height(l),
        link_height(l.unwrap().right) < link_height(l),
{
    lemma_avl_size(l.unwrap().left);
    lemma_avl_size(l.unwrap().right);
}

/// The balance factor of a subtree's root; 0 for an absent one.
fn child_balance(l: &Option<Box<CryptoTreeNode>>) -> (r: i32)
    requires
        ready(*l),
    ensures
        r == match *l {
            Some(n) => balance_of(*n),
            None => 0,
        },
{
    proof {
        if l is Some {
            lemma_ready_children(*l);
        }
    }
    match l {
        Some(n) => n.get_balance_factor(),
        None => 0,
    }
}

impl CryptoBinaryTree {
    /// Right rotation at `z`: its left child `y` moves up, `z` becomes `y`'s
    /// right child and takes `y`'s former right subtree as its left one.
    #[verifier::spinoff_prover]
    #[verifier::rlimit(50)]
    fn rotate_right(z: CryptoTreeNode) -> (r: CryptoTreeNode)
        requires
            z.left is Some,
            ready(z.left.unwrap().left),
            ready(z.left.unwrap().right),
            ready(z.right),
            ordered_at(z),
            ordered_at(*z.left.unwrap()),
        ensures
            r.transaction == z.left.unwrap().transaction,
            r.left == z.left.unwrap().left,
            r.right is Some,
            r.right.unwrap().transaction == z.transaction,
            r.right.unwrap().left == z.left.unwrap().right,
            r.right.unwrap().right == z.right,
            sound_at(*r.right.unwrap()),
            sound_at(r),
            shape_of(Some(Box::new(r))) == shape_rotate_right(shape_of(Some(Box::new(z)))),
            content(Some(Box::new(r))) == content(Some(Box::new(z))),
            size(Some(Box::new(r))) == size(Some(Box::new(z))),
    {
        let CryptoTreeNode { transaction: zt, left: zl, right: zr, height: _zh, hash: _zd } = z;
        let y = *zl.unwrap();
        let CryptoTreeNode { transaction: yt, left: yl, right: yr, height: _yh, hash: _yd } = y;
        let nz = CryptoTreeNode::join(zt, yr, zr);
        let ny = CryptoTreeNode::join(yt, yl, Some(Box::new(nz)));
        proof {
            lemma_key_order();
            let yn = *z.left.unwrap();
            let zk = z.transaction.id@;
            let yk = yn.transaction.id@;
            let c1 = content(yn.left);
            let c2 = content(yn.right);
            let c3 = content(z.right);
            assert(content(z.left) == c1.union_prefer_right(c2).insert(yk, yn.transaction@));
            assert(content(ny.right) == c2.union_prefer_right(c3).insert(zk, z.transaction@));
            assert(content(z.left).contains_key(yk));
            assert(key_lt(yk, zk));
            assert forall|k: Seq<char>| #[trigger] c1.contains_key(k) implies key_lt(k, zk) && !c2.contains_key(k) by {
                assert(content(z.left).contains_key(k));
                assert(key_lt(k, yk));
                if c2.contains_key(k) {
                    assert(key_lt(yk, k));
                }
            }
            assert forall|k: Seq<char>| #[trigger] c2.contains_key(k) implies key_lt(k, zk) by {
                assert(content(z.left).contains_key(k));
            }
            assert forall|k: Seq<char>| #[trigger] c3.contains_key(k) implies key_lt(yk, k) by {
                assert(key_lt(zk, k));
            }
            assert forall|k: Seq<char>| #[trigger] content(ny.right).contains_key(k) implies key_lt(yk, k) by {
                if c3.contains_key(k) {
                    assert(key_lt(zk, k));
                }
            }
            assert(content(Some(Box::new(ny))) =~= content(Some(Box::new(z))));
            assert(size(z.left) == 1 + size(yn.left) + size(yn.right));
            assert(size(ny.right) == 1 + size(yn.right) + size(z.right));
            let sy = shape_of(z.left);
            assert(sy == Shape::Node {
                left: Box::new(shape_of(yn.left)),
                record: yn.transaction@,
                right: Box::new(shape_of(yn.right)),
                height: yn.height as int,
                hash: yn.hash@,
            });
            reveal(shape_rotate_right);
            assert(shape_rotate_right(shape_of(Some(Box::new(z)))) == shape_join(
                yn.transaction@,
                shape_of(yn.left),
                shape_join(z.transaction@, shape_of(yn.right), shape_of(z.right)),
            ));
        }
        ny
    }

    /// Left rotation at `z`: its right child `y` moves up, `z` becomes `y`'s
    /// left child and takes `y`'s former left subtree as its right one.
    #[verifier::spinoff_prover]
    #[verifier::rlimit(50)]
    fn rotate_left(z: CryptoTreeNode) -> (r: CryptoTreeNode)
        requires
            z.right is Some,
            ready(z.left),
            ready(z.right.unwrap().left),
            ready(z.right.unwrap().right),
            ordered_at(z),
            ordered_at(*z.right.unwrap()),
        ensures
            r.transaction == z.right.unwrap().transaction,
            r.right == z.right.unwrap().right,
            r.left is Some,
            r.left.unwrap().transaction == z.transaction,
            r.left.unwrap().left == z.left,
            r.left.unwrap().right == z.right.unwrap().left,
            sound_at(*r.left.unwrap()),
            sound_at(r),
            shape_of(Some(Box::new(r))) == shape_rotate_left(shape_of(Some(Box::new(z)))),
            content(Some(Box::new(r))) == content(Some(Box::new(z))),
            size(Some(Box::new(r))) == size(Some(Box::new(z))),
    {
        let CryptoTreeNode { transaction: zt, left: zl, right: zr, height: _zh, hash: _zd } = z;
        let y = *zr.unwrap();
        let CryptoTreeNode { transaction: yt, left: yl, right: yr, height: _yh, hash: _yd } = y;
        let nz = CryptoTreeNode::join(zt, zl, yl);
        let ny = CryptoTreeNode::join(yt, Some(Box::new(nz)), yr);
        proof {
            lemma_key_order();
            let yn = *z.right.unwrap();
            let zk = z.transaction.id@;
            let yk = yn.transaction.id@;
            let c1 = content(z.left);
            let c2 = content(yn.left);
            let c3 = content(yn.right);
            assert(content(z.right) == c2.union_prefer_right(c3).insert(yk, yn.transaction@));
            assert(content(ny.left) == c1.union_prefer_right(c2).insert(zk, z.transaction@));
            assert(content(z.right).contains_key(yk));
            assert(key_lt(zk, yk));
            assert forall|k: Seq<char>| #[trigger] c3.contains_key(k) implies key_lt(zk, k) && !c2.contains_key(k) by {
                assert(content(z.right).contains_key(k));
                assert(key_lt(yk, k));
                if c2.contains_key(k) {
                    assert(key_lt(k, yk));
                }
            }
            assert forall|k: Seq<char>| #[trigger] c2.contains_key(k) implies key_lt(zk, k) by {
                assert(content(z.right).contains_key(k));
            }
            assert forall|k: Seq<char>| #[trigger] c1.contains_key(k) implies key_lt(k, yk) by {
                assert(key_lt(k, zk));
            }
            assert forall|k: Seq<char>| #[trigger] content(ny.left).contains_key(k) implies key_lt(k, yk) by {
                if c1.contains_key(k) {
                    assert(key_lt(k, zk));
                }
            }
            assert(content(Some(Box::new(ny))) =~= content(Some(Box::new(z))));
            assert(size(z.right) == 1 + size(yn.left) + size(yn.right));
            assert(size(ny.left) == 1 + size(z.left) + size(yn.left));
            let sy = shape_of(z.right);
            assert(sy == Shape::Node {
                left: Box::new(shape_of(yn.left)),
                record: yn.transaction@,
                right: Box::new(shape_of(yn.right)),
                height: yn.height as int,
                hash: yn.hash@,
            });
            reveal(shape_rotate_left);
            assert(shape_rotate_left(shape_of(Some(Box::new(z)))) == shape_join(
                yn.transaction@,
                shape_join(z.transaction@, shape_of(z.left), shape_of(yn.left)),
                shape_of(yn.right),
            ));
        }
        ny
    }
    /// Restores AVL balance at a node whose subtrees are sound and whose
    /// balance factor is at most 2 away from zero. The result's own digest
    /// is left for the caller to recompute.
    #[verifier::spinoff_prover]
    #[verifier::rlimit(50)]
    fn balance_node(node: CryptoTreeNode) -> (r: CryptoTreeNode)
        requires
            ready(node.left),
            ready(node.right),
            ordered_at(node),
            height_ok_at(node),
            -2 <= balance_of(node) <= 2,
        ensures
            avl(Some(Box::new(r))),
            hashes_ok(r.left),
            hashes_ok(r.right),
            digests_shaped(r.left),
            digests_shaped(r.right),
            content(Some(Box::new(r))) == content(Some(Box::new(node))),
            size(Some(Box::new(r))) == size(Some(Box::new(node))),
            balanced_at(node) ==> r == node,
            !balanced_at(node) ==> hash_ok_at(r),
            !balanced_at(node) ==> shape_of(Some(Box::new(r))) == shape_fix(
                node.transaction@,
                shape_of(node.left),
                shape_of(node.right),
            ),
            node.height - 1 <= r.height <= node.height,
    {
        let balance = node.get_balance_factor();
        let ghost unbalanced = node;
        if balance > 1 {
            let mut node = node;
            let ghost y = *node.left.unwrap();
            proof {
                lemma_shape_link(node.left);
            }
            if child_balance(&node.left) < 0 {
                proof {
                    lemma_ready_children(node.left);
                    lemma_ready_children(y.right);
                }
                let left = *node.left.unwrap();
                let ghost x = *y.right.unwrap();
                let nl = Self::rotate_left(left);
                proof {
                    let ny = *nl.left.unwrap();
                    assert(avl(Some(Box::new(ny))));
                    assert(hashes_ok(Some(Box::new(ny))));
                    assert(digests_shaped(Some(Box::new(ny))));
                    assert(sound(x.right));
                }
                node.left = Some(Box::new(nl));
            }
            let ghost l2 = if shape_balance(shape_of(unbalanced.left)) < 0 {
                shape_rotate_left(shape_of(unbalanced.left))
            } else {
                shape_of(unbalanced.left)
            };
            assert(shape_of(node.left) == l2);
            assert(shape_rotate_right(shape_of(Some(Box::new(node)))) == shape_rotate_right(
                shape_join(node.transaction@, l2, shape_of(node.right)),
            )) by {
                reveal(shape_rotate_right);
            }
            let r = Self::rotate_right(node);
            proof {
                reveal(shape_fix);
                lemma_shape_link(unbalanced.left);
                lemma_shape_link(unbalanced.right);
                let nz = *r.right.unwrap();
                assert(avl(Some(Box::new(nz))));
                assert(hashes_ok(Some(Box::new(nz))));
            }
            r
        } else if balance < -1 {
            let mut node = node;
            let ghost y = *node.right.unwrap();
            proof {
                lemma_shape_link(node.right);
            }
            if child_balance(&node.right) > 0 {
                proof {
                    lemma_ready_children(node.right);
                    lemma_ready_children(y.left);
                }
                let right = *node.right.unwrap();
                let ghost x = *y.left.unwrap();
                let nr = Self::rotate_right(right);
                proof {
                    let ny = *nr.right.unwrap();
                    assert(avl(Some(Box::new(ny))));
                    assert(hashes_ok(Some(Box::new(ny))));
                    assert(digests_shaped(Some(Box::new(ny))));
                    assert(sound(x.left));
                }
                node.right = Some(Box::new(nr));
            }
            let ghost r2 = if shape_balance(shape_of(unbalanced.right)) > 0 {
                shape_rotate_right(shape_of(unbalanced.right))
            } else {
                shape_of(unbalanced.right)
            };
            assert(shape_of(node.right) == r2);
            assert(shape_rotate_left(shape_of(Some(Box::new(node)))) == shape_rotate_left(
                shape_join(node.transaction@, shape_of(node.left), r2),
            )) by {
                reveal(shape_rotate_left);
            }
            let r = Self::rotate_left(node);
            proof {
                reveal(shape_fix);
                lemma_shape_link(unbalanced.left);
                lemma_shape_link(unbalanced.right);
                let nz = *r.left.unwrap();
                assert(avl(Some(Box::new(nz))));
                assert(hashes_ok(Some(Box::new(nz))));
            }
            r
        } else {
            node
        }
    }
}

impl CryptoBinaryTree {
    /// The root subtree.
    pub closed spec fn root_node(&self) -> Option<Box<CryptoTreeNode>> {
        self.root
    }

    /// The element count that the tree keeps.
    pub closed spec fn count(&self) -> nat {
        self.size as nat
    }

    /// The root digest that the tree keeps.
    pub closed spec fn root_digest(&self) -> Seq<char> {
        self.merkle_root@
    }

    /// The records of the tree, by key.
    pub open spec fn records(&self) -> Map<Seq<char>, TransactionView> {
        content(self.root_node())
    }

    /// The view of the whole tree.
    pub open spec fn shape(&self) -> Shape {
        shape_of(self.root_node())
    }

    /// The tree is ordered, balanced and sealed, its count is its number of
    /// nodes, and its root digest mirrors the root's (`"0"` when empty).
    pub open spec fn wf(&self) -> bool {
        &&& sound(self.root_node())
        &&& self.count() == size(self.root_node())
        &&& self.root_digest() == link_hash(self.root_node())
    }

    /// An empty tree, whose root digest is `"0"`.
    pub fn new() -> (r: Self)
        ensures
            r.wf(),
            r.records() == Map::<Seq<char>, TransactionView>::empty(),
            r.count() == 0,
            r.root_digest() == "0"@,
            r.shape() == Shape::Empty,
    {
        CryptoBinaryTree { root: None, size: 0, merkle_root: String::from_str("0") }
    }

    /// Adds `transaction` under its id unless that id is already present.
    /// Returns whether it was added; when it was not, the tree is unchanged.
    pub fn insert(&mut self, transaction: Transaction) -> (r: bool)
        requires
            old(self).wf(),
            old(self).count() < usize::MAX,
        ensures
            final(self).wf(),
            r == !old(self).records().contains_key(transaction.id@),
            r ==> final(self).records() == old(self).records().insert(transaction.id@, transaction@),
            r ==> final(self).count() == old(self).count() + 1,
            !r ==> *final(self) == *old(self),
            final(self).shape() == shape_insert(old(self).shape(), transaction@),
    {
        let root = self.root.take();
        let (root, inserted) = Self::insert_recursive(root, transaction);
        self.root = root;
        if inserted {
            self.size = self.size + 1;
            self.update_merkle_root();
        }
        inserted
    }

    fn update_merkle_root(&mut self)
        ensures
            final(self).root == old(self).root,
            final(self).size == old(self).size,
            final(self).root_digest() == link_hash(final(self).root),
    {
        self.merkle_root = match &self.root {
            Some(n) => n.hash.clone(),
            None => String::from_str("0"),
        };
    }

    /// The node over `transaction`, `left` and `right` after an insertion
    /// below it: height recomputed, balance restored, digest recomputed.
    #[verifier::spinoff_prover]
    #[verifier::rlimit(50)]
    fn fix_up(
        transaction: Transaction,
        left: Option<Box<CryptoTreeNode>>,
        right: Option<Box<CryptoTreeNode>>,
    ) -> (r: CryptoTreeNode)
        requires
            ready(left),
            ready(right),
            forall|k: Seq<char>| #[trigger] content(left).contains_key(k) ==> key_lt(k, transaction.id@),
            forall|k: Seq<char>| #[trigger] content(right).contains_key(k) ==> key_lt(transaction.id@, k),
            -2 <= link_height(left) - link_height(right) <= 2,
        ensures
            sound(Some(Box::new(r))),
            content(Some(Box::new(r))) == content(left).union_prefer_right(content(right)).insert(
                transaction.id@,
                transaction@,
            ),
            size(Some(Box::new(r))) == 1 + size(left) + size(right),
            shape_of(Some(Box::new(r))) == shape_fix(transaction@, shape_of(left), shape_of(right)),
            max_int(link_height(left), link_height(right)) <= r.height <= 1 + max_int(
                link_height(left),
                link_height(right),
            ),
            -1 <= link_height(left) - link_height(right) <= 1 ==> r.height == 1 + max_int(
                link_height(left),
                link_height(right),
            ),
    {
        let mut m = CryptoTreeNode { transaction, left, right, height: 0, hash: String::new() };
        m.update_height();
        let ghost m0 = m;
        let mut m = Self::balance_node(m);
        let ghost mb = m;
        m.update_hash();
        proof {
            lemma_shape_link(m0.left);
            lemma_shape_link(m0.right);
            reveal(shape_fix);
            if !balanced_at(m0) {
                assert(m.hash@ == mb.hash@);
                assert(shape_of(Some(Box::new(m))) == shape_of(Some(Box::new(mb))));
            }
            assert(avl(Some(Box::new(m))));
            assert(content(Some(Box::new(m))) == content(Some(Box::new(mb))));
        }
        m
    }

    #[verifier::spinoff_prover]
    #[verifier::rlimit(50)]
    fn insert_recursive(node: Option<Box<CryptoTreeNode>>, transaction: Transaction) -> (res: (
        Option<Box<CryptoTreeNode>>,
        bool,
    ))
        requires
            sound(node),
            size(node) < usize::MAX,
        ensures
            sound(res.0),
            res.1 == !content(node).contains_key(transaction.id@),
            res.1 ==> content(res.0) == content(node).insert(transaction.id@, transaction@),
            res.1 ==> size(res.0) == size(node) + 1,
            !res.1 ==> res.0 == node,
            shape_of(res.0) == shape_insert(shape_of(node), transaction@),
            link_height(node) <= link_height(res.0) <= link_height(node) + 1,
        decreases node,
    {
        proof {
            lemma_key_order();
            lemma_shape_has(node, transaction.id@);
        }
        match node {
            None => {
                let n = CryptoTreeNode::new(transaction);
                proof {
                    reveal(shape_insert);
                }
                (Some(Box::new(n)), true)
            },
            Some(b) => {
                let n = *b;
                proof {
                    lemma_height_bound(n.left);
                    lemma_height_bound(n.right);
                }
                let order = compare_keys(transaction.id.as_str(), n.transaction.id.as_str());
                match order {
                    Ordering::Equal => {
                        proof {
                            reveal(shape_insert);
                        }
                        (Some(Box::new(n)), false)
                    },
                    Ordering::Less => {
                        let ghost k = transaction.id@;
                        let ghost tv = transaction@;
                        let CryptoTreeNode { transaction: t, left, right, height, hash } = n;
                        let (left, inserted) = Self::insert_recursive(left, transaction);
                        if !inserted {
                            proof {
                                reveal(shape_insert);
                            }
                            return (Some(Box::new(CryptoTreeNode { transaction: t, left, right, height, hash })), false);
                        }
                        proof {
                            lemma_height_bound(left);
                            assert(!content(right).contains_key(k));
                        }
                        let m = Self::fix_up(t, left, right);
                        proof {
                            assert(content(Some(Box::new(m))) =~= content(node).insert(k, tv));
                            reveal(shape_insert);
                        }
                        (Some(Box::new(m)), true)
                    },
                    Ordering::Greater => {
                        let ghost k = transaction.id@;
                        let ghost tv = transaction@;
                        let CryptoTreeNode { transaction: t, left, right, height, hash } = n;
                        let (right, inserted) = Self::insert_recursive(right, transaction);
                        if !inserted {
                            proof {
                                reveal(shape_insert);
                            }
                            return (Some(Box::new(CryptoTreeNode { transaction: t, left, right, height, hash })), false);
                        }
                        proof {
                            lemma_height_bound(right);
                            assert(!content(left).contains_key(k));
                        }
                        let m = Self::fix_up(t, left, right);
                        proof {
                            assert(content(Some(Box::new(m))) =~= content(node).insert(k, tv));
                            reveal(shape_insert);
                        }
                        (Some(Box::new(m)), true)
                    },
                }
            },
        }
    }
}

/// One step of an inclusion proof: the side (`"left"` or `"right"`) on which
/// a sibling subtree hangs, and that sibling's digest.
#[derive(Debug, Clone)]
pub struct ProofStep {
    pub side: String,
    pub hash: String,
}

impl View for ProofStep {
    type V = (Seq<char>, Seq<char>);

    open spec fn view(&self) -> (Seq<char>, Seq<char>) {
        (self.side@, self.hash@)
    }
}

/// The proof step for a sibling subtree on `side`: none when it is absent.
pub open spec fn sibling_step(side: Seq<char>, l: Option<Box<CryptoTreeNode>>) -> Seq<(Seq<char>, Seq<char>)> {
    match l {
        Some(s) => seq![(side, s.hash@)],
        None => Seq::empty(),
    }
}

/// The sibling digests met while descending from `l` toward key `k`, in
/// root-to-leaf order.
pub open spec fn proof_path(l: Option<Box<CryptoTreeNode>>, k: Seq<char>) -> Seq<(Seq<char>, Seq<char>)>
    decreases l,
{
    match l {
        Some(n) => if k == n.transaction.id@ {
            Seq::empty()
        } else if key_lt(k, n.transaction.id@) {
            sibling_step("right"@, n.right) + proof_path(n.left, k)
        } else {
            sibling_step("left"@, n.left) + proof_path(n.right, k)
        },
        None => Seq::empty(),
    }
}

pub open spec fn steps_view(v: Seq<ProofStep>) -> Seq<(Seq<char>, Seq<char>)> {
    v.map_values(|p: ProofStep| p@)
}

impl CryptoBinaryTree {
    /// The record stored under `tx_id`, if any.
    pub fn search<'a>(&'a self, tx_id: &str) -> (r: Option<&'a Transaction>)
        requires
            self.wf(),
        ensures
            match r {
                Some(t) => self.records().contains_key(tx_id@) && t@ == self.records()[tx_id@],
                None => !self.records().contains_key(tx_id@),
            },
    {
        Self::search_recursive(&self.root, tx_id)
    }

    fn search_recursive<'a>(node: &'a Option<Box<CryptoTreeNode>>, tx_id: &str) -> (r: Option<&'a Transaction>)
        requires
            avl(*node),
        ensures
            match r {
                Some(t) => content(*node).contains_key(tx_id@) && t@ == content(*node)[tx_id@],
                None => !content(*node).contains_key(tx_id@),
            },
        decreases *node,
    {
        proof {
            lemma_key_order();
        }
        match node {
            None => None,
            Some(n) => {
                match compare_keys(tx_id, n.transaction.id.as_str()) {
                    Ordering::Equal => Some(&n.transaction),
                    Ordering::Less => {
                        let r = Self::search_recursive(&n.left, tx_id);
                        proof {
                            if content(n.right).contains_key(tx_id@) {
                                assert(key_lt(n.transaction.id@, tx_id@));
                            }
                        }
                        r
                    },
                    Ordering::Greater => {
                        let r = Self::search_recursive(&n.right, tx_id);
                        proof {
                            if content(n.left).contains_key(tx_id@) {
                                assert(key_lt(tx_id@, n.transaction.id@));
                            }
                        }
                        r
                    },
                }
            },
        }
    }

    /// Whether every node's stored digest equals the digest recomputed from
    /// its record, its children's stored digests and its height.
    pub fn verify_integrity(&self) -> (r: bool)
        ensures
            r == hashes_ok(self.root_node()),
            self.wf() ==> r,
    {
        Self::verify_recursive(&self.root)
    }

    fn verify_recursive(node: &Option<Box<CryptoTreeNode>>) -> (r: bool)
        ensures
            r == hashes_ok(*node),
        decreases *node,
    {
        match node {
            None => true,
            Some(n) => {
                let expected = CryptoTreeNode::calculate_hash(
                    &n.transaction,
                    child_hash(&n.left),
                    child_hash(&n.right),
                    n.height,
                );
                if n.hash != expected {
                    return false;
                }
                Self::verify_recursive(&n.left) && Self::verify_recursive(&n.right)
            },
        }
    }

    /// The sibling digests along the search path of `tx_id`, root first, when
    /// `tx_id` is present.
    pub fn get_proof_of_inclusion(&self, tx_id: &str) -> (r: Option<Vec<ProofStep>>)
        requires
            self.wf(),
        ensures
            r is Some == self.records().contains_key(tx_id@),
            r is Some ==> steps_view(r.unwrap()@) == proof_path(self.root_node(), tx_id@),
    {
        let mut proof = Vec::new();
        if Self::get_proof_recursive(&self.root, tx_id, &mut proof) {
            assert(steps_view(proof@) =~= Seq::<(Seq<char>, Seq<char>)>::empty() + proof_path(self.root, tx_id@));
            Some(proof)
        } else {
            None
        }
    }

    fn get_proof_recursive(node: &Option<Box<CryptoTreeNode>>, tx_id: &str, proof: &mut Vec<ProofStep>) -> (r: bool)
        requires
            avl(*node),
        ensures
            r == content(*node).contains_key(tx_id@),
            steps_view(final(proof)@) == steps_view(old(proof)@) + proof_path(*node, tx_id@),
        decreases *node,
    {
        proof {
            lemma_key_order();
        }
        match node {
            None => {
                assert(steps_view(proof@) =~= steps_view(proof@) + Seq::<(Seq<char>, Seq<char>)>::empty());
                false
            },
            Some(n) => {
                match compare_keys(tx_id, n.transaction.id.as_str()) {
                    Ordering::Equal => {
                        assert(steps_view(proof@) =~= steps_view(proof@) + Seq::<(Seq<char>, Seq<char>)>::empty());
                        true
                    },
                    Ordering::Less => {
                        let ghost before = steps_view(proof@);
                        if let Some(right) = &n.right {
                            proof.push(ProofStep { side: String::from_str("right"), hash: right.hash.clone() });
                        }
                        let ghost mid = steps_view(proof@);
                        assert(mid =~= before + sibling_step("right"@, n.right));
                        let r = Self::get_proof_recursive(&n.left, tx_id, proof);
                        proof {
                            if content(n.right).contains_key(tx_id@) {
                                assert(key_lt(n.transaction.id@, tx_id@));
                            }
                            assert(steps_view(proof@) =~= before + proof_path(*node, tx_id@));
                        }
                        r
                    },
                    Ordering::Greater => {
                        let ghost before = steps_view(proof@);
                        if let Some(left) = &n.left {
                            proof.push(ProofStep { side: String::from_str("left"), hash: left.hash.clone() });
                        }
                        let ghost mid = steps_view(proof@);
                        assert(mid =~= before + sibling_step("left"@, n.left));
                        let r = Self::get_proof_recursive(&n.right, tx_id, proof);
                        proof {
                            if content(n.left).contains_key(tx_id@) {
                                assert(key_lt(tx_id@, n.transaction.id@));
                            }
                            assert(steps_view(proof@) =~= before + proof_path(*node, tx_id@));
                        }
                        r
                    },
                }
            },
        }
    }

    /// The key of the first node, in pre-order, whose stored digest differs
    /// from the digest recomputed from its record, its children's stored
    /// digests and its height; `None` when every node checks out.
    pub fn find_mismatch(&self) -> (r: Option<String>)
        ensures
            r is None == hashes_ok(self.root_node()),
            r is Some ==> mismatch_at(self.root_node(), r.unwrap()@),
    {
        Self::mismatch_recursive(&self.root)
    }

    fn mismatch_recursive(node: &Option<Box<CryptoTreeNode>>) -> (r: Option<String>)
        ensures
            r is None == hashes_ok(*node),
            r is Some ==> mismatch_at(*node, r.unwrap()@),
        decreases *node,
    {
        match node {
            None => None,
            Some(n) => {
                let expected = CryptoTreeNode::calculate_hash(
                    &n.transaction,
                    child_hash(&n.left),
                    child_hash(&n.right),
                    n.height,
                );
                if n.hash != expected {
                    return Some(n.transaction.id.clone());
                }
                match Self::mismatch_recursive(&n.left) {
                    Some(k) => Some(k),
                    None => Self::mismatch_recursive(&n.right),
                }
            },
        }
    }

    /// The number of records.
    pub fn len(&self) -> (r: usize)
        ensures
            r == self.count(),
    {
        self.size
    }

    /// Whether the tree holds no record.
    pub fn is_empty(&self) -> (r: bool)
        ensures
            r == (self.count() == 0),
    {
        self.size == 0
    }

    /// The height of the tree: the number of nodes on its longest path from
    /// the root, 0 when empty.
    pub fn height(&self) -> (r: i32)
        ensures
            r == link_height(self.root_node()),
    {
        child_height(&self.root)
    }

    /// The root's digest, or `"0"` while the tree is empty.
    pub fn merkle_root(&self) -> (r: &str)
        ensures
            r@ == self.root_digest(),
    {
        self.merkle_root.as_str()
    }
}

/// The keys of a subtree in in-order (left, node, right).
pub open spec fn inorder_keys(l: Option<Box<CryptoTreeNode>>) -> Seq<Seq<char>>
    decreases l,
{
    match l {
        Some(n) => inorder_keys(n.left).push(n.transaction.id@) + inorder_keys(n.right),
        None => Seq::empty(),
    }
}

/// Every key met in in-order is a key of the subtree.
pub proof fn lemma_inorder_keys_present(l: Option<Box<CryptoTreeNode>>)
    ensures
        forall|i: int| 0 <= i < inorder_keys(l).len() ==> content(l).contains_key(#[trigger] inorder_keys(l)[i]),
    decreases l,
{
    if let Some(n) = l {
        lemma_inorder_keys_present(n.left);
        lemma_inorder_keys_present(n.right);
        let a = inorder_keys(n.left);
        let b = inorder_keys(n.right);
        assert forall|i: int| 0 <= i < inorder_keys(l).len() implies content(l).contains_key(#[trigger] inorder_keys(l)[i]) by {
            if i < a.len() {
                assert(inorder_keys(l)[i] == a[i]);
            } else if i > a.len() {
                assert(inorder_keys(l)[i] == b[i - a.len() - 1]);
            }
        }
    }
}

/// In-order traversal of an ordered subtree yields strictly increasing keys,
/// so no key occurs twice.
pub proof fn lemma_inorder_sorted(l: Option<Box<CryptoTreeNode>>)
    requires
        avl(l),
    ensures
        forall|i: int, j: int|
            0 <= i < j < inorder_keys(l).len() ==> key_lt(#[trigger] inorder_keys(l)[i], #[trigger] inorder_keys(l)[j]),
    decreases l,
{
    if let Some(n) = l {
        lemma_key_order();
        lemma_inorder_sorted(n.left);
        lemma_inorder_sorted(n.right);
        lemma_inorder_keys_present(n.left);
        lemma_inorder_keys_present(n.right);
        let a = inorder_keys(n.left);
        let b = inorder_keys(n.right);
        let k = n.transaction.id@;
        let s = inorder_keys(l);
        assert forall|i: int, j: int| 0 <= i < j < s.len() implies key_lt(#[trigger] s[i], #[trigger] s[j]) by {
            let m = a.len() as int;
            if j < m {
                assert(s[i] == a[i] && s[j] == a[j]);
            } else if i > m {
                assert(s[i] == b[i - m - 1] && s[j] == b[j - m - 1]);
            } else if i < m && j == m {
                assert(s[i] == a[i] && s[j] == k);
                assert(content(n.left).contains_key(a[i]));
            } else if i == m {
                assert(s[i] == k && s[j] == b[j - m - 1]);
                assert(content(n.right).contains_key(b[j - m - 1]));
            } else {
                assert(s[i] == a[i] && s[j] == b[j - m - 1]);
                assert(content(n.left).contains_key(a[i]));
                assert(content(n.right).contains_key(b[j - m - 1]));
                assert(key_lt(a[i], k));
            }
        }
    }
}

/// The keys of a well-formed tree, read in in-order, are strictly
/// increasing: sorted, with no key twice.
pub proof fn lemma_tree_keys_sorted(t: &CryptoBinaryTree)
    requires
        t.wf(),
    ensures
        forall|i: int, j: int|
            0 <= i < j < inorder_keys(t.root_node()).len() ==> key_lt(
                #[trigger] inorder_keys(t.root_node())[i],
                #[trigger] inorder_keys(t.root_node())[j],
            ),
{
    lemma_inorder_sorted(t.root_node());
}

/// Each step of a proof path names the side `"left"` or `"right"` and
/// carries 64 lowercase hexadecimal digits.
pub proof fn lemma_proof_path_shape(l: Option<Box<CryptoTreeNode>>, k: Seq<char>)
    requires
        digests_shaped(l),
    ensures
        forall|i: int| 0 <= i < proof_path(l, k).len() ==> {
            let step = #[trigger] proof_path(l, k)[i];
            (step.0 == "left"@ || step.0 == "right"@) && is_digest_text(step.1)
        },
    decreases l,
{
    if let Some(n) = l {
        if k != n.transaction.id@ {
            let (side, sib, rest) = if key_lt(k, n.transaction.id@) {
                ("right"@, n.right, n.left)
            } else {
                ("left"@, n.left, n.right)
            };
            lemma_proof_path_shape(rest, k);
            let head = sibling_step(side, sib);
            assert(proof_path(l, k) == head + proof_path(rest, k));
            assert forall|i: int| 0 <= i < proof_path(l, k).len() implies {
                let step = #[trigger] proof_path(l, k)[i];
                (step.0 == "left"@ || step.0 == "right"@) && is_digest_text(step.1)
            } by {
                if i >= head.len() {
                    assert(proof_path(l, k)[i] == proof_path(rest, k)[i - head.len()]);
                } else {
                    assert(digests_shaped(sib));
                    assert(proof_path(l, k)[i] == head[i]);
                }
            }
        }
    }
}

/// An inclusion proof from a well-formed tree has the shape of its format:
/// every side is `"left"` or `"right"` and every digest is 64 lowercase
/// hexadecimal digits.
pub proof fn lemma_inclusion_proof_shape(t: &CryptoBinaryTree, k: Seq<char>)
    requires
        t.wf(),
    ensures
        forall|i: int| 0 <= i < proof_path(t.root_node(), k).len() ==> {
            let step = #[trigger] proof_path(t.root_node(), k)[i];
            (step.0 == "left"@ || step.0 == "right"@) && is_digest_text(step.1)
        },
{
    lemma_proof_path_shape(t.root_node(), k);
}

/// Building by one more insertion extends the sequence of insertions.
pub proof fn lemma_built_step(txs: Seq<TransactionView>, t: TransactionView)
    ensures
        shape_built(txs.push(t)) == shape_insert(shape_built(txs), t),
{
    assert(txs.push(t).drop_last() =~= txs);
}

/// The root digest is a function of the sequence of insertions: two trees
/// built by inserting the same records in the same order into empty trees
/// have the same view and the same root digest.
pub proof fn lemma_same_insertions_same_root(
    a: &CryptoBinaryTree,
    b: &CryptoBinaryTree,
    txs: Seq<TransactionView>,
)
    requires
        a.wf(),
        b.wf(),
        a.shape() == shape_built(txs),
        b.shape() == shape_built(txs),
    ensures
        a.root_digest() == b.root_digest(),
        a.root_digest() == shape_hash(shape_built(txs)),
{
    lemma_shape_link(a.root_node());
    lemma_shape_link(b.root_node());
}

/// A node whose stored digest does not match its parts makes its subtree
/// fail the integrity check: a tampered record is caught wherever it sits,
/// as soon as its recomputed digest differs from the stored one.
pub proof fn lemma_mismatch_fails_check(l: Option<Box<CryptoTreeNode>>, k: Seq<char>)
    requires
        mismatch_at(l, k),
    ensures
        !hashes_ok(l),
    decreases l,
{
    if let Some(n) = l {
        if mismatch_at(n.left, k) {
            lemma_mismatch_fails_check(n.left, k);
        } else if mismatch_at(n.right, k) {
            lemma_mismatch_fails_check(n.right, k);
        }
    }
}

} // verus!
