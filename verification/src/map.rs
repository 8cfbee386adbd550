//! An ordered map from block positions to values, kept as a splay tree.
//!
//! The map is modelled by its entries in ascending key order. Every search
//! splays: the entry at which the search ends becomes the root, so the next
//! search near it is short. Rotations never change the order of the entries,
//! which is why the model is a sequence and not the shape of the tree.

use vstd::prelude::*;
use crate::node::Node;

verus! {

/// Where the target of a search lies, seen from one entry.
#[derive(Clone, Copy, PartialEq, Eq, Debug, Structural)]
pub enum Bearing {
    /// The target lies before this entry.
    Less,
    /// This entry is the target.
    Equal,
    /// The target lies after this entry.
    Greater,
}

/// A three-way test that steers a search through the map.
pub trait Comparator<V> {
    /// The entries that the comparator can be asked about.
    spec fn defined_on(&self, key: i32, value: V) -> bool;

    /// Where the target lies, seen from the entry `(key, value)`.
    spec fn verdict(&self, key: i32, value: V) -> Bearing;

    /// Computes `verdict` for one entry.
    fn compare(&self, key: i32, value: &V) -> (bearing: Bearing)
        requires
            self.defined_on(key, *value),
        ensures
            bearing == self.verdict(key, *value),
    ;
}

/// The comparator that looks for one key.
pub struct ByKey {
    pub key: i32,
}

impl<V> Comparator<V> for ByKey {
    open spec fn defined_on(&self, key: i32, value: V) -> bool {
        true
    }

    open spec fn verdict(&self, key: i32, value: V) -> Bearing {
        if self.key < key {
            Bearing::Less
        } else if self.key == key {
            Bearing::Equal
        } else {
            Bearing::Greater
        }
    }

    fn compare(&self, key: i32, value: &V) -> (bearing: Bearing) {
        if self.key < key {
            Bearing::Less
        } else if self.key == key {
            Bearing::Equal
        } else {
            Bearing::Greater
        }
    }
}

/// The comparator whose target lies after every entry.
pub struct PastTheEnd;

impl<V> Comparator<V> for PastTheEnd {
    open spec fn defined_on(&self, key: i32, value: V) -> bool {
        true
    }

    open spec fn verdict(&self, key: i32, value: V) -> Bearing {
        Bearing::Greater
    }

    fn compare(&self, key: i32, value: &V) -> (bearing: Bearing) {
        Bearing::Greater
    }
}

/// The comparator whose target lies before every entry.
pub struct BeforeTheStart;

impl<V> Comparator<V> for BeforeTheStart {
    open spec fn defined_on(&self, key: i32, value: V) -> bool {
        true
    }

    open spec fn verdict(&self, key: i32, value: V) -> Bearing {
        Bearing::Less
    }

    fn compare(&self, key: i32, value: &V) -> (bearing: Bearing) {
        Bearing::Less
    }
}

/// The entries of a tree, left subtree first, in the order of an in-order walk.
spec fn entries<V>(tree: Option<Box<Node<i32, V>>>) -> Seq<(i32, V)>
    decreases tree,
{
    match tree {
        None => Seq::empty(),
        Some(node) => entries(node.left).push(node.key_value) + entries(node.right),
    }
}

/// Keys grow strictly from each entry to the next.
pub open spec fn ascending<V>(s: Seq<(i32, V)>) -> bool {
    forall|i: int, j: int| #![trigger s[i], s[j]] 0 <= i < j < s.len() ==> s[i].0 < s[j].0
}

/// The comparator can be asked about every entry of `s` and splits `s` in
/// order: entries it calls `Greater`, then at most one it calls `Equal`, then
/// entries it calls `Less`.
pub open spec fn partitions<V, C: Comparator<V>>(c: &C, s: Seq<(i32, V)>) -> bool {
    &&& forall|i: int| 0 <= i < s.len() ==> c.defined_on((#[trigger] s[i]).0, s[i].1)
    &&& forall|i: int, j: int|
        #![trigger s[i], s[j]]
        0 <= i < j < s.len() && c.verdict(s[j].0, s[j].1) != Bearing::Less ==> c.verdict(
            s[i].0,
            s[i].1,
        ) == Bearing::Greater
}

/// The comparator gives the same verdict on every entry of `s`.
pub open spec fn all_are<V, C: Comparator<V>>(c: &C, s: Seq<(i32, V)>, bearing: Bearing) -> bool {
    forall|i: int| 0 <= i < s.len() ==> c.verdict((#[trigger] s[i]).0, s[i].1) == bearing
}

/// A search that followed `c` can end at the root of `node`: the root is the
/// target, or the target falls between the root and its neighbour in order.
spec fn settled<V, C: Comparator<V>>(c: &C, node: Node<i32, V>) -> bool {
    match c.verdict(node.key_value.0, node.key_value.1) {
        Bearing::Equal => true,
        Bearing::Less => all_are(c, entries(node.left), Bearing::Greater),
        Bearing::Greater => all_are(c, entries(node.right), Bearing::Less),
    }
}

/// What follows an entry that is not `Greater` is `Less`, what precedes an entry
/// that is not `Less` is `Greater`, and both sides are split in order themselves.
proof fn lemma_around<V, C: Comparator<V>>(c: &C, a: Seq<(i32, V)>, e: (i32, V), b: Seq<(i32, V)>)
    requires
        partitions(c, a.push(e) + b),
    ensures
        partitions(c, a),
        partitions(c, b),
        c.defined_on(e.0, e.1),
        c.verdict(e.0, e.1) != Bearing::Greater ==> all_are(c, b, Bearing::Less),
        c.verdict(e.0, e.1) != Bearing::Less ==> all_are(c, a, Bearing::Greater),
{
    let s = a.push(e) + b;
    let n = a.len() as int;
    assert(s[n] == e);
    assert forall|i: int| 0 <= i < a.len() implies c.defined_on((#[trigger] a[i]).0, a[i].1) by {
        assert(s[i] == a[i]);
    }
    assert forall|i: int| 0 <= i < b.len() implies c.defined_on((#[trigger] b[i]).0, b[i].1) by {
        assert(s[n + 1 + i] == b[i]);
    }
    assert forall|i: int, j: int|
        #![trigger a[i], a[j]]
        0 <= i < j < a.len() && c.verdict(a[j].0, a[j].1) != Bearing::Less implies c.verdict(
        a[i].0,
        a[i].1,
    ) == Bearing::Greater by {
        assert(s[i] == a[i] && s[j] == a[j]);
    }
    assert forall|i: int, j: int|
        #![trigger b[i], b[j]]
        0 <= i < j < b.len() && c.verdict(b[j].0, b[j].1) != Bearing::Less implies c.verdict(
        b[i].0,
        b[i].1,
    ) == Bearing::Greater by {
        assert(s[n + 1 + i] == b[i] && s[n + 1 + j] == b[j]);
    }
    if c.verdict(e.0, e.1) != Bearing::Greater {
        assert forall|i: int| 0 <= i < b.len() implies c.verdict((#[trigger] b[i]).0, b[i].1)
            == Bearing::Less by {
            assert(s[n + 1 + i] == b[i]);
            assert(s[n] == e);
        }
    }
    if c.verdict(e.0, e.1) != Bearing::Less {
        assert forall|i: int| 0 <= i < a.len() implies c.verdict((#[trigger] a[i]).0, a[i].1)
            == Bearing::Greater by {
            assert(s[i] == a[i]);
            assert(s[n] == e);
        }
    }
}

/// A uniform verdict carries over to `a`, then `e`, then `b` together.
proof fn lemma_all_join<V, C: Comparator<V>>(
    c: &C,
    a: Seq<(i32, V)>,
    e: (i32, V),
    b: Seq<(i32, V)>,
    bearing: Bearing,
)
    requires
        all_are(c, a, bearing),
        c.verdict(e.0, e.1) == bearing,
        all_are(c, b, bearing),
    ensures
        all_are(c, a.push(e) + b, bearing),
{
    let s = a.push(e) + b;
    let n = a.len() as int;
    assert forall|i: int| 0 <= i < s.len() implies c.verdict((#[trigger] s[i]).0, s[i].1)
        == bearing by {
        if i < n {
            assert(s[i] == a[i]);
        } else if i == n {
            assert(s[i] == e);
        } else {
            assert(s[i] == b[i - n - 1]);
        }
    }
}

/// Hangs `left` and `right` under `hub`, whose own children are dropped.
fn assemble<V>(
    left: Option<Box<Node<i32, V>>>,
    hub: Box<Node<i32, V>>,
    right: Option<Box<Node<i32, V>>>,
) -> (tree: Box<Node<i32, V>>)
    ensures
        tree.key_value == hub.key_value,
        tree.left == left,
        tree.right == right,
        entries(Some(tree)) == entries(left).push(hub.key_value) + entries(right),
{
    let mut tree = hub;
    tree.left = left;
    tree.right = right;
    tree
}

/// Brings to the root the entry at which a search steered by `c` ends, by
/// rotations that leave the order of the entries as it was.
fn splay<V, C: Comparator<V>>(tree: Box<Node<i32, V>>, c: &C) -> (root: Box<Node<i32, V>>)
    requires
        partitions(c, entries(Some(tree))),
    ensures
        entries(Some(root)) == entries(Some(tree)),
        settled(c, *root),
    decreases tree,
{
    let ghost whole = entries(Some(tree));
    let mut top = tree;
    let ghost top_left = entries(top.left);
    let ghost top_right = entries(top.right);
    let ghost top_entry = top.key_value;
    proof {
        lemma_around(c, top_left, top_entry, top_right);
    }
    match c.compare(top.key_value.0, &top.key_value.1) {
        Bearing::Equal => top,
        Bearing::Less => {
            match top.pop_left() {
                None => top,
                Some(mid) => {
                    let mut mid = mid;
                    let ghost mid_left = entries(mid.left);
                    let ghost mid_right = entries(mid.right);
                    let ghost mid_entry = mid.key_value;
                    proof {
                        lemma_around(c, mid_left, mid_entry, mid_right);
                        assert(whole =~= mid_left.push(mid_entry) + (mid_right.push(top_entry)
                            + top_right));
                        if c.verdict(mid_entry.0, mid_entry.1) != Bearing::Greater {
                            lemma_all_join(c, mid_right, top_entry, top_right, Bearing::Less);
                        }
                    }
                    let top_r = top.pop_right();
                    let mid_l = mid.pop_left();
                    let mid_r = mid.pop_right();
                    match c.compare(mid.key_value.0, &mid.key_value.1) {
                        Bearing::Equal => assemble(mid_l, mid, Some(assemble(mid_r, top, top_r))),
                        Bearing::Less => {
                            match mid_l {
                                None => assemble(None, mid, Some(assemble(mid_r, top, top_r))),
                                Some(low) => {
                                    // Two steps to the left: the lower entry rises above both.
                                    let mut low = splay(low, c);
                                    let ghost low_left = entries(low.left);
                                    let ghost low_right = entries(low.right);
                                    let ghost low_entry = low.key_value;
                                    proof {
                                        if c.verdict(low_entry.0, low_entry.1)
                                            == Bearing::Greater {
                                            lemma_all_join(
                                                c,
                                                low_right,
                                                mid_entry,
                                                mid_right.push(top_entry) + top_right,
                                                Bearing::Less,
                                            );
                                        }
                                        assert(whole =~= low_left.push(low_entry) + (
                                        low_right.push(mid_entry) + (mid_right.push(top_entry)
                                            + top_right)));
                                    }
                                    let low_l = low.pop_left();
                                    let low_r = low.pop_right();
                                    let under = assemble(
                                        low_r,
                                        mid,
                                        Some(assemble(mid_r, top, top_r)),
                                    );
                                    assemble(low_l, low, Some(under))
                                },
                            }
                        },
                        Bearing::Greater => {
                            match mid_r {
                                None => assemble(mid_l, mid, Some(assemble(None, top, top_r))),
                                Some(low) => {
                                    // Left, then right: the lower entry rises between the two.
                                    let mut low = splay(low, c);
                                    let ghost low_left = entries(low.left);
                                    let ghost low_right = entries(low.right);
                                    let ghost low_entry = low.key_value;
                                    proof {
                                        if c.verdict(low_entry.0, low_entry.1)
                                            == Bearing::Greater {
                                            lemma_all_join(
                                                c,
                                                low_right,
                                                top_entry,
                                                top_right,
                                                Bearing::Less,
                                            );
                                        }
                                        if c.verdict(low_entry.0, low_entry.1) == Bearing::Less {
                                            lemma_all_join(
                                                c,
                                                mid_left,
                                                mid_entry,
                                                low_left,
                                                Bearing::Greater,
                                            );
                                        }
                                        assert(whole =~= (mid_left.push(mid_entry)
                                            + low_left).push(low_entry) + (low_right.push(
                                            top_entry,
                                        ) + top_right));
                                    }
                                    let low_l = low.pop_left();
                                    let low_r = low.pop_right();
                                    let before = assemble(mid_l, mid, low_l);
                                    let after = assemble(low_r, top, top_r);
                                    assemble(Some(before), low, Some(after))
                                },
                            }
                        },
                    }
                },
            }
        },
        Bearing::Greater => {
            match top.pop_right() {
                None => top,
                Some(mid) => {
                    let mut mid = mid;
                    let ghost mid_left = entries(mid.left);
                    let ghost mid_right = entries(mid.right);
                    let ghost mid_entry = mid.key_value;
                    proof {
                        lemma_around(c, mid_left, mid_entry, mid_right);
                        assert(whole =~= (top_left.push(top_entry) + mid_left).push(mid_entry)
                            + mid_right);
                        if c.verdict(mid_entry.0, mid_entry.1) != Bearing::Less {
                            lemma_all_join(c, top_left, top_entry, mid_left, Bearing::Greater);
                        }
                    }
                    let top_l = top.pop_left();
                    let mid_l = mid.pop_left();
                    let mid_r = mid.pop_right();
                    match c.compare(mid.key_value.0, &mid.key_value.1) {
                        Bearing::Equal => assemble(Some(assemble(top_l, top, mid_l)), mid, mid_r),
                        Bearing::Greater => {
                            match mid_r {
                                None => assemble(Some(assemble(top_l, top, mid_l)), mid, None),
                                Some(low) => {
                                    // Two steps to the right.
                                    let mut low = splay(low, c);
                                    let ghost low_left = entries(low.left);
                                    let ghost low_right = entries(low.right);
                                    let ghost low_entry = low.key_value;
                                    proof {
                                        if c.verdict(low_entry.0, low_entry.1) == Bearing::Less {
                                            lemma_all_join(
                                                c,
                                                top_left.push(top_entry) + mid_left,
                                                mid_entry,
                                                low_left,
                                                Bearing::Greater,
                                            );
                                        }
                                        assert(whole =~= ((top_left.push(top_entry)
                                            + mid_left).push(mid_entry) + low_left).push(
                                            low_entry,
                                        ) + low_right);
                                    }
                                    let low_l = low.pop_left();
                                    let low_r = low.pop_right();
                                    let under = assemble(
                                        Some(assemble(top_l, top, mid_l)),
                                        mid,
                                        low_l,
                                    );
                                    assemble(Some(under), low, low_r)
                                },
                            }
                        },
                        Bearing::Less => {
                            match mid_l {
                                None => assemble(Some(assemble(top_l, top, None)), mid, mid_r),
                                Some(low) => {
                                    // Right, then left.
                                    let mut low = splay(low, c);
                                    let ghost low_left = entries(low.left);
                                    let ghost low_right = entries(low.right);
                                    let ghost low_entry = low.key_value;
                                    proof {
                                        if c.verdict(low_entry.0, low_entry.1) == Bearing::Less {
                                            lemma_all_join(
                                                c,
                                                top_left,
                                                top_entry,
                                                low_left,
                                                Bearing::Greater,
                                            );
                                        }
                                        if c.verdict(low_entry.0, low_entry.1)
                                            == Bearing::Greater {
                                            lemma_all_join(
                                                c,
                                                low_right,
                                                mid_entry,
                                                mid_right,
                                                Bearing::Less,
                                            );
                                        }
                                        assert(whole =~= (top_left.push(top_entry)
                                            + low_left).push(low_entry) + (low_right.push(
                                            mid_entry,
                                        ) + mid_right));
                                    }
                                    let low_l = low.pop_left();
                                    let low_r = low.pop_right();
                                    let before = assemble(top_l, top, low_l);
                                    let after = assemble(low_r, mid, mid_r);
                                    assemble(Some(before), low, Some(after))
                                },
                            }
                        },
                    }
                },
            }
        },
    }
}

/// An ordered map from `i32` keys to values.
#[derive(Debug)]
pub struct SplayMap<V> {
    root: Option<Box<Node<i32, V>>>,
}

impl<V> View for SplayMap<V> {
    type V = Seq<(i32, V)>;

    /// The entries of the map in ascending key order.
    closed spec fn view(&self) -> Seq<(i32, V)> {
        entries(self.root)
    }
}

/// An ascending sequence is split in order by the search for any one key.
pub proof fn lemma_key_partitions<V>(s: Seq<(i32, V)>, key: i32)
    requires
        ascending(s),
    ensures
        partitions(&ByKey { key }, s),
{
}

/// Every comparator with a constant verdict splits every sequence in order, as
/// long as that verdict is not `Equal`.
pub proof fn lemma_constant_partitions<V>(s: Seq<(i32, V)>)
    ensures
        partitions(&PastTheEnd, s),
        partitions(&BeforeTheStart, s),
{
    assert forall|i: int, j: int|
        #![trigger s[i], s[j]]
        0 <= i < j < s.len() && PastTheEnd.verdict(s[j].0, s[j].1) != Bearing::Less implies PastTheEnd.verdict(
        s[i].0,
        s[i].1,
    ) == Bearing::Greater by {}
}

/// The parts of an ascending sequence are ascending, and the entry between two
/// parts has a key above the first part's and below the second part's.
proof fn lemma_ascending_parts<V>(a: Seq<(i32, V)>, e: (i32, V), b: Seq<(i32, V)>)
    requires
        ascending(a.push(e) + b),
    ensures
        ascending(a),
        ascending(b),
        forall|i: int| 0 <= i < a.len() ==> (#[trigger] a[i]).0 < e.0,
        forall|i: int| 0 <= i < b.len() ==> e.0 < (#[trigger] b[i]).0,
{
    let s = a.push(e) + b;
    let n = a.len() as int;
    assert(s[n] == e);
    assert forall|i: int, j: int| #![trigger a[i], a[j]] 0 <= i < j < a.len() implies a[i].0
        < a[j].0 by {
        assert(s[i] == a[i] && s[j] == a[j]);
    }
    assert forall|i: int, j: int| #![trigger b[i], b[j]] 0 <= i < j < b.len() implies b[i].0
        < b[j].0 by {
        assert(s[n + 1 + i] == b[i] && s[n + 1 + j] == b[j]);
    }
    assert forall|i: int| 0 <= i < a.len() implies (#[trigger] a[i]).0 < e.0 by {
        assert(s[i] == a[i]);
    }
    assert forall|i: int| 0 <= i < b.len() implies e.0 < (#[trigger] b[i]).0 by {
        assert(s[n + 1 + i] == b[i]);
    }
}

/// Two ascending parts around an entry whose key lies between them make an
/// ascending whole.
proof fn lemma_ascending_whole<V>(a: Seq<(i32, V)>, e: (i32, V), b: Seq<(i32, V)>)
    requires
        ascending(a),
        ascending(b),
        forall|i: int| 0 <= i < a.len() ==> (#[trigger] a[i]).0 < e.0,
        forall|i: int| 0 <= i < b.len() ==> e.0 < (#[trigger] b[i]).0,
    ensures
        ascending(a.push(e) + b),
{
    let s = a.push(e) + b;
    let n = a.len() as int;
    assert forall|i: int, j: int| #![trigger s[i], s[j]] 0 <= i < j < s.len() implies s[i].0
        < s[j].0 by {
        if i < n {
            assert(s[i] == a[i]);
        } else if i == n {
            assert(s[i] == e);
        } else {
            assert(s[i] == b[i - n - 1]);
        }
        if j < n {
            assert(s[j] == a[j]);
        } else if j == n {
            assert(s[j] == e);
        } else {
            assert(s[j] == b[j - n - 1]);
        }
    }
}

/// Entry `i` of `s` is the one that the comparator calls `Equal`.
pub open spec fn is_hit<V, C: Comparator<V>>(c: &C, s: Seq<(i32, V)>, i: int) -> bool {
    0 <= i < s.len() && c.verdict(s[i].0, s[i].1) == Bearing::Equal
}

/// The comparator calls no entry of `s` `Equal`.
pub open spec fn no_hit<V, C: Comparator<V>>(c: &C, s: Seq<(i32, V)>) -> bool {
    forall|i: int| 0 <= i < s.len() ==> c.verdict((#[trigger] s[i]).0, s[i].1) != Bearing::Equal
}

/// Entry `i` of `s` is the first that does not lie before the target: every
/// earlier entry is `Greater`, and this one is not.
pub open spec fn is_lower_bound<V, C: Comparator<V>>(c: &C, s: Seq<(i32, V)>, i: int) -> bool {
    &&& 0 <= i < s.len()
    &&& c.verdict(s[i].0, s[i].1) != Bearing::Greater
    &&& forall|j: int| 0 <= j < i ==> c.verdict((#[trigger] s[j]).0, s[j].1) == Bearing::Greater
}

/// The target lies at entry `i` of `s` or right beside it: every earlier
/// entry lies before the target and every later entry after it.
pub open spec fn is_beside<V, C: Comparator<V>>(c: &C, s: Seq<(i32, V)>, i: int) -> bool {
    &&& 0 <= i < s.len()
    &&& forall|j: int| 0 <= j < i ==> c.verdict((#[trigger] s[j]).0, s[j].1) == Bearing::Greater
    &&& forall|j: int| i < j < s.len() ==> c.verdict((#[trigger] s[j]).0, s[j].1) == Bearing::Less
}

/// Where a search has ended at a root, the target lies at the root or right
/// beside it.
proof fn lemma_settled_beside<V, C: Comparator<V>>(c: &C, node: Node<i32, V>)
    requires
        partitions(c, entries(Some(Box::new(node)))),
        settled(c, node),
    ensures
        is_beside(c, entries(Some(Box::new(node))), entries(node.left).len() as int),
        entries(Some(Box::new(node)))[entries(node.left).len() as int] == node.key_value,
{
    let a = entries(node.left);
    let b = entries(node.right);
    let s = entries(Some(Box::new(node)));
    lemma_around(c, a, node.key_value, b);
    assert forall|j: int| 0 <= j < a.len() implies c.verdict((#[trigger] s[j]).0, s[j].1)
        == Bearing::Greater by {
        assert(s[j] == a[j]);
    }
    assert forall|j: int| a.len() < j < s.len() implies c.verdict((#[trigger] s[j]).0, s[j].1)
        == Bearing::Less by {
        assert(s[j] == b[j - a.len() - 1]);
    }
}

/// Where a search has ended at a root that is not the target, the tree holds
/// no target.
proof fn lemma_settled_miss<V, C: Comparator<V>>(c: &C, node: Node<i32, V>)
    requires
        partitions(c, entries(Some(Box::new(node)))),
        settled(c, node),
        c.verdict(node.key_value.0, node.key_value.1) != Bearing::Equal,
    ensures
        no_hit(c, entries(Some(Box::new(node)))),
{
    let a = entries(node.left);
    let b = entries(node.right);
    let s = entries(Some(Box::new(node)));
    lemma_around(c, a, node.key_value, b);
    assert forall|i: int| 0 <= i < s.len() implies c.verdict((#[trigger] s[i]).0, s[i].1)
        != Bearing::Equal by {
        if i < a.len() {
            assert(s[i] == a[i]);
        } else if i > a.len() {
            assert(s[i] == b[i - a.len() - 1]);
        }
    }
}

/// Looks an entry up without changing the tree.
fn locate<'a, V, C: Comparator<V>>(tree: &'a Option<Box<Node<i32, V>>>, c: &C) -> (found: Option<
    &'a (i32, V),
>)
    requires
        partitions(c, entries(*tree)),
    ensures
        match found {
            Some(entry) => entries(*tree).contains(*entry) && c.verdict(entry.0, entry.1)
                == Bearing::Equal,
            None => forall|i: int|
                0 <= i < entries(*tree).len() ==> c.verdict(
                    (#[trigger] entries(*tree)[i]).0,
                    entries(*tree)[i].1,
                ) != Bearing::Equal,
        },
    decreases *tree,
{
    match tree {
        None => None,
        Some(node) => {
            let ghost a = entries(node.left);
            let ghost b = entries(node.right);
            let ghost s = entries(*tree);
            proof {
                lemma_around(c, a, node.key_value, b);
            }
            match c.compare(node.key_value.0, &node.key_value.1) {
                Bearing::Equal => {
                    proof {
                        assert(s[a.len() as int] == node.key_value);
                    }
                    Some(&node.key_value)
                },
                Bearing::Less => {
                    let found = locate(&node.left, c);
                    proof {
                        match found {
                            Some(entry) => {
                                let i = choose|i: int| 0 <= i < a.len() && a[i] == *entry;
                                assert(s[i] == *entry);
                            },
                            None => {
                                assert forall|i: int| 0 <= i < s.len() implies c.verdict(
                                    (#[trigger] s[i]).0,
                                    s[i].1,
                                ) != Bearing::Equal by {
                                    if i < a.len() {
                                        assert(s[i] == a[i]);
                                    } else if i > a.len() {
                                        assert(s[i] == b[i - a.len() - 1]);
                                    }
                                }
                            },
                        }
                    }
                    found
                },
                Bearing::Greater => {
                    let found = locate(&node.right, c);
                    proof {
                        match found {
                            Some(entry) => {
                                let i = choose|i: int| 0 <= i < b.len() && b[i] == *entry;
                                assert(s[a.len() + 1 + i] == *entry);
                            },
                            None => {
                                assert forall|i: int| 0 <= i < s.len() implies c.verdict(
                                    (#[trigger] s[i]).0,
                                    s[i].1,
                                ) != Bearing::Equal by {
                                    if i < a.len() {
                                        assert(s[i] == a[i]);
                                    } else if i > a.len() {
                                        assert(s[i] == b[i - a.len() - 1]);
                                    }
                                }
                            },
                        }
                    }
                    found
                },
            }
        },
    }
}

impl<V> SplayMap<V> {
    /// Whether the keys are in strictly ascending order, as every operation
    /// leaves them.
    pub open spec fn wf(&self) -> bool {
        ascending(self@)
    }

    /// The entry at the root of the tree, where the last search has ended.
    pub closed spec fn spec_root(&self) -> Option<(i32, V)> {
        match self.root {
            Some(node) => Some(node.key_value),
            None => None,
        }
    }

    /// Creates a map without entries.
    pub fn new() -> (map: SplayMap<V>)
        ensures
            map@ == Seq::<(i32, V)>::empty(),
            map.wf(),
    {
        SplayMap { root: None }
    }

    /// Whether the map has no entry.
    pub fn is_empty(&self) -> (empty: bool)
        ensures
            empty == (self@.len() == 0),
    {
        self.root.is_none()
    }

    /// Splays the tree by `c`; the entries stay as they are.
    fn seek<C: Comparator<V>>(&mut self, c: &C)
        requires
            partitions(c, old(self)@),
        ensures
            final(self)@ == old(self)@,
            final(self).root.is_some() == old(self).root.is_some(),
            final(self).root.is_some() ==> settled(c, *final(self).root.unwrap()),
    {
        match self.root.take() {
            None => {},
            Some(tree) => {
                self.root = Some(splay(tree, c));
            },
        }
    }

    /// Returns the value bound to `key`, if there is one. The tree is not
    /// reshaped.
    pub fn get(&self, key: i32) -> (found: Option<&V>)
        requires
            self.wf(),
        ensures
            match found {
                Some(value) => self@.contains((key, *value)),
                None => forall|i: int| 0 <= i < self@.len() ==> (#[trigger] self@[i]).0 != key,
            },
    {
        proof {
            lemma_key_partitions(self@, key);
        }
        match locate(&self.root, &ByKey { key }) {
            Some(entry) => Some(&entry.1),
            None => None,
        }
    }

    /// Searches by `c` and returns the entry that it calls `Equal`, if there is
    /// one. The search ends at the root, which the splay has brought up.
    pub fn get_with<C: Comparator<V>>(&mut self, c: &C) -> (found: Option<&(i32, V)>)
        requires
            partitions(c, old(self)@),
        ensures
            final(self)@ == old(self)@,
            match found {
                Some(entry) => final(self).spec_root() == Some(*entry) && exists|i: int|
                    is_hit(c, old(self)@, i) && old(self)@[i] == *entry,
                None => no_hit(c, old(self)@),
            },
            old(self)@.len() > 0 ==> exists|i: int|
                is_beside(c, old(self)@, i) && final(self).spec_root() == Some(old(self)@[i]),
    {
        self.seek(c);
        match &self.root {
            None => None,
            Some(node) => {
                proof {
                    lemma_around(c, entries(node.left), node.key_value, entries(node.right));
                    lemma_settled_beside(c, **node);
                }
                match c.compare(node.key_value.0, &node.key_value.1) {
                    Bearing::Equal => {
                        proof {
                            assert(is_hit(c, self@, entries(node.left).len() as int));
                        }
                        Some(&node.key_value)
                    },
                    _ => {
                        proof {
                            lemma_settled_miss(c, **node);
                        }
                        None
                    },
                }
            },
        }
    }

    /// As `get_with`, but hands out the value of the entry for writing. The key
    /// comes by value: an entry keeps its place in the order.
    pub fn get_with_mut<C: Comparator<V>>(&mut self, c: &C) -> (found: Option<(i32, &mut V)>)
        requires
            partitions(c, old(self)@),
        ensures
            found.is_none() ==> no_hit(c, old(self)@) && final(self)@ == old(self)@,
            found.is_none() && old(self)@.len() > 0 ==> exists|i: int|
                is_beside(c, old(self)@, i) && final(self).spec_root() == Some(old(self)@[i]),
            found matches Some(pair) ==> final(self).spec_root() == Some((pair.0, *final(pair.1)))
                && exists|i: int|
                is_hit(c, old(self)@, i) && old(self)@[i] == (pair.0, *pair.1) && final(self)@
                    == old(self)@.update(i, (pair.0, *final(pair.1))),
    {
        self.seek(c);
        match &mut self.root {
            None => None,
            Some(node) => {
                proof {
                    lemma_around(c, entries(node.left), node.key_value, entries(node.right));
                    lemma_settled_beside(c, **node);
                }
                match c.compare(node.key_value.0, &node.key_value.1) {
                    Bearing::Equal => {
                        let ghost a = entries(node.left);
                        let ghost b = entries(node.right);
                        let key: i32 = node.key_value.0;
                        let value = &mut node.key_value.1;
                        proof {
                            let i = a.len() as int;
                            assert(is_hit(c, old(self)@, i));
                            assert(old(self)@.update(i, (key, *final(value))) =~= a.push(
                                (key, *final(value)),
                            ) + b);
                        }
                        Some((key, value))
                    },
                    _ => {
                        proof {
                            lemma_settled_miss(c, **node);
                        }
                        None
                    },
                }
            },
        }
    }

    /// Splays by `c`, and brings up the next entry where the search ended on
    /// one that lies before the target.
    fn seek_bound<C: Comparator<V>>(&mut self, c: &C)
        requires
            partitions(c, old(self)@),
        ensures
            final(self)@ == old(self)@,
            final(self).root.is_some() == old(self).root.is_some(),
            final(self).root matches Some(node) ==> is_lower_bound(
                c,
                old(self)@,
                entries(node.left).len() as int,
            ) || all_are(c, old(self)@, Bearing::Greater),
    {
        match self.root.take() {
            None => {},
            Some(tree) => {
                let ghost whole = entries(Some(tree));
                let mut top = splay(tree, c);
                let ghost a = entries(top.left);
                let ghost b = entries(top.right);
                let ghost e = top.key_value;
                proof {
                    lemma_around(c, a, e, b);
                    assert(whole[a.len() as int] == e);
                    assert forall|j: int| 0 <= j < a.len() implies whole[j] == a[j] by {}
                }
                match c.compare(top.key_value.0, &top.key_value.1) {
                    Bearing::Greater => {
                        match top.pop_right() {
                            None => {
                                proof {
                                    lemma_all_join(c, a, e, b, Bearing::Greater);
                                }
                                self.root = Some(top);
                            },
                            Some(rest) => {
                                proof {
                                    lemma_constant_partitions(b);
                                }
                                let mut next = splay(rest, &BeforeTheStart);
                                let ghost first = next.key_value;
                                let ghost more = entries(next.right);
                                proof {
                                    let none = entries(next.left);
                                    if none.len() > 0 {
                                        assert(BeforeTheStart.verdict(none[0].0, none[0].1)
                                            == Bearing::Greater);
                                    }
                                    assert(b =~= Seq::empty().push(first) + more);
                                    assert(b[0] == first);
                                    let i = a.len() as int + 1;
                                    assert(whole =~= (a.push(e) + Seq::empty()).push(first)
                                        + more);
                                    assert(whole[i] == first);
                                    assert forall|j: int| 0 <= j < i implies c.verdict(
                                        (#[trigger] whole[j]).0,
                                        whole[j].1,
                                    ) == Bearing::Greater by {
                                        if j < a.len() {
                                            assert(whole[j] == a[j]);
                                        }
                                    }
                                }
                                let next_left = next.pop_left();
                                let next_right = next.pop_right();
                                let under = assemble(top.pop_left(), top, next_left);
                                self.root = Some(assemble(Some(under), next, next_right));
                            },
                        }
                    },
                    _ => {
                        self.root = Some(top);
                    },
                }
            },
        }
    }

    /// Searches by `c` and returns the first entry that does not lie before the
    /// target: the entry that `c` calls `Equal`, or else the first that it calls
    /// `Less`. That entry becomes the root.
    pub fn lower_bound_with<C: Comparator<V>>(&mut self, c: &C) -> (found: Option<&(i32, V)>)
        requires
            partitions(c, old(self)@),
        ensures
            final(self)@ == old(self)@,
            match found {
                Some(entry) => final(self).spec_root() == Some(*entry) && exists|i: int|
                    is_lower_bound(c, old(self)@, i) && old(self)@[i] == *entry,
                None => all_are(c, old(self)@, Bearing::Greater),
            },
    {
        self.seek_bound(c);
        match &self.root {
            None => None,
            Some(node) => {
                proof {
                    let i = entries(node.left).len() as int;
                    assert(self@[i] == node.key_value);
                }
                match c.compare(node.key_value.0, &node.key_value.1) {
                    Bearing::Greater => None,
                    _ => Some(&node.key_value),
                }
            },
        }
    }

    /// As `lower_bound_with`, but hands out the value of the entry for writing.
    pub fn lower_bound_with_mut<C: Comparator<V>>(&mut self, c: &C) -> (found: Option<
        (i32, &mut V),
    >)
        requires
            partitions(c, old(self)@),
        ensures
            found.is_none() ==> all_are(c, old(self)@, Bearing::Greater)
                && final(self)@ == old(self)@,
            found matches Some(pair) ==> final(self).spec_root() == Some((pair.0, *final(pair.1)))
                && exists|i: int|
                is_lower_bound(c, old(self)@, i) && old(self)@[i] == (pair.0, *pair.1)
                    && final(self)@ == old(self)@.update(i, (pair.0, *final(pair.1))),
    {
        self.seek_bound(c);
        match &mut self.root {
            None => None,
            Some(node) => {
                let ghost a = entries(node.left);
                let ghost b = entries(node.right);
                proof {
                    assert(old(self)@[a.len() as int] == node.key_value);
                }
                match c.compare(node.key_value.0, &node.key_value.1) {
                    Bearing::Greater => None,
                    _ => {
                        let key: i32 = node.key_value.0;
                        let value = &mut node.key_value.1;
                        proof {
                            let i = a.len() as int;
                            assert(old(self)@.update(i, (key, *final(value))) =~= a.push(
                                (key, *final(value)),
                            ) + b);
                        }
                        Some((key, value))
                    },
                }
            },
        }
    }

    /// Binds `key` to `value` and returns what `key` was bound to before, if
    /// anything. A new entry takes its place in the order of the keys.
    pub fn insert(&mut self, key: i32, value: V) -> (prior: Option<V>)
        requires
            old(self).wf(),
        ensures
            final(self).wf(),
            final(self).spec_root() == Some((key, value)),
            match prior {
                Some(before) => exists|i: int|
                    0 <= i < old(self)@.len() && old(self)@[i] == (key, before) && final(self)@
                        == old(self)@.update(i, (key, value)),
                None => (forall|i: int|
                    0 <= i < old(self)@.len() ==> (#[trigger] old(self)@[i]).0 != key)
                    && exists|i: int|
                    0 <= i <= old(self)@.len() && final(self)@ == old(self)@.insert(
                        i,
                        (key, value),
                    ),
            },
    {
        let ghost whole = self@;
        let by_key = ByKey { key };
        proof {
            lemma_key_partitions(whole, key);
        }
        match self.root.take() {
            None => {
                self.root = Some(Node::new(key, value, None, None));
                proof {
                    assert(self@ =~= whole.insert(0, (key, value)));
                }
                None
            },
            Some(tree) => {
                let mut top = splay(tree, &by_key);
                let ghost a = entries(top.left);
                let ghost b = entries(top.right);
                let ghost e = top.key_value;
                let ghost i = a.len() as int;
                proof {
                    lemma_around(&by_key, a, e, b);
                    lemma_ascending_parts(a, e, b);
                    assert(whole[i] == e);
                }
                let left = top.pop_left();
                let right = top.pop_right();
                if key == top.key_value.0 {
                    let mut value = value;
                    core::mem::swap(&mut top.key_value.1, &mut value);
                    self.root = Some(assemble(left, top, right));
                    proof {
                        lemma_ascending_whole(a, (key, value), b);
                        assert(self@ =~= whole.update(i, (key, top.key_value.1)));
                    }
                    Some(value)
                } else if key < top.key_value.0 {
                    let after = assemble(None, top, right);
                    self.root = Some(Node::new(key, value, left, Some(after)));
                    proof {
                        let rest = Seq::empty().push(e) + b;
                        assert forall|j: int| 0 <= j < rest.len() implies key < (
                        #[trigger] rest[j]).0 by {
                            if j > 0 {
                                assert(rest[j] == b[j - 1]);
                            }
                        }
                        assert forall|j: int| 0 <= j < a.len() implies (#[trigger] a[j]).0
                            < key by {}
                        lemma_ascending_parts(a, e, b);
                        lemma_ascending_whole(Seq::empty(), e, b);
                        lemma_ascending_whole(a, (key, value), rest);
                        assert(self@ =~= whole.insert(i, (key, value)));
                        assert forall|j: int| 0 <= j < whole.len() implies (
                        #[trigger] whole[j]).0 != key by {
                            if j < i {
                                assert(whole[j] == a[j]);
                            } else {
                                assert(whole[j] == rest[j - i]);
                            }
                        }
                    }
                    None
                } else {
                    let before = assemble(left, top, None);
                    self.root = Some(Node::new(key, value, Some(before), right));
                    proof {
                        let rest = a.push(e) + Seq::empty();
                        assert forall|j: int| 0 <= j < rest.len() implies (#[trigger] rest[j]).0
                            < key by {
                            if j < a.len() {
                                assert(rest[j] == a[j]);
                            }
                        }
                        assert forall|j: int| 0 <= j < b.len() implies key < (#[trigger] b[j]).0 by {}
                        lemma_ascending_whole(a, e, Seq::empty());
                        lemma_ascending_whole(rest, (key, value), b);
                        assert(self@ =~= whole.insert(i + 1, (key, value)));
                        assert forall|j: int| 0 <= j < whole.len() implies (
                        #[trigger] whole[j]).0 != key by {
                            if j <= i {
                                assert(whole[j] == rest[j]);
                            } else {
                                assert(whole[j] == b[j - i - 1]);
                            }
                        }
                    }
                    None
                }
            },
        }
    }

    /// Removes the entry of `key` and returns its value, if there is one.
    pub fn remove(&mut self, key: i32) -> (gone: Option<V>)
        requires
            old(self).wf(),
        ensures
            final(self).wf(),
            match gone {
                Some(value) => exists|i: int|
                    0 <= i < old(self)@.len() && old(self)@[i] == (key, value) && final(self)@
                        == old(self)@.remove(i),
                None => final(self)@ == old(self)@ && forall|i: int|
                    0 <= i < old(self)@.len() ==> (#[trigger] old(self)@[i]).0 != key,
            },
            gone.is_none() && old(self)@.len() > 0 ==> exists|i: int|
                is_beside(&ByKey { key }, old(self)@, i) && final(self).spec_root() == Some(
                    old(self)@[i],
                ),
    {
        let ghost whole = self@;
        let by_key = ByKey { key };
        proof {
            lemma_key_partitions(whole, key);
        }
        match self.root.take() {
            None => {
                self.root = None;
                None
            },
            Some(tree) => {
                let mut top = splay(tree, &by_key);
                let ghost a = entries(top.left);
                let ghost b = entries(top.right);
                let ghost e = top.key_value;
                let ghost i = a.len() as int;
                proof {
                    lemma_ascending_parts(a, e, b);
                    assert(whole[i] == e);
                }
                if key == top.key_value.0 {
                    let left = top.pop_left();
                    let right = top.pop_right();
                    match left {
                        None => {
                            self.root = right;
                        },
                        Some(before) => {
                            proof {
                                lemma_constant_partitions(a);
                            }
                            let mut last = splay(before, &PastTheEnd);
                            proof {
                                let none = entries(last.right);
                                if none.len() > 0 {
                                    assert(PastTheEnd.verdict(none[0].0, none[0].1)
                                        == Bearing::Less);
                                }
                            }
                            let last_left = last.pop_left();
                            self.root = Some(assemble(last_left, last, right));
                        },
                    }
                    proof {
                        assert(self@ =~= whole.remove(i));
                        assert forall|j: int, k: int|
                            #![trigger self@[j], self@[k]]
                            0 <= j < k < self@.len() implies self@[j].0 < self@[k].0 by {
                            let jj = if j < i { j } else { j + 1 };
                            let kk = if k < i { k } else { k + 1 };
                            assert(self@[j] == whole[jj] && self@[k] == whole[kk]);
                        }
                    }
                    let node = *top;
                    Some(node.key_value.1)
                } else {
                    proof {
                        lemma_settled_miss(&by_key, *top);
                        lemma_settled_beside(&by_key, *top);
                    }
                    self.root = Some(top);
                    None
                }
            },
        }
    }

    /// The entries in ascending key order.
    pub fn to_vec(&self) -> (list: Vec<(i32, V)>) where V: Copy
        ensures
            list@ == self@,
    {
        let mut list: Vec<(i32, V)> = Vec::new();
        gather(&self.root, &mut list);
        list
    }
}

/// Appends the entries of `tree` to `list`, in order.
fn gather<V: Copy>(tree: &Option<Box<Node<i32, V>>>, list: &mut Vec<(i32, V)>)
    ensures
        final(list)@ == old(list)@ + entries(*tree),
    decreases *tree,
{
    match tree {
        None => {},
        Some(node) => {
            gather(&node.left, list);
            list.push(node.key_value);
            gather(&node.right, list);
            proof {
                assert(list@ =~= old(list)@ + (entries(node.left).push(node.key_value) + entries(
                    node.right,
                )));
            }
        },
    }
}

impl<V: Copy> Clone for SplayMap<V> {
    /// A map with the same entries in a tree of its own.
    fn clone(&self) -> (copy: Self)
        ensures
            copy@ == self@,
    {
        SplayMap {
            root: match &self.root {
                None => None,
                Some(node) => Some(Box::new((**node).clone())),
            },
        }
    }
}

} // verus!
