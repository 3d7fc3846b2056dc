//! The timestamp-keyed binary search tree and its two traversals: ordered
//! insertion and windowed range aggregation.

use crate::time::instant_of_secs;
use crate::time::secs_to_instant;
use crate::time::valid_instant;
use crate::time::MIN_INSTANT;
use crate::render::lemma_render_concat;
use crate::render::render_line;
use crate::render::render_line_of;
use crate::render::render_seq;
use vstd::prelude::*;
use vstd::string::*;

verus! {

/// One heart-rate reading: the instant it was captured (whole seconds since
/// the Unix epoch) and the reading itself. Immutable once inserted.
#[derive(Clone, Copy, PartialEq, Eq, Structural, Debug)]
pub struct Sample {
    pub timestamp: i64,
    pub heart_rate: u64,
}

/// One tree node: a sample and two optional, exclusively owned children.
struct TreeNode {
    sample: Sample,
    left: Option<Box<TreeNode>>,
    right: Option<Box<TreeNode>>,
}

/// A binary search tree over samples, keyed by timestamp. Samples in a
/// node's left subtree have strictly smaller timestamps; samples in its
/// right subtree have greater or equal timestamps, so equal timestamps keep
/// insertion order among themselves.
pub struct HeartRateTree {
    root: Option<Box<TreeNode>>,
}

/// The in-order listing of the samples under an optional node.
spec fn seq_of_opt(node: Option<Box<TreeNode>>) -> Seq<Sample>
    decreases node,
{
    match node {
        None => Seq::empty(),
        Some(n) => n.in_order(),
    }
}

/// The pre-order listing of the samples under an optional node.
spec fn pre_order_of_opt(node: Option<Box<TreeNode>>) -> Seq<Sample>
    decreases node,
{
    match node {
        None => Seq::empty(),
        Some(n) => n.pre_order(),
    }
}

/// Whether an optional node is a well-formed subtree.
spec fn wf_opt(node: Option<Box<TreeNode>>) -> bool
    decreases node,
{
    match node {
        None => true,
        Some(n) => n.well_formed(),
    }
}

impl TreeNode {
    /// In-order: left subtree, then this node, then right subtree.
    spec fn in_order(self) -> Seq<Sample>
        decreases self,
    {
        seq_of_opt(self.left) + seq![self.sample] + seq_of_opt(self.right)
    }

    /// Pre-order: this node, then left subtree, then right subtree.
    spec fn pre_order(self) -> Seq<Sample>
        decreases self,
    {
        seq![self.sample] + pre_order_of_opt(self.left) + pre_order_of_opt(self.right)
    }

    /// The search-tree ordering invariant, plus representability of every
    /// stored instant: the left subtree holds strictly smaller timestamps,
    /// the right subtree greater or equal ones.
    spec fn well_formed(self) -> bool
        decreases self,
    {
        &&& valid_instant(self.sample.timestamp as int)
        &&& (forall|i: int|
            0 <= i < seq_of_opt(self.left).len() ==> #[trigger] seq_of_opt(
                self.left,
            )[i].timestamp < self.sample.timestamp)
        &&& (forall|i: int|
            0 <= i < seq_of_opt(self.right).len() ==> #[trigger] seq_of_opt(
                self.right,
            )[i].timestamp >= self.sample.timestamp)
        &&& wf_opt(self.left)
        &&& wf_opt(self.right)
    }
}

/// Whether an instant lies in the closed window `[from, to]`.
pub open spec fn in_window(from: int, to: int, t: int) -> bool {
    from <= t && t <= to
}

/// The sum of the readings among `s` whose timestamp lies in the closed
/// window `[from, to]`, by a naive linear scan.
pub open spec fn window_sum(s: Seq<Sample>, from: int, to: int) -> int
    decreases s.len(),
{
    if s.len() == 0 {
        0
    } else {
        (if in_window(from, to, s[0].timestamp as int) {
            s[0].heart_rate as int
        } else {
            0
        }) + window_sum(s.drop_first(), from, to)
    }
}

/// The number of samples among `s` whose timestamp lies in the closed window
/// `[from, to]`, by a naive linear scan.
pub open spec fn window_count(s: Seq<Sample>, from: int, to: int) -> int
    decreases s.len(),
{
    if s.len() == 0 {
        0
    } else {
        (if in_window(from, to, s[0].timestamp as int) {
            1int
        } else {
            0int
        }) + window_count(s.drop_first(), from, to)
    }
}

/// Window aggregation distributes over concatenation.
proof fn lemma_window_concat(a: Seq<Sample>, b: Seq<Sample>, from: int, to: int)
    ensures
        window_sum(a + b, from, to) == window_sum(a, from, to) + window_sum(b, from, to),
        window_count(a + b, from, to) == window_count(a, from, to) + window_count(b, from, to),
    decreases a.len(),
{
    if a.len() == 0 {
        assert(a + b =~= b);
    } else {
        assert((a + b).drop_first() =~= a.drop_first() + b);
        lemma_window_concat(a.drop_first(), b, from, to);
    }
}

/// A window aggregate is non-negative, and counts no more than the samples.
proof fn lemma_window_bounds(s: Seq<Sample>, from: int, to: int)
    ensures
        0 <= window_sum(s, from, to),
        0 <= window_count(s, from, to) <= s.len(),
    decreases s.len(),
{
    if s.len() > 0 {
        lemma_window_bounds(s.drop_first(), from, to);
    }
}

/// A window that contains no sample of `s` aggregates to zero sum and zero
/// count. In particular an empty tree, or a window past all samples, yields
/// the zero aggregate.
pub proof fn lemma_window_empty(s: Seq<Sample>, from: int, to: int)
    requires
        forall|i: int| 0 <= i < s.len() ==> !in_window(from, to, #[trigger] s[i].timestamp as int),
    ensures
        window_sum(s, from, to) == 0,
        window_count(s, from, to) == 0,
    decreases s.len(),
{
    if s.len() > 0 {
        lemma_window_empty(s.drop_first(), from, to);
    }
}

/// The window is closed at both ends: a sample lying exactly on either
/// boundary of a non-empty window is counted.
pub proof fn lemma_window_boundary_included(s: Seq<Sample>, from: int, to: int, i: int)
    requires
        from <= to,
        0 <= i < s.len(),
        s[i].timestamp == from || s[i].timestamp == to,
    ensures
        window_count(s, from, to) >= 1,
    decreases s.len(),
{
    if i == 0 {
        lemma_window_bounds(s.drop_first(), from, to);
    } else {
        lemma_window_boundary_included(s.drop_first(), from, to, i - 1);
    }
}

/// Two windows that agree on every sample of `s` aggregate alike over `s`.
proof fn lemma_window_congruent(s: Seq<Sample>, from1: int, to1: int, from2: int, to2: int)
    requires
        forall|i: int|
            0 <= i < s.len() ==> in_window(from1, to1, #[trigger] s[i].timestamp as int)
                == in_window(from2, to2, s[i].timestamp as int),
    ensures
        window_sum(s, from1, to1) == window_sum(s, from2, to2),
        window_count(s, from1, to1) == window_count(s, from2, to2),
    decreases s.len(),
{
    if s.len() > 0 {
        lemma_window_congruent(s.drop_first(), from1, to1, from2, to2);
    }
}

/// The number of samples among `s` whose timestamp is at most `t`: in a
/// sorted sequence, the position at which a new sample with timestamp `t`
/// lands, equal timestamps keeping insertion order.
pub open spec fn num_le(s: Seq<Sample>, t: int) -> int
    decreases s.len(),
{
    if s.len() == 0 {
        0
    } else {
        (if s[0].timestamp <= t {
            1int
        } else {
            0int
        }) + num_le(s.drop_first(), t)
    }
}

/// `num_le` distributes over concatenation.
proof fn lemma_num_le_concat(a: Seq<Sample>, b: Seq<Sample>, t: int)
    ensures
        num_le(a + b, t) == num_le(a, t) + num_le(b, t),
    decreases a.len(),
{
    if a.len() == 0 {
        assert(a + b =~= b);
    } else {
        assert((a + b).drop_first() =~= a.drop_first() + b);
        lemma_num_le_concat(a.drop_first(), b, t);
    }
}

/// `num_le` counts at least nothing and at most everything.
proof fn lemma_num_le_bounds(s: Seq<Sample>, t: int)
    ensures
        0 <= num_le(s, t) <= s.len(),
    decreases s.len(),
{
    if s.len() > 0 {
        lemma_num_le_bounds(s.drop_first(), t);
    }
}

/// `num_le` counts nothing when every timestamp is above `t`, and everything
/// when every timestamp is at most `t`.
proof fn lemma_num_le_extremes(s: Seq<Sample>, t: int)
    ensures
        (forall|i: int| 0 <= i < s.len() ==> #[trigger] s[i].timestamp > t) ==> num_le(s, t) == 0,
        (forall|i: int| 0 <= i < s.len() ==> #[trigger] s[i].timestamp <= t) ==> num_le(s, t)
            == s.len(),
    decreases s.len(),
{
    if s.len() > 0 {
        lemma_num_le_extremes(s.drop_first(), t);
    }
}

/// The length of the leading run of `s` whose timestamps lie strictly below
/// `key`. In the pre-order listing of a search tree, the entries after the
/// root split into the left subtree's listing (all strictly below the root's
/// timestamp) followed by the right subtree's (all at or above it), so this
/// run is exactly the left subtree's listing.
pub open spec fn pre_split(s: Seq<Sample>, key: int) -> int
    decreases s.len(),
{
    if s.len() == 0 {
        0
    } else if s[0].timestamp >= key {
        0
    } else {
        1 + pre_split(s.drop_first(), key)
    }
}

/// `pre_split` lands inside the sequence, everything before it lies strictly
/// below `key`, and what it lands on (if anything) does not.
proof fn lemma_pre_split_bounds(s: Seq<Sample>, key: int)
    ensures
        0 <= pre_split(s, key) <= s.len(),
        forall|i: int| 0 <= i < pre_split(s, key) ==> #[trigger] s[i].timestamp < key,
        pre_split(s, key) < s.len() ==> s[pre_split(s, key)].timestamp >= key,
    decreases s.len(),
{
    if s.len() > 0 && s[0].timestamp < key {
        lemma_pre_split_bounds(s.drop_first(), key);
        assert forall|i: int| 0 <= i < pre_split(s, key) implies #[trigger] s[i].timestamp
            < key by {
            if i > 0 {
                assert(s[i] == s.drop_first()[i - 1]);
            }
        }
    }
}

/// A boundary with the splitting properties is the split point.
proof fn lemma_pre_split_at(s: Seq<Sample>, key: int, m: int)
    requires
        0 <= m <= s.len(),
        forall|i: int| 0 <= i < m ==> #[trigger] s[i].timestamp < key,
        m < s.len() ==> s[m].timestamp >= key,
    ensures
        pre_split(s, key) == m,
    decreases s.len(),
{
    if s.len() > 0 && m > 0 {
        assert(s[0].timestamp < key);
        assert forall|i: int| 0 <= i < m - 1 implies #[trigger] s.drop_first()[i].timestamp
            < key by {
            assert(s.drop_first()[i] == s[i + 1]);
        }
        assert(m - 1 < s.drop_first().len() ==> s.drop_first()[m - 1].timestamp >= key);
        lemma_pre_split_at(s.drop_first(), key, m - 1);
    }
}

/// The pre-order listing after inserting `s` into the unbalanced search tree
/// whose pre-order listing is `p`: the head is the root, the leading run
/// strictly below it is the left subtree's listing and the remainder the
/// right subtree's, and `s` descends left on a strictly smaller timestamp,
/// right otherwise, until it lands as a new leaf.
pub open spec fn pre_order_insert(p: Seq<Sample>, s: Sample) -> Seq<Sample>
    decreases p.len(),
        via pre_order_insert_decreases
{
    if p.len() == 0 {
        seq![s]
    } else {
        let rest = p.drop_first();
        let k = pre_split(rest, p[0].timestamp as int);
        let below = rest.subrange(0, k);
        let above = rest.subrange(k, rest.len() as int);
        if s.timestamp < p[0].timestamp {
            seq![p[0]] + pre_order_insert(below, s) + above
        } else {
            seq![p[0]] + below + pre_order_insert(above, s)
        }
    }
}

#[via_fn]
proof fn pre_order_insert_decreases(p: Seq<Sample>, s: Sample) {
    if p.len() > 0 {
        lemma_pre_split_bounds(p.drop_first(), p[0].timestamp as int);
    }
}

/// Chronological ingestion appends: when no present timestamp exceeds the
/// new sample's, insertion lands it as the rightmost leaf, so the pre-order
/// listing simply gains it at the end.
pub proof fn lemma_pre_order_insert_monotone(p: Seq<Sample>, s: Sample)
    requires
        forall|i: int| 0 <= i < p.len() ==> #[trigger] p[i].timestamp <= s.timestamp,
    ensures
        pre_order_insert(p, s) == p.push(s),
    decreases p.len(),
{
    if p.len() == 0 {
        assert(pre_order_insert(p, s) =~= p.push(s));
    } else {
        let rest = p.drop_first();
        let key = p[0].timestamp as int;
        lemma_pre_split_bounds(rest, key);
        let k = pre_split(rest, key);
        let below = rest.subrange(0, k);
        let above = rest.subrange(k, rest.len() as int);
        assert forall|i: int| 0 <= i < above.len() implies #[trigger] above[i].timestamp
            <= s.timestamp by {
            assert(above[i] == p[k + 1 + i]);
        }
        lemma_pre_order_insert_monotone(above, s);
        assert(p[0].timestamp <= s.timestamp);
        assert(pre_order_insert(p, s) =~= seq![p[0]] + below + above.push(s));
        assert(seq![p[0]] + below + above.push(s) =~= p.push(s));
    }
}

/// When every sample in a subtree's in-order listing lies strictly below a
/// bound, so does every sample in its pre-order listing.
proof fn lemma_pre_order_bound_lt(node: Option<Box<TreeNode>>, b: int)
    requires
        forall|i: int|
            0 <= i < seq_of_opt(node).len() ==> #[trigger] seq_of_opt(node)[i].timestamp < b,
    ensures
        forall|i: int|
            0 <= i < pre_order_of_opt(node).len() ==> #[trigger] pre_order_of_opt(
                node,
            )[i].timestamp < b,
    decreases node,
{
    match node {
        None => {},
        Some(n) => {
            let left = seq_of_opt(n.left);
            let right = seq_of_opt(n.right);
            let whole = seq_of_opt(node);
            assert(whole == left + seq![n.sample] + right);
            assert(forall|i: int| 0 <= i < left.len() ==> whole[i] == #[trigger] left[i]);
            assert(whole[left.len() as int] == n.sample);
            assert(forall|i: int|
                0 <= i < right.len() ==> whole[left.len() + 1 + i] == #[trigger] right[i]);
            lemma_pre_order_bound_lt(n.left, b);
            lemma_pre_order_bound_lt(n.right, b);
            let pre_left = pre_order_of_opt(n.left);
            let pre_right = pre_order_of_opt(n.right);
            let pre_whole = pre_order_of_opt(node);
            assert(pre_whole == seq![n.sample] + pre_left + pre_right);
            assert forall|i: int| 0 <= i < pre_whole.len() implies #[trigger] pre_whole[i].timestamp
                < b by {
                if i == 0 {
                    assert(pre_whole[0] == n.sample);
                } else if i <= pre_left.len() {
                    assert(pre_whole[i] == pre_left[i - 1]);
                } else {
                    assert(pre_whole[i] == pre_right[i - 1 - pre_left.len()]);
                }
            }
        },
    }
}

/// The windowed sum and count of the samples under an optional node, by the
/// pruning descent: a node below the window rules out its left subtree, one
/// above it rules out its right subtree, and one inside it contributes its
/// reading and descends both ways.
fn sum_and_count_node(node: &Option<Box<TreeNode>>, from: i64, to: i64) -> (r: (u64, u64))
    requires
        wf_opt(*node),
        window_sum(seq_of_opt(*node), from as int, to as int) <= u64::MAX,
        window_count(seq_of_opt(*node), from as int, to as int) <= u64::MAX,
    ensures
        r.0 == window_sum(seq_of_opt(*node), from as int, to as int),
        r.1 == window_count(seq_of_opt(*node), from as int, to as int),
    decreases node,
{
    match node {
        None => (0, 0),
        Some(n) => {
            let ghost left = seq_of_opt(n.left);
            let ghost right = seq_of_opt(n.right);
            let ghost own = seq![n.sample];
            let ghost f = from as int;
            let ghost t = to as int;
            proof {
                assert(seq_of_opt(*node) == left + own + right);
                lemma_window_concat(left + own, right, f, t);
                lemma_window_concat(left, own, f, t);
                assert(own.drop_first() =~= Seq::<Sample>::empty());
                assert(window_sum(Seq::<Sample>::empty(), f, t) == 0);
                assert(window_count(Seq::<Sample>::empty(), f, t) == 0);
                assert(own[0] == n.sample);
                assert(window_sum(own, f, t) == (if in_window(f, t, n.sample.timestamp as int) {
                    n.sample.heart_rate as int
                } else {
                    0
                }));
                assert(window_count(own, f, t) == (if in_window(f, t, n.sample.timestamp as int) {
                    1int
                } else {
                    0int
                }));
                lemma_window_bounds(left, f, t);
                lemma_window_bounds(right, f, t);
            }
            if n.sample.timestamp < from {
                proof {
                    lemma_window_empty(left, f, t);
                }
                sum_and_count_node(&n.right, from, to)
            } else if n.sample.timestamp > to {
                proof {
                    lemma_window_empty(right, f, t);
                }
                sum_and_count_node(&n.left, from, to)
            } else {
                let (left_sum, left_count) = sum_and_count_node(&n.left, from, to);
                let (right_sum, right_count) = sum_and_count_node(&n.right, from, to);
                (left_sum + right_sum + n.sample.heart_rate, left_count + right_count + 1)
            }
        },
    }
}

/// Attaches `s` below an optional node, descending left on strictly smaller
/// timestamps and right otherwise, so that in the in-order listing `s` lands
/// after every sample with a timestamp at most its own and before every
/// strictly later one, and the pre-order listing changes exactly as
/// `pre_order_insert` says.
fn insert_into_optional(node: &mut Option<Box<TreeNode>>, s: Sample)
    requires
        wf_opt(*old(node)),
        valid_instant(s.timestamp as int),
    ensures
        wf_opt(*final(node)),
        seq_of_opt(*final(node)) =~= seq_of_opt(*old(node)).insert(
            num_le(seq_of_opt(*old(node)), s.timestamp as int),
            s,
        ),
        pre_order_of_opt(*final(node)) =~= pre_order_insert(pre_order_of_opt(*old(node)), s),
    decreases *old(node),
{
    match node.take() {
        None => {
            *node = Some(Box::new(TreeNode { sample: s, left: None, right: None }));
            proof {
                let empty = Seq::<Sample>::empty();
                assert(seq_of_opt(None::<Box<TreeNode>>) == empty);
                assert(pre_order_of_opt(None::<Box<TreeNode>>) == empty);
                assert(seq_of_opt(*node) =~= empty.insert(0, s));
                assert(pre_order_insert(empty, s) == seq![s]);
                assert(pre_order_of_opt(*node) =~= seq![s]);
            }
        },
        Some(mut boxed_node) => {
            (&mut *boxed_node).insert_sample(s);
            *node = Some(boxed_node);
        },
    }
}

impl TreeNode {
    /// The recursive descent of insertion, on a node that is present.
    #[verifier::rlimit(60)]
    fn insert_sample(&mut self, s: Sample)
        requires
            old(self).well_formed(),
            valid_instant(s.timestamp as int),
        ensures
            final(self).well_formed(),
            final(self).in_order() =~= old(self).in_order().insert(
                num_le(old(self).in_order(), s.timestamp as int),
                s,
            ),
            final(self).pre_order() =~= pre_order_insert(old(self).pre_order(), s),
        decreases *old(self),
    {
        let ghost left = seq_of_opt(self.left);
        let ghost right = seq_of_opt(self.right);
        let ghost own = seq![old(self).sample];
        let ghost whole = old(self).in_order();
        let ghost t = s.timestamp as int;
        let ghost key = old(self).sample.timestamp as int;
        let ghost pre_left = pre_order_of_opt(self.left);
        let ghost pre_right = pre_order_of_opt(self.right);
        let ghost pre_whole = old(self).pre_order();
        proof {
            assert(whole == left + own + right);
            lemma_num_le_concat(left + own, right, t);
            lemma_num_le_concat(left, own, t);
            assert(own.drop_first() =~= Seq::<Sample>::empty());
            assert(num_le(Seq::<Sample>::empty(), t) == 0);
            assert(own[0] == old(self).sample);
            lemma_num_le_bounds(left, t);
            lemma_num_le_bounds(right, t);
            assert(whole[left.len() as int] == old(self).sample);
            assert(forall|i: int|
                0 <= i < right.len() ==> whole[left.len() + 1 + i] == #[trigger] right[i]);
            assert(forall|i: int| 0 <= i < left.len() ==> whole[i] == #[trigger] left[i]);
            // The entries after the root of the pre-order listing split into
            // the left listing (all strictly below the root's timestamp) and
            // the right listing, whose head is the right child itself.
            assert(pre_whole == own + pre_left + pre_right);
            assert(pre_whole[0] == old(self).sample);
            assert(pre_whole.drop_first() =~= pre_left + pre_right);
            lemma_pre_order_bound_lt(old(self).left, key);
            assert(forall|i: int|
                0 <= i < pre_left.len() ==> (pre_left + pre_right)[i] == #[trigger] pre_left[i]);
            assert(forall|i: int|
                0 <= i < pre_right.len() ==> (pre_left + pre_right)[pre_left.len() + i]
                    == #[trigger] pre_right[i]);
            if pre_right.len() > 0 {
                match old(self).right {
                    Some(r) => {
                        assert(pre_right[0] == r.sample);
                        assert(seq_of_opt(old(self).right)[seq_of_opt(r.left).len() as int]
                            == r.sample);
                        assert(pre_right[0].timestamp >= key);
                    },
                    None => {},
                }
            }
            lemma_pre_split_at(pre_left + pre_right, key, pre_left.len() as int);
            assert((pre_left + pre_right).subrange(0, pre_left.len() as int) =~= pre_left);
            assert((pre_left + pre_right).subrange(
                pre_left.len() as int,
                (pre_left + pre_right).len() as int,
            ) =~= pre_right);
        }
        if s.timestamp < self.sample.timestamp {
            insert_into_optional(&mut self.left, s);
            proof {
                let k = num_le(left, t);
                // The node and its whole right subtree lie strictly above `t`,
                // so the landing position within the whole listing is the one
                // within the left listing.
                lemma_num_le_extremes(right, t);
                assert(num_le(whole, t) == k);
                left.insert_ensures(k, s);
                whole.insert_ensures(k, s);
                assert(self.in_order() =~= whole.insert(k, s));
                assert(self.pre_order() =~= own + pre_order_insert(pre_left, s) + pre_right);
                assert(pre_order_insert(pre_whole, s) == seq![pre_whole[0]] + pre_order_insert(
                    pre_left,
                    s,
                ) + pre_right);
                assert(self.pre_order() =~= pre_order_insert(pre_whole, s));
            }
        } else {
            insert_into_optional(&mut self.right, s);
            proof {
                let k = num_le(right, t);
                // Everything left of the node, and the node itself, lies at or
                // below `t`, so the landing position shifts past them.
                lemma_num_le_extremes(left, t);
                assert(num_le(whole, t) == left.len() + 1 + k);
                right.insert_ensures(k, s);
                whole.insert_ensures(left.len() + 1 + k, s);
                assert(self.in_order() =~= whole.insert(left.len() + 1 + k, s));
                assert(self.pre_order() =~= own + pre_left + pre_order_insert(pre_right, s));
                assert(pre_order_insert(pre_whole, s) == seq![pre_whole[0]] + pre_left
                    + pre_order_insert(pre_right, s));
                assert(self.pre_order() =~= pre_order_insert(pre_whole, s));
            }
        }
    }
}

/// Every timestamp stored in a well-formed subtree is a representable
/// instant.
proof fn lemma_wf_instants_valid(node: Option<Box<TreeNode>>)
    requires
        wf_opt(node),
    ensures
        forall|i: int|
            0 <= i < seq_of_opt(node).len() ==> valid_instant(
                #[trigger] seq_of_opt(node)[i].timestamp as int,
            ),
    decreases node,
{
    match node {
        None => {},
        Some(n) => {
            lemma_wf_instants_valid(n.left);
            lemma_wf_instants_valid(n.right);
            let left = seq_of_opt(n.left);
            let right = seq_of_opt(n.right);
            let whole = seq_of_opt(node);
            assert(whole == left + seq![n.sample] + right);
            assert(forall|i: int| 0 <= i < left.len() ==> whole[i] == #[trigger] left[i]);
            assert(whole[left.len() as int] == n.sample);
            assert(forall|i: int|
                0 <= i < right.len() ==> whole[left.len() + 1 + i] == #[trigger] right[i]);
            assert forall|i: int| 0 <= i < whole.len() implies valid_instant(
                #[trigger] whole[i].timestamp as int,
            ) by {
                if i < left.len() {
                    assert(whole[i] == left[i]);
                } else if i > left.len() {
                    assert(whole[i] == right[i - left.len() - 1]);
                }
            }
        },
    }
}

/// The trailing window of length `window` that ends at the external
/// timestamp `now`, as mathematical bounds: `[now - window, now]` over the
/// instant `now` stands for, or nothing when `now` stands for none.
pub open spec fn trailing_window(now: u64, window: u64) -> Option<(int, int)> {
    match instant_of_secs(now) {
        None => None,
        Some(t) => Some((t as int - window as int, t as int)),
    }
}

impl HeartRateTree {
    /// The samples in the tree, in non-decreasing timestamp order.
    pub closed spec fn samples(self) -> Seq<Sample> {
        seq_of_opt(self.root)
    }

    /// The samples in the tree, in the physical (pre-order) shape of the
    /// tree; this is the order `render` dumps them in.
    pub closed spec fn dump_order(self) -> Seq<Sample> {
        pre_order_of_opt(self.root)
    }

    /// The tree's invariant: the search-tree ordering holds everywhere and
    /// every stored timestamp is a representable instant.
    pub closed spec fn well_formed(self) -> bool {
        wf_opt(self.root)
    }

    /// Returns an empty tree.
    pub fn new() -> (t: Self)
        ensures
            t.well_formed(),
            t@ == Seq::<Sample>::empty(),
            t.dump_order() == Seq::<Sample>::empty(),
    {
        HeartRateTree { root: None }
    }

    /// Inserts a reading captured at `timestamp` (seconds since the Unix
    /// epoch). When the timestamp stands for no representable instant the
    /// tree is left unchanged; otherwise the sample lands, in the in-order
    /// listing, after every sample with a timestamp at most its own and
    /// before every strictly later one, and the dump (pre-order) listing
    /// changes exactly as `pre_order_insert` says — in particular, under
    /// chronological ingestion it simply gains the sample at its end
    /// (`lemma_pre_order_insert_monotone`).
    pub fn insert(&mut self, timestamp: u64, heart_rate: u64)
        requires
            old(self).well_formed(),
        ensures
            final(self).well_formed(),
            match instant_of_secs(timestamp) {
                None => *final(self) == *old(self),
                Some(t) => {
                    &&& final(self)@ == old(self)@.insert(
                        num_le(old(self)@, t as int),
                        Sample { timestamp: t, heart_rate },
                    )
                    &&& final(self).dump_order() == pre_order_insert(
                        old(self).dump_order(),
                        Sample { timestamp: t, heart_rate },
                    )
                },
            },
    {
        match secs_to_instant(timestamp) {
            None => {},
            Some(t) => {
                let s = Sample { timestamp: t, heart_rate };
                insert_into_optional(&mut self.root, s);
            },
        }
    }

    /// The sum and count of the samples whose timestamp lies in the closed
    /// window `[from, to]`, exactly as a naive linear scan over the samples
    /// would compute them. The mean of the window is `sum / count`, with a
    /// count of zero standing for "no samples".
    pub fn sum_and_count(&self, from: i64, to: i64) -> (r: (u64, u64))
        requires
            self.well_formed(),
            window_sum(self@, from as int, to as int) <= u64::MAX,
            window_count(self@, from as int, to as int) <= u64::MAX,
        ensures
            r.0 == window_sum(self@, from as int, to as int),
            r.1 == window_count(self@, from as int, to as int),
    {
        sum_and_count_node(&self.root, from, to)
    }

    /// The sum and count of the samples in the trailing window of `window`
    /// seconds ending at `now` (both bounds included). When `now` stands for
    /// no representable instant the zero aggregate is returned; the mean of
    /// the window is `sum / count`, a count of zero standing for "no
    /// samples".
    pub fn average_in_trailing_window(&self, now: u64, window: u64) -> (r: (u64, u64))
        requires
            self.well_formed(),
            match trailing_window(now, window) {
                None => true,
                Some((from, to)) => window_sum(self@, from, to) <= u64::MAX && window_count(
                    self@,
                    from,
                    to,
                ) <= u64::MAX,
            },
        ensures
            match trailing_window(now, window) {
                None => r == (0u64, 0u64),
                Some((from, to)) => r.0 == window_sum(self@, from, to) && r.1 == window_count(
                    self@,
                    from,
                    to,
                ),
            },
    {
        match secs_to_instant(now) {
            None => (0, 0),
            Some(t) => {
                // Every stored instant is representable, so a window start
                // below the representable range selects the same samples as
                // one clamped to its lower end.
                let span: u64 = (t - MIN_INSTANT) as u64;
                let from: i64 = if window >= span {
                    MIN_INSTANT
                } else {
                    t - (window as i64)
                };
                proof {
                    lemma_wf_instants_valid(self.root);
                    lemma_window_congruent(
                        self@,
                        from as int,
                        t as int,
                        t as int - window as int,
                        t as int,
                    );
                }
                sum_and_count_node(&self.root, from, t)
            },
        }
    }

    /// The aggregate over the sixty seconds ending at `current_time`: the
    /// sum and count of the samples in `[current_time - 60, current_time]`,
    /// the zero aggregate when `current_time` stands for no representable
    /// instant. The average of the window is `sum / count`, a count of zero
    /// standing for "no samples" and read as a zero average.
    pub fn average_last_minute(&self, current_time: u64) -> (r: (u64, u64))
        requires
            self.well_formed(),
            match trailing_window(current_time, 60) {
                None => true,
                Some((from, to)) => window_sum(self@, from, to) <= u64::MAX && window_count(
                    self@,
                    from,
                    to,
                ) <= u64::MAX,
            },
        ensures
            match trailing_window(current_time, 60) {
                None => r == (0u64, 0u64),
                Some((from, to)) => r.0 == window_sum(self@, from, to) && r.1 == window_count(
                    self@,
                    from,
                    to,
                ),
            },
    {
        self.average_in_trailing_window(current_time, 60)
    }

    /// Renders one line per sample in the physical, pre-order shape of the
    /// tree (node, then left subtree, then right subtree) — not in
    /// chronological order. An empty tree renders as the empty string.
    pub fn render(&self) -> (r: String)
        requires
            self.well_formed(),
        ensures
            r@ == render_seq(self.dump_order()),
    {
        let mut out = String::new();
        render_node(&self.root, &mut out);
        out
    }
}

/// The search-tree invariant makes the in-order listing chronological: for
/// every insertion history, an in-order traversal of a well-formed tree
/// yields its samples in non-decreasing timestamp order.
pub proof fn lemma_in_order_sorted(t: HeartRateTree)
    requires
        t.well_formed(),
    ensures
        forall|i: int, j: int|
            0 <= i <= j < t@.len() ==> #[trigger] t@[i].timestamp <= #[trigger] t@[j].timestamp,
{
    lemma_in_order_sorted_opt(t.root);
    assert(t@ == seq_of_opt(t.root));
}

/// The in-order listing under a well-formed optional node is sorted by
/// timestamp.
proof fn lemma_in_order_sorted_opt(node: Option<Box<TreeNode>>)
    requires
        wf_opt(node),
    ensures
        forall|i: int, j: int|
            0 <= i <= j < seq_of_opt(node).len() ==> #[trigger] seq_of_opt(node)[i].timestamp
                <= #[trigger] seq_of_opt(node)[j].timestamp,
    decreases node,
{
    match node {
        None => {},
        Some(n) => {
            lemma_in_order_sorted_opt(n.left);
            lemma_in_order_sorted_opt(n.right);
            let left = seq_of_opt(n.left);
            let right = seq_of_opt(n.right);
            let whole = seq_of_opt(node);
            assert(whole == left + seq![n.sample] + right);
            assert(whole[left.len() as int] == n.sample);
            assert forall|i: int, j: int| 0 <= i <= j < whole.len() implies #[trigger] whole[i].timestamp
                <= #[trigger] whole[j].timestamp by {
                if i < left.len() {
                    assert(whole[i] == left[i]);
                } else if i > left.len() {
                    assert(whole[i] == right[i - left.len() - 1]);
                }
                if j < left.len() {
                    assert(whole[j] == left[j]);
                } else if j > left.len() {
                    assert(whole[j] == right[j - left.len() - 1]);
                }
            }
        },
    }
}

/// The dump (pre-order) listing holds exactly the samples of the
/// chronological (in-order) listing: the two traversals are permutations of
/// one another, so the dump shows every inserted sample exactly once.
pub proof fn lemma_dump_order_permutes(t: HeartRateTree)
    ensures
        t.dump_order().to_multiset() == t@.to_multiset(),
{
    lemma_orders_permute_opt(t.root);
}

/// The pre-order and in-order listings under an optional node are
/// permutations of one another.
proof fn lemma_orders_permute_opt(node: Option<Box<TreeNode>>)
    ensures
        pre_order_of_opt(node).to_multiset() == seq_of_opt(node).to_multiset(),
    decreases node,
{
    broadcast use vstd::multiset::group_multiset_axioms;

    match node {
        None => {},
        Some(n) => {
            lemma_orders_permute_opt(n.left);
            lemma_orders_permute_opt(n.right);
            let own = seq![n.sample];
            let left = seq_of_opt(n.left);
            let right = seq_of_opt(n.right);
            let pre_left = pre_order_of_opt(n.left);
            let pre_right = pre_order_of_opt(n.right);
            vstd::seq_lib::lemma_multiset_commutative(left + own, right);
            vstd::seq_lib::lemma_multiset_commutative(left, own);
            vstd::seq_lib::lemma_multiset_commutative(own + pre_left, pre_right);
            vstd::seq_lib::lemma_multiset_commutative(own, pre_left);
            assert(pre_order_of_opt(node).to_multiset() =~= seq_of_opt(node).to_multiset());
        },
    }
}

/// Appends to `out` the dump of the subtree under an optional node, in
/// pre-order.
fn render_node(node: &Option<Box<TreeNode>>, out: &mut String)
    requires
        wf_opt(*node),
    ensures
        final(out)@ == old(out)@ + render_seq(pre_order_of_opt(*node)),
    decreases node,
{
    match node {
        None => {
            proof {
                assert(render_seq(pre_order_of_opt(*node)) =~= Seq::<char>::empty());
                assert(old(out)@ + Seq::<char>::empty() =~= old(out)@);
            }
        },
        Some(n) => {
            let line = render_line_of(n.sample);
            out.append(line.as_str());
            render_node(&n.left, out);
            render_node(&n.right, out);
            proof {
                let own = seq![n.sample];
                let pre_left = pre_order_of_opt(n.left);
                let pre_right = pre_order_of_opt(n.right);
                assert(pre_order_of_opt(*node) == own + pre_left + pre_right);
                lemma_render_concat(own + pre_left, pre_right);
                lemma_render_concat(own, pre_left);
                assert(own.drop_first() =~= Seq::<Sample>::empty());
                assert(render_seq(Seq::<Sample>::empty()) == Seq::<char>::empty());
                assert(own[0] == n.sample);
                assert(render_seq(own) =~= render_line(n.sample));
                assert(out@ =~= old(out)@ + render_seq(pre_order_of_opt(*node)));
            }
        },
    }
}

impl View for HeartRateTree {
    type V = Seq<Sample>;

    open spec fn view(&self) -> Seq<Sample> {
        self.samples()
    }
}

} // verus!
