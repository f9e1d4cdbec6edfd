//! Nodes of a reduction graph and fixed-point probabilities.

use vstd::prelude::*;

verus! {

/// A probability of one, in billionths. Probabilities are fixed-point numbers
/// with nine decimal places, held in a `u64`.
pub const ONE: u64 = 1_000_000_000;

/// A node of a reduction graph.
#[derive(PartialEq, Debug)]
pub enum Node {
    /// An action with its expected duration.
    N(u64),
    /// Mutually exclusive alternatives, each with its probability.
    B(Vec<(Node, u64)>),
    /// A group of concurrent paths, with the duration of its slowest member.
    P(u64),
}

/// Mathematical value of a [`Node`].
pub enum NodeView {
    N(u64),
    B(Seq<(NodeView, u64)>),
    P(u64),
}

impl View for Node {
    type V = NodeView;

    open spec fn view(&self) -> NodeView
        decreases self, 0nat,
    {
        match self {
            Node::N(w) => NodeView::N(*w),
            Node::B(alts) => NodeView::B(alternatives_view(alts@)),
            Node::P(w) => NodeView::P(*w),
        }
    }
}

/// Mathematical value of the alternatives of a branch.
pub open spec fn alternatives_view(alts: Seq<(Node, u64)>) -> Seq<(NodeView, u64)>
    decreases alts, 1nat,
{
    if alts.len() == 0 {
        Seq::empty()
    } else {
        alternatives_view(alts.drop_last()).push((alts.last().0.view(), alts.last().1))
    }
}

/// The value of a list of alternatives has one entry for each of them.
pub proof fn lemma_alternatives_view(alts: Seq<(Node, u64)>)
    ensures
        alternatives_view(alts).len() == alts.len(),
        forall|k: int|
            0 <= k < alts.len() ==> #[trigger] alternatives_view(alts)[k] == (alts[k].0@, alts[k].1),
    decreases alts.len(),
{
    if alts.len() > 0 {
        lemma_alternatives_view(alts.drop_last());
        assert(alternatives_view(alts) == alternatives_view(alts.drop_last()).push(
            (alts.last().0.view(), alts.last().1),
        ));
    } else {
        assert(alternatives_view(alts) == Seq::<(NodeView, u64)>::empty());
    }
}

/// Largest distance from [`ONE`], in billionths, at which a sum of
/// probabilities still counts as one.
pub const TOLERANCE: u64 = 1_000;

/// The value nearest to `x` that a `u64` holds.
pub open spec fn saturate(x: int) -> u64 {
    if x < 0 {
        0
    } else if x > u64::MAX {
        u64::MAX
    } else {
        x as u64
    }
}

/// Sum of two durations or probabilities; it stops at `u64::MAX`.
pub open spec fn sum(a: u64, b: u64) -> u64 {
    saturate(a + b)
}

/// Product of a value and a probability, rounded down; it stops at `u64::MAX`.
pub open spec fn product(a: u64, p: u64) -> u64 {
    saturate((a * p) / (ONE as int))
}

/// The probability `count / total`, rounded down, and zero where `total` is
/// zero; it stops at `u64::MAX`.
pub open spec fn ratio(count: u64, total: u64) -> u64 {
    if total == 0 {
        0
    } else {
        saturate((count * ONE) / (total as int))
    }
}

/// A probability divided by the mass `1 - p` that leaves a loop of
/// probability `p < 1`, rounded down; it stops at `u64::MAX`.
pub open spec fn rescaled(w: u64, p: u64) -> u64
    recommends
        p < ONE,
{
    saturate((w * ONE) / (ONE - p))
}

/// The time that a loop of probability `p < 1` adds to a node of the given
/// duration: `p / (1 - p)` expected further runs, rounded down to whole units
/// of time; it stops at `u64::MAX`.
pub open spec fn loop_time(duration: u64, p: u64) -> u64
    recommends
        p < ONE,
{
    saturate((p * duration) / (ONE - p))
}

/// Whether a sum of probabilities equals one within [`TOLERANCE`].
pub open spec fn is_one(mass: u64) -> bool {
    ONE - TOLERANCE <= mass <= ONE + TOLERANCE
}

/// Whether a sum of probabilities exceeds one by more than [`TOLERANCE`].
pub open spec fn exceeds_one(mass: u64) -> bool {
    mass > ONE + TOLERANCE
}

/// Executable form of [`sum`].
pub fn sum_of(a: u64, b: u64) -> (r: u64)
    ensures
        r == sum(a, b),
{
    if a > u64::MAX - b {
        u64::MAX
    } else {
        a + b
    }
}

/// `a * b / d` in 128 bits, cut off at `u64::MAX`.
fn scaled(a: u64, b: u64, d: u64) -> (r: u64)
    requires
        d > 0,
    ensures
        r == saturate((a * b) / (d as int)),
{
    assert(a * b <= 0xFFFF_FFFF_FFFF_FFFF * 0xFFFF_FFFF_FFFF_FFFF) by (nonlinear_arith)
        requires
            a <= 0xFFFF_FFFF_FFFF_FFFF,
            b <= 0xFFFF_FFFF_FFFF_FFFF,
    ;
    let wide: u128 = (a as u128) * (b as u128);
    let q: u128 = wide / (d as u128);
    if q > u64::MAX as u128 {
        u64::MAX
    } else {
        q as u64
    }
}

/// Executable form of [`product`].
pub fn product_of(a: u64, p: u64) -> (r: u64)
    ensures
        r == product(a, p),
{
    scaled(a, p, ONE)
}

/// Executable form of [`ratio`].
pub fn ratio_of(count: u64, total: u64) -> (r: u64)
    ensures
        r == ratio(count, total),
{
    if total == 0 {
        0
    } else {
        scaled(count, ONE, total)
    }
}

/// Executable form of [`rescaled`].
pub fn rescaled_by(w: u64, p: u64) -> (r: u64)
    requires
        p < ONE,
    ensures
        r == rescaled(w, p),
{
    scaled(w, ONE, ONE - p)
}

/// Executable form of [`loop_time`].
pub fn loop_time_of(duration: u64, p: u64) -> (r: u64)
    requires
        p < ONE,
    ensures
        r == loop_time(duration, p),
{
    scaled(p, duration, ONE - p)
}

/// The expected duration of a node: its own for an action or a parallel
/// group, the probability-weighted sum of the alternatives for a branch.
pub open spec fn duration(node: NodeView) -> u64
    decreases node, 0nat,
{
    match node {
        NodeView::N(w) => w,
        NodeView::B(alts) => branch_duration(alts),
        NodeView::P(w) => w,
    }
}

/// The probability-weighted sum of the durations of alternatives.
pub open spec fn branch_duration(alts: Seq<(NodeView, u64)>) -> u64
    decreases alts, 1nat,
{
    if alts.len() == 0 {
        0
    } else {
        sum(
            branch_duration(alts.drop_last()),
            product(duration(alts.last().0), alts.last().1),
        )
    }
}

impl Node {
    /// The expected duration of the node.
    pub fn duration(&self) -> (r: u64)
        ensures
            r == duration(self@),
        decreases self,
    {
        match self {
            Node::N(w) => *w,
            Node::P(w) => *w,
            Node::B(alts) => {
                let mut total: u64 = 0;
                let mut i: usize = 0;
                proof {
                    lemma_alternatives_view(alts@);
                }
                while i < alts.len()
                    invariant
                        0 <= i <= alts.len(),
                        self@ is B,
                        self@->B_0.len() == alts.len(),
                        forall|k: int| 0 <= k < alts.len() ==> self@->B_0[k] == (alts[k].0@, alts[k].1),
                        forall|k: int| 0 <= k < alts.len() ==> decreases_to!(self => alts[k].0),
                        total == branch_duration(self@->B_0.take(i as int)),
                    decreases alts.len() - i,
                {
                    proof {
                        let next = self@->B_0.take(i + 1);
                        assert(next.drop_last() =~= self@->B_0.take(i as int));
                    }
                    let d = alts[i].0.duration();
                    total = sum_of(total, product_of(d, alts[i].1));
                    i += 1;
                }
                proof {
                    assert(self@->B_0.take(i as int) =~= self@->B_0);
                }
                total
            },
        }
    }
}

impl Clone for Node {
    /// A copy of the node, with copies of all its alternatives.
    fn clone(&self) -> (r: Node)
        ensures
            r@ == self@,
        decreases self,
    {
        match self {
            Node::N(w) => Node::N(*w),
            Node::P(w) => Node::P(*w),
            Node::B(alts) => {
                let mut copy: Vec<(Node, u64)> = Vec::new();
                let mut i: usize = 0;
                while i < alts.len()
                    invariant
                        0 <= i <= alts.len(),
                        copy@.len() == i,
                        forall|k: int| 0 <= k < alts.len() ==> decreases_to!(self => alts[k].0),
                        forall|k: int|
                            0 <= k < i ==> (#[trigger] copy@[k]).0@ == alts@[k].0@ && copy@[k].1
                                == alts@[k].1,
                    decreases alts.len() - i,
                {
                    let alt = alts[i].0.clone();
                    copy.push((alt, alts[i].1));
                    i += 1;
                }
                proof {
                    lemma_alternatives_view(alts@);
                    lemma_alternatives_view(copy@);
                    assert(alternatives_view(copy@) =~= alternatives_view(alts@));
                    assert(self@ == NodeView::B(alternatives_view(alts@)));
                }
                Node::B(copy)
            },
        }
    }
}

} // verus!
