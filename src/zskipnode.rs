use crate::score::Score;
use std::cmp::Ordering;
use vstd::prelude::*;

verus! {

/// One level of a node: the arena slot of the next node at this level, and
/// the number of level-0 hops that link skips.
#[derive(Clone, Copy, PartialEq, Eq, Structural, Debug)]
pub struct ZSkipLevel {
    pub forward: Option<usize>,
    pub span: usize,
}

/// A skip-list node: a member (none for the sentinel head), its score, the
/// slot of the node before it at level 0, and its levels.
#[derive(Debug)]
pub struct ZSkipNode {
    pub val: Option<i64>,
    pub score: Score,
    pub backward: Option<usize>,
    pub level: Vec<ZSkipLevel>,
}

/// Every level in `levels` is unlinked with span zero.
pub open spec fn all_empty(levels: Seq<ZSkipLevel>) -> bool {
    forall|i: int| 0 <= i < levels.len() ==> #[trigger] levels[i] == ZSkipLevel { forward: None, span: 0 }
}

fn empty_levels(count: usize) -> (r: Vec<ZSkipLevel>)
    ensures
        r@.len() == count,
        all_empty(r@),
{
    let mut v: Vec<ZSkipLevel> = Vec::new();
    let mut i: usize = 0;
    while i < count
        invariant
            i <= count,
            v@.len() == i,
            all_empty(v@),
        decreases count - i,
    {
        v.push(ZSkipLevel { forward: None, span: 0 });
        i = i + 1;
    }
    v
}

impl ZSkipNode {
    /// The sentinel head: no member, score zero, `level_bound` empty levels.
    pub fn head(level_bound: usize) -> (r: ZSkipNode)
        ensures
            r.val is None,
            r.score.bits == 0,
            r.backward is None,
            r.level@.len() == level_bound,
            all_empty(r.level@),
    {
        ZSkipNode { val: None, score: Score { bits: 0 }, backward: None, level: empty_levels(level_bound) }
    }

    /// A node for `item` with `level` empty levels.
    pub fn new(item: i64, level: usize, score: Score) -> (r: ZSkipNode)
        ensures
            r.val == Some(item),
            r.score == score,
            r.backward is None,
            r.level@.len() == level,
            all_empty(r.level@),
    {
        ZSkipNode { val: Some(item), score, backward: None, level: empty_levels(level) }
    }

    /// The member, consuming the node.
    pub fn into_val(self) -> (r: Option<i64>)
        ensures
            r == self.val,
    {
        self.val
    }

    /// The member, consuming the node; the node is not the head.
    pub fn into_item(self) -> (r: i64)
        requires
            self.val is Some,
        ensures
            r == self.val->0,
    {
        match self.val {
            Some(v) => v,
            None => 0,
        }
    }

    /// Compares the scores of two nodes by their ordering key.
    pub fn cmp(&self, other: &ZSkipNode) -> (r: Ordering)
        ensures
            r == (if self.score.spec_key() < other.score.spec_key() {
                Ordering::Less
            } else if self.score.spec_key() == other.score.spec_key() {
                Ordering::Equal
            } else {
                Ordering::Greater
            }),
    {
        let a = self.score.key();
        let b = other.score.key();
        if a < b {
            Ordering::Less
        } else if a == b {
            Ordering::Equal
        } else {
            Ordering::Greater
        }
    }

    /// Whether this is the sentinel head, which holds no member.
    pub fn is_head(&self) -> (r: bool)
        ensures
            r == (self.val is None),
    {
        self.val.is_none()
    }

    /// Whether no node follows this one at level 0.
    pub fn is_tail(&self) -> (r: bool)
        requires
            self.level@.len() > 0,
        ensures
            r == (self.level@[0].forward is None),
    {
        self.level[0].forward.is_none()
    }

    /// The number of levels of this node.
    pub fn level(&self) -> (r: usize)
        ensures
            r == self.level@.len(),
    {
        self.level.len()
    }

    /// The span of the link at `level`.
    pub fn get_span(&self, level: usize) -> (r: usize)
        requires
            level < self.level@.len(),
        ensures
            r == self.level@[level as int].span,
    {
        self.level[level].span
    }
}

} // verus!
