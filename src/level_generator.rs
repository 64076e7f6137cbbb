use rand::Rng;
use vstd::prelude::*;

verus! {

/// The level bound of the default policy.
pub const ZSKIPLIST_MAXLEVEL: usize = 16;

/// Why a level policy could not be built.
#[derive(Clone, Copy, PartialEq, Eq, Structural, Debug)]
pub enum LevelConfigError {
    /// The level bound is zero.
    ZeroBound,
    /// The continuation probability is not strictly between 0 and 1.
    ProbabilityOutOfRange,
}

/// A source of node levels for a skip list.
pub trait LevelGenerator {
    /// The largest level this source hands out.
    spec fn spec_level_bound(&self) -> nat;

    /// The source is in a state from which it can draw.
    spec fn spec_wf(&self) -> bool;

    fn level_bound(&self) -> (r: usize)
        ensures
            r == self.spec_level_bound(),
    ;


    /// A level between 1 and the level bound.
    fn random(&mut self) -> (r: usize)
        requires
            old(self).spec_wf(),
        ensures
            final(self).spec_wf(),
            final(self).spec_level_bound() == old(self).spec_level_bound(),
            1 <= r <= old(self).spec_level_bound(),
    ;
}

/// Geometric level policy: a level continues upward with probability
/// `p_num / p_den`, up to `level_bound`.
pub struct DefaultLevelGenerator {
    level_bound: usize,
    p_num: u64,
    p_den: u64,
}

/// Relies on rand's `thread_rng().gen_range(0..bound)`: a uniform draw in
/// `[0, bound)`, which panics only on an empty range.
#[verifier::external_body]
fn draw_below(bound: u64) -> (r: u64)
    requires
        bound > 0,
    ensures
        r < bound,
{
    rand::thread_rng().gen_range(0..bound)
}

impl DefaultLevelGenerator {
    pub closed spec fn wf(&self) -> bool {
        &&& self.level_bound >= 1
        &&& 0 < self.p_num < self.p_den
    }

    pub closed spec fn spec_p_num(&self) -> u64 {
        self.p_num
    }

    pub closed spec fn spec_p_den(&self) -> u64 {
        self.p_den
    }

    /// A well-formed policy has a bound of at least one.
    pub proof fn lemma_wf_bound(&self)
        requires
            self.wf(),
        ensures
            self.spec_level_bound() >= 1,
    {
    }

    /// A policy with the given bound and continuation probability
    /// `p_num / p_den`; fails when the bound is zero or the probability is not
    /// strictly between 0 and 1.
    pub fn new(level_bound: usize, p_num: u64, p_den: u64) -> (r: Result<
        DefaultLevelGenerator,
        LevelConfigError,
    >)
        ensures
            level_bound == 0 ==> r == Err::<DefaultLevelGenerator, _>(LevelConfigError::ZeroBound),
            level_bound != 0 && !(0 < p_num < p_den) ==> r == Err::<DefaultLevelGenerator, _>(
                LevelConfigError::ProbabilityOutOfRange,
            ),
            level_bound != 0 && 0 < p_num < p_den ==> (r matches Ok(g) && g.wf()
                && g.spec_level_bound() == level_bound && g.spec_p_num() == p_num
                && g.spec_p_den() == p_den),
    {
        if level_bound == 0 {
            return Err(LevelConfigError::ZeroBound);
        }
        if p_num == 0 || p_num >= p_den {
            return Err(LevelConfigError::ProbabilityOutOfRange);
        }
        Ok(DefaultLevelGenerator { level_bound, p_num, p_den })
    }

    /// The default policy: bound 16, probability one half.
    pub fn default_policy() -> (r: DefaultLevelGenerator)
        ensures
            r.wf(),
            r.spec_level_bound() == ZSKIPLIST_MAXLEVEL,
            r.spec_p_num() == 1,
            r.spec_p_den() == 2,
    {
        DefaultLevelGenerator { level_bound: ZSKIPLIST_MAXLEVEL, p_num: 1, p_den: 2 }
    }

    /// The level reached from 1 by continuing while each draw, taken in turn,
    /// is below `p_num`, without passing the bound.
    pub fn level_from_draws(&self, draws: &Vec<u64>) -> (r: usize)
        requires
            self.wf(),
        ensures
            r == level_of_draws(draws@, self.spec_p_num() as int, self.spec_level_bound() as int),
    {
        let mut level: usize = 1;
        while level < self.level_bound && level - 1 < draws.len() && draws[level - 1] < self.p_num
            invariant
                self.wf(),
                1 <= level <= self.level_bound,
                level - 1 <= draws@.len(),
                level_of_draws(draws@, self.spec_p_num() as int, self.spec_level_bound() as int)
                    == level_from(draws@, self.spec_p_num() as int, self.spec_level_bound() as int, level as int),
            decreases self.level_bound - level,
        {
            level = level + 1;
        }
        level
    }
}

/// The level reached from `level`, continuing while the draw at index
/// `level - 1` is below `p_num` and the bound is not reached.
pub open spec fn level_from(draws: Seq<u64>, p_num: int, bound: int, level: int) -> int
    decreases bound - level,
{
    if level < bound && 0 <= level - 1 < draws.len() && draws[level - 1] < p_num {
        level_from(draws, p_num, bound, level + 1)
    } else {
        level
    }
}

proof fn lemma_level_from_bounds(draws: Seq<u64>, p_num: int, bound: int, level: int)
    requires
        1 <= level <= bound,
    ensures
        level <= level_from(draws, p_num, bound, level) <= bound,
    decreases bound - level,
{
    if level < bound && 0 <= level - 1 < draws.len() && draws[level - 1] < p_num {
        lemma_level_from_bounds(draws, p_num, bound, level + 1);
    }
}

/// The level that a sequence of draws gives, starting from level 1.
pub open spec fn level_of_draws(draws: Seq<u64>, p_num: int, bound: int) -> int {
    level_from(draws, p_num, bound, 1)
}

impl Default for DefaultLevelGenerator {
    fn default() -> (r: DefaultLevelGenerator)
        ensures
            r.wf(),
            r.spec_level_bound() == ZSKIPLIST_MAXLEVEL,
            r.spec_p_num() == 1,
            r.spec_p_den() == 2,
    {
        DefaultLevelGenerator::default_policy()
    }
}

impl LevelGenerator for DefaultLevelGenerator {
    closed spec fn spec_level_bound(&self) -> nat {
        self.level_bound as nat
    }

    open spec fn spec_wf(&self) -> bool {
        self.wf()
    }

    fn level_bound(&self) -> (r: usize) {
        self.level_bound
    }

    fn random(&mut self) -> (r: usize) {
        let mut draws: Vec<u64> = Vec::new();
        let mut i: usize = 1;
        while i < self.level_bound
            invariant
                self.wf(),
                1 <= i <= self.level_bound,
            decreases self.level_bound - i,
        {
            draws.push(draw_below(self.p_den));
            i = i + 1;
        }
        proof {
            lemma_level_from_bounds(draws@, self.p_num as int, self.level_bound as int, 1);
        }
        self.level_from_draws(&draws)
    }
}

/// The number of flips that came up heads, a head being a 1.
pub open spec fn heads(flips: Seq<u64>) -> nat
    decreases flips.len(),
{
    if flips.len() == 0 {
        0
    } else {
        heads(flips.drop_last()) + if flips.last() == 1 {
            1nat
        } else {
            0nat
        }
    }
}

proof fn lemma_heads_bound(flips: Seq<u64>)
    ensures
        heads(flips) <= flips.len(),
    decreases flips.len(),
{
    if flips.len() > 0 {
        lemma_heads_bound(flips.drop_last());
    }
}

/// One plus the number of heads among `flips`.
pub fn level_from_flips(flips: &Vec<u64>) -> (r: usize)
    requires
        flips@.len() < usize::MAX,
    ensures
        r == 1 + heads(flips@),
{
    let mut level: usize = 1;
    let mut i: usize = 0;
    while i < flips.len()
        invariant
            flips@.len() < usize::MAX,
            i <= flips@.len(),
            level == 1 + heads(flips@.subrange(0, i as int)),
        decreases flips@.len() - i,
    {
        proof {
            lemma_heads_bound(flips@.subrange(0, i as int));
            assert(flips@.subrange(0, i + 1).drop_last() =~= flips@.subrange(0, i as int));
        }
        if flips[i] == 1 {
            level = level + 1;
        }
        i = i + 1;
    }
    assert(flips@.subrange(0, i as int) =~= flips@);
    level
}

/// A level from fifteen fair coin flips: one plus the number of heads.
pub fn generate_random_level() -> (r: usize)
    ensures
        1 <= r <= ZSKIPLIST_MAXLEVEL,
{
    let mut flips: Vec<u64> = Vec::new();
    let mut i: usize = 1;
    while i < ZSKIPLIST_MAXLEVEL
        invariant
            1 <= i <= ZSKIPLIST_MAXLEVEL,
            flips@.len() == i - 1,
        decreases ZSKIPLIST_MAXLEVEL - i,
    {
        flips.push(draw_below(2));
        i = i + 1;
    }
    proof {
        lemma_heads_bound(flips@);
    }
    level_from_flips(&flips)
}

} // verus!
