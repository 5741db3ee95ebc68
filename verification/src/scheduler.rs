//! The pairwise-merge schedule.
//!
//! Given a starting level and a file count at that level, the scheduler
//! enumerates, lazily and without any I/O, the sequence of pairwise merges
//! that reduces the file count to one.  Files at a level are paired off in
//! increasing index order; an odd file out is promoted — carried to the next
//! level unchanged.  The whole schedule is a pure function of `(level, count)`,
//! given here as [`full_schedule`]; [`MergeIterator`] walks it step by step.

use vstd::prelude::*;
use crate::naming::ChunkId;

verus! {

/// One scheduled step: produce chunk `produces` at the next level from
/// `first` and `second`.  When `second` is absent, `first` is promoted
/// (renamed) unchanged; no comparison work is done.
#[derive(Clone, Copy, Debug, PartialEq, Eq)]
pub struct MergeTask {
    pub produces: ChunkId,
    pub first: ChunkId,
    pub second: Option<ChunkId>,
}

/// A task with both inputs present is a true two-way merge.
pub open spec fn is_merge(t: MergeTask) -> bool {
    t.second is Some
}

pub open spec fn merge_pred() -> spec_fn(MergeTask) -> bool {
    |t: MergeTask| is_merge(t)
}

pub open spec fn promo_pred() -> spec_fn(MergeTask) -> bool {
    |t: MergeTask| !is_merge(t)
}

/// The number of true merges in a stretch of schedule.
pub open spec fn merge_count(s: Seq<MergeTask>) -> int {
    s.filter(merge_pred()).len() as int
}

/// The number of promotions in a stretch of schedule.
pub open spec fn promo_count(s: Seq<MergeTask>) -> int {
    s.filter(promo_pred()).len() as int
}

/// How many files one full pass leaves: each pair becomes one file and an odd
/// file out survives, so `n` files become `(n + 1) / 2`.
pub open spec fn half_up(n: int) -> int {
    (n + 1) / 2
}

/// The `j`-th task of a pass over a level holding `n` files: it consumes
/// indices `2j` and `2j + 1` (the latter only if it exists) and produces
/// index `j` one level up.
pub open spec fn task_for(level: int, n: int, j: int) -> MergeTask {
    MergeTask {
        produces: ChunkId { level: (level + 1) as usize, index: j as usize },
        first: ChunkId { level: level as usize, index: (2 * j) as usize },
        second: if 2 * j + 1 < n {
            Some(ChunkId { level: level as usize, index: (2 * j + 1) as usize })
        } else {
            None
        },
    }
}

/// One full pass over a level of `n >= 2` files, in increasing index order.
pub open spec fn level_tasks(level: int, n: int) -> Seq<MergeTask>
    recommends
        n >= 2,
{
    Seq::new(half_up(n) as nat, |j: int| task_for(level, n, j))
}

/// The whole schedule from `n` files at `level` down to a single file:
/// pass after pass until one file remains.
pub open spec fn full_schedule(level: int, n: int) -> Seq<MergeTask>
    decreases n,
{
    if n <= 1 {
        Seq::empty()
    } else {
        level_tasks(level, n) + full_schedule(level + 1, half_up(n))
    }
}

/// The level at which the single surviving file ends up.
pub open spec fn final_level(level: int, n: int) -> int
    decreases n,
{
    if n <= 1 {
        level
    } else {
        final_level(level + 1, half_up(n))
    }
}

proof fn lemma_filter_all(s: Seq<MergeTask>, p: spec_fn(MergeTask) -> bool)
    requires
        forall|i: int| 0 <= i < s.len() ==> p(#[trigger] s[i]),
    ensures
        s.filter(p) == s,
    decreases s.len(),
{
    reveal(Seq::filter);
    if s.len() > 0 {
        lemma_filter_all(s.drop_last(), p);
        assert(p(s[s.len() - 1]));
        assert(s.filter(p) == s.drop_last().filter(p).push(s.last()));
        assert(s.drop_last().push(s.last()) =~= s);
        assert(s.filter(p) =~= s);
    }
}

/// The tasks of one pass over a level with an odd file count hold exactly one
/// promotion (the unpaired last file) and `n / 2` true merges; a pass over an
/// even count holds no promotion at all.
pub proof fn lemma_level_odd_promotion(level: int, n: int)
    requires
        n >= 2,
    ensures
        level_tasks(level, n).len() == half_up(n),
        merge_count(level_tasks(level, n)) == n / 2,
        promo_count(level_tasks(level, n)) == if n % 2 == 1 {
            1int
        } else {
            0int
        },
{
    let lt = level_tasks(level, n);
    let pairs = lt.take(n / 2);
    let rest = lt.skip(n / 2);
    assert(lt =~= pairs + rest);
    assert forall|i: int| 0 <= i < pairs.len() implies merge_pred()(#[trigger] pairs[i]) by {
        assert(pairs[i] == task_for(level, n, i));
        assert(2 * i + 1 < n);
    }
    lemma_filter_all(pairs, merge_pred());
    rest.lemma_all_neg_filter_empty(merge_pred());
    assert forall|i: int| 0 <= i < rest.len() implies promo_pred()(#[trigger] rest[i]) by {
        assert(rest[i] == task_for(level, n, i + n / 2));
        assert(2 * (i + n / 2) + 1 >= n);
    }
    lemma_filter_all(rest, promo_pred());
    pairs.lemma_all_neg_filter_empty(promo_pred());
    Seq::filter_distributes_over_add(pairs, rest, merge_pred());
    Seq::filter_distributes_over_add(pairs, rest, promo_pred());
}

/// The chunk-count law of the schedule: from `n` starting files the scheduler
/// emits exactly `n - 1` true merge tasks over all levels when `n >= 1`, and
/// emits nothing at all when `n <= 1`.
pub proof fn lemma_schedule_merge_count(level: int, n: int)
    requires
        n >= 0,
    ensures
        n <= 1 ==> full_schedule(level, n) == Seq::<MergeTask>::empty(),
        n >= 1 ==> merge_count(full_schedule(level, n)) == n - 1,
    decreases n,
{
    if n <= 1 {
        assert(Seq::<MergeTask>::empty().filter(merge_pred()) =~= Seq::<MergeTask>::empty()) by {
            reveal(Seq::filter);
        }
    } else {
        lemma_level_odd_promotion(level, n);
        lemma_schedule_merge_count(level + 1, half_up(n));
        Seq::filter_distributes_over_add(
            level_tasks(level, n),
            full_schedule(level + 1, half_up(n)),
            merge_pred(),
        );
    }
}

pub proof fn lemma_final_level_bound(level: int, n: int)
    requires
        n >= 2,
    ensures
        level < final_level(level, n) <= level + n - 1,
    decreases n,
{
    if half_up(n) >= 2 {
        lemma_final_level_bound(level + 1, half_up(n));
    } else {
        assert(half_up(n) == 1);
        assert(final_level(level + 1, 1) == level + 1);
    }
}

/// The last task of a whole schedule produces the single surviving file:
/// index 0 at the final level.
pub proof fn lemma_full_schedule_last(level: int, n: int)
    requires
        n >= 2,
        0 <= level,
        level + n <= usize::MAX,
    ensures
        full_schedule(level, n).len() > 0,
        full_schedule(level, n).last().produces == (ChunkId {
            level: final_level(level, n) as usize,
            index: 0,
        }),
    decreases n,
{
    let lt = level_tasks(level, n);
    let fs = full_schedule(level + 1, half_up(n));
    assert(full_schedule(level, n) == lt + fs);
    if half_up(n) >= 2 {
        assert(half_up(n) <= n - 1);
        lemma_full_schedule_last(level + 1, half_up(n));
        assert((lt + fs).last() == fs.last());
        assert(final_level(level, n) == final_level(level + 1, half_up(n)));
    } else {
        assert(n == 2);
        assert(lt.len() == 1);
        assert(fs =~= Seq::<MergeTask>::empty());
        assert((lt + fs).last() == lt[0]);
        assert(lt[0] == task_for(level, n, 0));
        assert(final_level(level + 1, 1) == level + 1);
        assert(final_level(level, n) == level + 1);
    }
}

/// The scheduling iterator.  `file_level` is the level being drained, `count`
/// the file count at that level, `curr_count` how many of them are already
/// paired off, and `new_file_count` how many files the pass has produced one
/// level up.
pub struct MergeIterator {
    pub file_level: usize,
    pub count: usize,
    pub new_file_count: usize,
    pub curr_count: usize,
}

impl MergeIterator {
    /// The states the iterator moves through: pairing is in step with
    /// production, the pass is never past its level, and level arithmetic
    /// cannot overflow.
    pub open spec fn wf(self) -> bool {
        &&& self.curr_count == 2 * self.new_file_count
        &&& (self.count > 1 ==> self.curr_count < self.count)
        &&& (self.count <= 1 ==> self.curr_count == 0)
        &&& self.file_level + self.count <= usize::MAX
    }

    /// The tasks this iterator will still yield, in order: the rest of the
    /// current pass, then the whole schedule of the levels above.
    pub open spec fn remaining(self) -> Seq<MergeTask> {
        if self.count <= 1 {
            Seq::empty()
        } else {
            level_tasks(self.file_level as int, self.count as int).skip(
                self.new_file_count as int,
            ) + full_schedule(self.file_level + 1, half_up(self.count as int))
        }
    }

    pub fn new(file_level: usize, count: usize) -> (r: Self)
        requires
            file_level + count <= usize::MAX,
        ensures
            r.wf(),
            r.remaining() == full_schedule(file_level as int, count as int),
            r == (MergeIterator { file_level, count, new_file_count: 0, curr_count: 0 }),
    {
        let r = MergeIterator { file_level, count, new_file_count: 0, curr_count: 0 };
        proof {
            if count > 1 {
                assert(level_tasks(file_level as int, count as int).skip(0) =~= level_tasks(
                    file_level as int,
                    count as int,
                ));
                assert(r.remaining() =~= full_schedule(file_level as int, count as int));
            }
        }
        r
    }

    /// Yield the next merge task, or nothing once a single file survives.
    pub fn next(&mut self) -> (r: Option<MergeTask>)
        requires
            old(self).wf(),
        ensures
            final(self).wf(),
            match r {
                Option::None => {
                    &&& old(self).remaining() == Seq::<MergeTask>::empty()
                    &&& *final(self) == *old(self)
                    &&& old(self).count <= 1
                },
                Option::Some(task) => {
                    &&& old(self).count > 1
                    &&& old(self).remaining().len() > 0
                    &&& task == old(self).remaining()[0]
                    &&& final(self).remaining() == old(self).remaining().skip(1)
                    &&& task.produces.level == old(self).file_level + 1
                    &&& task.produces.index == old(self).new_file_count
                    &&& task.first.level == old(self).file_level
                    &&& task.first.index == old(self).curr_count
                    &&& (is_merge(task) <==> old(self).curr_count + 2 <= old(self).count)
                    &&& (match task.second {
                        Option::Some(c) => c.level == old(self).file_level && c.index == old(
                            self,
                        ).curr_count + 1,
                        Option::None => true,
                    })
                    &&& (if final(self).file_level == old(self).file_level {
                        &&& final(self).count == old(self).count
                        &&& final(self).new_file_count == old(self).new_file_count + 1
                        &&& final(self).curr_count == old(self).curr_count + (if is_merge(task) {
                            2int
                        } else {
                            1int
                        })
                    } else {
                        &&& final(self).file_level == old(self).file_level + 1
                        &&& final(self).count == old(self).new_file_count + 1
                        &&& final(self).new_file_count == 0
                        &&& final(self).curr_count == 0
                        &&& old(self).curr_count + (if is_merge(task) {
                            2int
                        } else {
                            1int
                        }) == old(self).count
                    })
                },
            },
    {
        if self.count <= 1 {
            return None;
        }
        let ghost pre = *self;
        let ghost lt = level_tasks(pre.file_level as int, pre.count as int);
        let ghost fs = full_schedule(pre.file_level + 1, half_up(pre.count as int));
        let new_level = self.file_level + 1;
        let produces = ChunkId { level: new_level, index: self.new_file_count };
        let first = ChunkId { level: self.file_level, index: self.curr_count };
        let second = if self.curr_count < self.count - 1 {
            Some(ChunkId { level: self.file_level, index: self.curr_count + 1 })
        } else {
            None
        };
        let task = MergeTask { produces, first, second };
        proof {
            assert(lt.skip(pre.new_file_count as int)[0] == lt[pre.new_file_count as int]);
            assert(task == task_for(pre.file_level as int, pre.count as int,
                pre.new_file_count as int));
            assert(task == pre.remaining()[0]);
        }
        self.new_file_count = self.new_file_count + 1;
        if self.curr_count < self.count - 1 {
            self.curr_count = self.curr_count + 2;
        } else {
            self.curr_count = self.curr_count + 1;
        }
        if self.curr_count >= self.count {
            proof {
                assert(self.new_file_count == half_up(pre.count as int));
                assert(lt.skip(pre.new_file_count as int).len() == 1);
            }
            self.file_level = new_level;
            self.count = self.new_file_count;
            self.new_file_count = 0;
            self.curr_count = 0;
            proof {
                assert(pre.remaining().skip(1) =~= fs);
                assert(self.remaining() =~= fs);
                assert(self.count + self.file_level <= usize::MAX) by {
                    assert(half_up(pre.count as int) <= pre.count - 1);
                }
            }
        } else {
            proof {
                assert(lt.skip(pre.new_file_count as int).skip(1) =~= lt.skip(
                    pre.new_file_count + 1,
                ));
                assert(pre.remaining().skip(1) =~= lt.skip(pre.new_file_count + 1) + fs);
                assert(self.remaining() =~= lt.skip(pre.new_file_count + 1) + fs);
            }
        }
        Some(task)
    }
}

} // verus!
