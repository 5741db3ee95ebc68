use sort_big_file::naming::ChunkId;
use sort_big_file::scheduler::{MergeIterator, MergeTask};

fn drain(mut it: MergeIterator) -> Vec<MergeTask> {
    let mut tasks = Vec::new();
    while let Some(task) = it.next() {
        tasks.push(task);
    }
    tasks
}

#[test]
fn empty_schedule_for_zero_files() {
    assert_eq!(drain(MergeIterator::new(0, 0)).len(), 0);
}

#[test]
fn empty_schedule_for_one_file() {
    assert_eq!(drain(MergeIterator::new(0, 1)).len(), 0);
    assert_eq!(drain(MergeIterator::new(7, 1)).len(), 0);
}

#[test]
fn schedule_for_two_files_is_one_merge() {
    let tasks = drain(MergeIterator::new(0, 2));
    assert_eq!(tasks.len(), 1);
    assert_eq!(tasks[0].produces, ChunkId { level: 1, index: 0 });
    assert_eq!(tasks[0].first, ChunkId { level: 0, index: 0 });
    assert_eq!(tasks[0].second, Some(ChunkId { level: 0, index: 1 }));
}

#[test]
fn schedule_for_three_files_merges_then_promotes_then_merges() {
    let tasks = drain(MergeIterator::new(0, 3));
    assert_eq!(tasks.len(), 3);
    assert_eq!(tasks[0].produces, ChunkId { level: 1, index: 0 });
    assert_eq!(tasks[0].first, ChunkId { level: 0, index: 0 });
    assert_eq!(tasks[0].second, Some(ChunkId { level: 0, index: 1 }));
    // the odd file out is promoted, not merged
    assert_eq!(tasks[1].produces, ChunkId { level: 1, index: 1 });
    assert_eq!(tasks[1].first, ChunkId { level: 0, index: 2 });
    assert_eq!(tasks[1].second, None);
    assert_eq!(tasks[2].produces, ChunkId { level: 2, index: 0 });
    assert_eq!(tasks[2].first, ChunkId { level: 1, index: 0 });
    assert_eq!(tasks[2].second, Some(ChunkId { level: 1, index: 1 }));
}

#[test]
fn merge_task_count_is_one_less_than_file_count() {
    for n in 1..40usize {
        let tasks = drain(MergeIterator::new(0, n));
        let merges = tasks.iter().filter(|t| t.second.is_some()).count();
        assert_eq!(merges, n - 1);
    }
}

#[test]
fn odd_level_promotes_exactly_once() {
    // 5 files: level 0 (odd) promotes one, level 1 has 3 (odd) and promotes
    // one, level 2 has 2 and merges without promotion
    let tasks = drain(MergeIterator::new(0, 5));
    let promoted: Vec<&MergeTask> = tasks.iter().filter(|t| t.second.is_none()).collect();
    assert_eq!(promoted.len(), 2);
    assert_eq!(promoted[0].first, ChunkId { level: 0, index: 4 });
    assert_eq!(promoted[1].first, ChunkId { level: 1, index: 2 });
    let level0_promotions = tasks
        .iter()
        .filter(|t| t.second.is_none() && t.first.level == 0)
        .count();
    assert_eq!(level0_promotions, 1);
}

#[test]
fn even_level_never_promotes() {
    let tasks = drain(MergeIterator::new(0, 4));
    assert_eq!(tasks.len(), 3);
    assert!(tasks.iter().all(|t| t.second.is_some()));
}

#[test]
fn schedule_respects_the_start_level() {
    let tasks = drain(MergeIterator::new(3, 2));
    assert_eq!(tasks.len(), 1);
    assert_eq!(tasks[0].produces, ChunkId { level: 4, index: 0 });
    assert_eq!(tasks[0].first, ChunkId { level: 3, index: 0 });
    assert_eq!(tasks[0].second, Some(ChunkId { level: 3, index: 1 }));
}
