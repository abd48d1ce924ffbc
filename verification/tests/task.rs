use std::path::PathBuf;

use uuid_remap::task::split_tasks;

#[test]
fn task_test() {
    let tasks = vec![
        PathBuf::from("a"),
        PathBuf::from("b"),
        PathBuf::from("c"),
        PathBuf::from("d"),
        PathBuf::from("e"),
        PathBuf::from("f"),
        PathBuf::from("g"),
        PathBuf::from("h"),
        PathBuf::from("i"),
        PathBuf::from("j"),
    ];
    assert_eq!(
        split_tasks(&tasks, 3)
            .iter()
            .map(|x| x.len())
            .collect::<Vec<_>>(),
        vec![4, 3, 3]
    );
    assert_eq!(
        split_tasks(&tasks, 4)
            .iter()
            .map(|x| x.len())
            .collect::<Vec<_>>(),
        vec![3, 3, 2, 2]
    );
}

#[test]
fn split_tasks_keeps_the_order_and_loses_nothing() {
    let tasks: Vec<u32> = (0..10).collect();
    let shards = split_tasks(&tasks, 4);
    assert_eq!(shards.len(), 4);
    assert_eq!(shards[0], &[0, 1, 2][..]);
    assert_eq!(shards[1], &[3, 4, 5][..]);
    assert_eq!(shards[2], &[6, 7][..]);
    assert_eq!(shards[3], &[8, 9][..]);
    let all: Vec<u32> = shards.iter().flat_map(|s| s.iter().copied()).collect();
    assert_eq!(all, tasks);
}

#[test]
fn split_tasks_with_more_workers_than_tasks() {
    let tasks = vec!["a", "b"];
    let shards = split_tasks(&tasks, 5);
    assert_eq!(
        shards.iter().map(|x| x.len()).collect::<Vec<_>>(),
        vec![1, 1, 0, 0, 0]
    );
    let none: Vec<u8> = vec![];
    let shards = split_tasks(&none, 3);
    assert_eq!(
        shards.iter().map(|x| x.len()).collect::<Vec<_>>(),
        vec![0, 0, 0]
    );
    let shards = split_tasks(&tasks, 1);
    assert_eq!(shards, vec![&["a", "b"][..]]);
}
