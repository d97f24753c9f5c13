use rr::tree::{compute_size, compute_size_scheduled, Node};

fn file(size: u64) -> Node {
    Node::File { size }
}

fn dir(children: Vec<Node>) -> Node {
    Node::Dir { children }
}

#[test]
fn empty_directory_is_zero() {
    assert_eq!(compute_size(&dir(vec![])), 0);
}

#[test]
fn file_root_is_zero() {
    // enumerating a non-directory root fails silently
    assert_eq!(compute_size(&file(4096)), 0);
}

#[test]
fn other_root_is_zero() {
    assert_eq!(compute_size(&Node::Other), 0);
}

#[test]
fn flat_directory_sums_files() {
    let t = dir(vec![file(100), file(50), Node::Other, file(1)]);
    assert_eq!(compute_size(&t), 151);
}

#[test]
fn nested_directories_sum_recursively() {
    let t = dir(vec![
        file(1),
        dir(vec![file(2), dir(vec![file(3), Node::Other]), file(4)]),
        dir(vec![]),
        file(5),
    ]);
    assert_eq!(compute_size(&t), 15);
}

#[test]
fn repeated_runs_agree() {
    let t = dir(vec![dir(vec![file(7), file(8)]), file(9)]);
    let first = compute_size(&t);
    let second = compute_size(&t);
    assert_eq!(first, 24);
    assert_eq!(first, second);
}

#[test]
fn schedule_does_not_change_total() {
    let t = dir(vec![
        dir(vec![file(1), dir(vec![file(2)]), dir(vec![file(4)])]),
        dir(vec![file(8), file(16)]),
        file(32),
    ]);
    // front-first draining, the order of a single worker
    let fifo = compute_size(&t);
    // back-first draining
    let lifo = compute_size_scheduled(&t, &vec![usize::MAX; 16]);
    // an arbitrary interleaving
    let mixed = compute_size_scheduled(&t, &vec![3, 1, 4, 1, 5, 9, 2, 6]);
    assert_eq!(fifo, 63);
    assert_eq!(lifo, 63);
    assert_eq!(mixed, 63);
}

#[test]
fn wide_and_deep_stress_tree() {
    // 100 directories of 100 one-byte files each, plus a deep chain
    let mut top: Vec<Node> = Vec::new();
    for _ in 0..100 {
        let files: Vec<Node> = (0..100).map(|_| file(1)).collect();
        top.push(dir(files));
    }
    let mut chain = dir(vec![file(5)]);
    for _ in 0..200 {
        chain = dir(vec![chain, file(1)]);
    }
    top.push(chain);
    let t = dir(top);
    let expected = 100 * 100 + 5 + 200;
    for round in 0..5 {
        let total = compute_size_scheduled(&t, &vec![round * 7 + 3; 64]);
        assert_eq!(total, expected);
    }
    assert_eq!(compute_size(&t), expected);
}
