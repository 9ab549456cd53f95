use gh_difftool::{Action, Pipeline, StagedPair};

fn pair(i: usize) -> StagedPair {
    StagedPair { original: format!("orig-{i}"), new: format!("new-{i}") }
}

/// Drives the machine: reports preparations in the given order, pulling
/// every available action after each event, and returns the indexes of the
/// launches in the order they happened.
fn drive(total: usize, completions: &[(usize, bool)]) -> Vec<usize> {
    let mut p = Pipeline::new(total);
    let mut launches: Vec<usize> = Vec::new();
    let mut pending: Vec<(usize, bool)> = completions.to_vec();
    pending.reverse();
    loop {
        match p.next_action() {
            Action::Launch(sp) => {
                let idx: usize = sp.original.strip_prefix("orig-").unwrap().parse().unwrap();
                launches.push(idx);
                // The viewer exits immediately in this test.
                p.viewer_done();
            }
            Action::Wait => match pending.pop() {
                Some((i, ok)) => {
                    if ok {
                        p.prepared(i, pair(i));
                    } else {
                        p.prep_failed(i);
                    }
                }
                None => panic!("machine waits but no event is left"),
            },
            Action::Done => break,
        }
    }
    launches
}

#[test]
fn in_order_completion_views_in_order() {
    let launches = drive(3, &[(0, true), (1, true), (2, true)]);
    assert_eq!(launches, vec![0, 1, 2]);
}

#[test]
fn reversed_completion_still_views_in_order() {
    let launches = drive(3, &[(2, true), (1, true), (0, true)]);
    assert_eq!(launches, vec![0, 1, 2]);
}

#[test]
fn interleaved_completion_still_views_in_order() {
    let launches = drive(4, &[(1, true), (3, true), (0, true), (2, true)]);
    assert_eq!(launches, vec![0, 1, 2, 3]);
}

#[test]
fn every_permutation_of_four_views_in_order() {
    let perms: &[[usize; 4]] = &[
        [0, 1, 2, 3],
        [3, 2, 1, 0],
        [1, 0, 3, 2],
        [2, 0, 3, 1],
        [3, 0, 1, 2],
        [1, 3, 0, 2],
    ];
    for perm in perms {
        let events: Vec<(usize, bool)> = perm.iter().map(|&i| (i, true)).collect();
        let launches = drive(4, &events);
        assert_eq!(launches, vec![0, 1, 2, 3], "permutation {perm:?}");
    }
}

#[test]
fn failed_preparation_is_skipped_and_neighbours_survive() {
    let launches = drive(3, &[(2, true), (1, false), (0, true)]);
    assert_eq!(launches, vec![0, 2]);
}

#[test]
fn failure_at_the_edges_is_isolated() {
    assert_eq!(drive(3, &[(0, false), (1, true), (2, true)]), vec![1, 2]);
    assert_eq!(drive(3, &[(2, false), (0, true), (1, true)]), vec![0, 1]);
    assert_eq!(drive(1, &[(0, false)]), Vec::<usize>::new());
}

#[test]
fn viewer_runs_one_at_a_time() {
    let mut p = Pipeline::new(2);
    p.prepared(0, pair(0));
    p.prepared(1, pair(1));
    let first = p.next_action();
    assert!(matches!(first, Action::Launch(_)));
    // While the viewer is up, the machine only waits even though the next
    // change is ready.
    assert!(matches!(p.next_action(), Action::Wait));
    p.viewer_done();
    assert!(matches!(p.next_action(), Action::Launch(_)));
    p.viewer_done();
    assert!(matches!(p.next_action(), Action::Done));
}

#[test]
fn empty_run_is_done_immediately() {
    let mut p = Pipeline::new(0);
    assert!(matches!(p.next_action(), Action::Done));
}
