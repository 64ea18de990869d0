use std::rc::Rc;
use trainsched::heuristic::blocks::{block_available, latest_exit, valid_transfer_times, Block};
use trainsched::heuristic::interval::TimeInterval;
use trainsched::heuristic::occupation::{ResourceConflicts, ResourceOccupation};
use trainsched::heuristic::problem::{Problem, Track, Train, SENTINEL_TRACK, TRAIN_FINISHED};
use trainsched::heuristic::solver::{ConflictSolver, ConflictSolverStatus};
use trainsched::heuristic::train::{TrainSolver, TrainSolverStatus};

fn iv(a: u32, b: u32) -> TimeInterval {
    TimeInterval { time_start: a, time_end: b }
}

fn track(prevs: Vec<i32>, nexts: Vec<i32>, travel_time: u32) -> Track {
    Track { prevs, nexts, travel_time }
}

fn train(appears_at: u32) -> Train {
    Train { appears_at, visits: vec![] }
}

/// Two tracks in a row, one train.
fn line_problem() -> Problem {
    Problem {
        trains: vec![train(10)],
        tracks: vec![track(vec![], vec![1], 5), track(vec![0], vec![], 3)],
    }
}

#[test]
fn interval_duration_and_overlap() {
    let a = TimeInterval::duration(10, 5);
    assert_eq!(a, iv(10, 15));
    assert!(a.overlap(&iv(14, 20)));
    assert!(!a.overlap(&iv(15, 20)));
    assert!(!iv(0, 10).overlap(&iv(10, 10)));
}

#[test]
fn blocks_availability_and_latest_exit() {
    let blocks = vec![Block { track: 0, interval: iv(20, 25) }, Block { track: 1, interval: iv(20, 30) }];
    assert!(block_available(&blocks, Block { track: 0, interval: iv(10, 20) }));
    assert!(!block_available(&blocks, Block { track: 0, interval: iv(10, 21) }));
    assert!(block_available(&blocks, Block { track: 2, interval: iv(0, 100) }));
    assert_eq!(latest_exit(&blocks, 0, 10), Some(20));
    assert_eq!(latest_exit(&blocks, 0, 21), None);
    assert_eq!(latest_exit(&blocks, -1, 10), None);
}

#[test]
fn transfer_times_skip_blocked_entries() {
    let problem = line_problem();
    let free = vec![Block { track: 1, interval: iv(20, 30) }];
    assert_eq!(valid_transfer_times(&problem, &free, 0, 10, 1), vec![15, 30]);
    let blocked = vec![Block { track: 1, interval: iv(14, 30) }];
    assert_eq!(valid_transfer_times(&problem, &blocked, 0, 10, 1), Vec::<u32>::new());
    let late_exit = vec![Block { track: 0, interval: iv(16, 17) }, Block { track: 1, interval: iv(15, 20) }];
    assert_eq!(valid_transfer_times(&problem, &late_exit, 0, 10, 1), Vec::<u32>::new());
}

#[test]
fn train_solver_finds_route() {
    let problem = Rc::new(line_problem());
    let mut solver = TrainSolver::new(problem, 0);
    assert!(matches!(solver.status(), TrainSolverStatus::Working));
    let ev1 = solver.step();
    assert!(ev1.is_empty());
    let ev2 = solver.step();
    assert_eq!(ev2, vec![(true, 0, iv(10, 15))]);
    let ev3 = solver.step();
    assert_eq!(ev3, vec![(true, 1, iv(15, 18))]);
    let ev4 = solver.step();
    assert!(ev4.is_empty());
    assert!(matches!(solver.status(), TrainSolverStatus::Optimal));
    let sol = match solver.solution {
        Some(Ok(i)) => i,
        _ => panic!("no solution"),
    };
    assert_eq!(solver.nodes[sol].track, TRAIN_FINISHED);
    assert_eq!(solver.nodes[sol].time, 18);
}

#[test]
fn train_solver_constraint_resets_and_fails() {
    let problem = Rc::new(line_problem());
    let mut solver = TrainSolver::new(problem, 0);
    for _ in 0..4 {
        solver.step();
    }
    // Blocking the first track drops every use of the current route.
    let ev = solver.add_constraint(0, iv(12, 20));
    assert_eq!(ev, vec![(false, 1, iv(15, 18)), (false, 0, iv(10, 15))]);
    assert_eq!(solver.nodes.len(), 1);
    assert_eq!(solver.nodes[0].track, SENTINEL_TRACK);
    assert!(matches!(solver.status(), TrainSolverStatus::Working));
    solver.step();
    assert!(matches!(solver.status(), TrainSolverStatus::Failed));
    // Taking the block away restarts the search from the root.
    let ev = solver.remove_constraint(0, iv(12, 20));
    assert!(ev.is_empty());
    assert!(solver.blocks.is_empty());
    for _ in 0..4 {
        solver.step();
    }
    assert!(matches!(solver.status(), TrainSolverStatus::Optimal));
}

#[test]
fn train_solver_waits_for_block() {
    let problem = Rc::new(line_problem());
    let mut solver = TrainSolver::new(problem, 0);
    solver.add_constraint(1, iv(14, 30));
    let mut all = Vec::new();
    for _ in 0..10 {
        if !matches!(solver.status(), TrainSolverStatus::Working) {
            break;
        }
        all.extend(solver.step());
    }
    // The block on track 1 began before the earliest entry at 15, so its end
    // is no candidate entry time, and entering at 15 is blocked: the search
    // fails without ever using a resource.
    assert!(matches!(solver.status(), TrainSolverStatus::Failed));
    assert!(all.is_empty());
}

#[test]
fn resource_conflicts_track_overlaps() {
    let mut c = ResourceConflicts::empty(2);
    c.add(0, ResourceOccupation { train: 0, interval: iv(0, 10) });
    assert!(c.conflicting_resource_set.is_empty());
    c.add(0, ResourceOccupation { train: 1, interval: iv(5, 15) });
    assert_eq!(c.conflicting_resource_set, vec![0]);
    let (a, b) = c.resources[0].get_conflict().unwrap();
    assert_eq!(a, ResourceOccupation { train: 0, interval: iv(0, 10) });
    assert_eq!(b, ResourceOccupation { train: 1, interval: iv(5, 15) });
    // An occupation already there is not added again.
    c.add(0, ResourceOccupation { train: 1, interval: iv(5, 15) });
    assert_eq!(c.conflicting_resource_set, vec![0]);
    c.add_or_remove(false, 1, 0, iv(5, 15));
    assert!(c.conflicting_resource_set.is_empty());
    assert!(c.resources[0].get_conflict().is_none());
    assert_eq!(c.resources[0].conflicting_resource_set_idx, -1);
}

#[test]
fn resource_conflicts_swap_positions() {
    let mut c = ResourceConflicts::empty(3);
    for r in 0..3 {
        c.add(r, ResourceOccupation { train: 0, interval: iv(0, 10) });
        c.add(r, ResourceOccupation { train: 1, interval: iv(0, 10) });
    }
    assert_eq!(c.conflicting_resource_set, vec![0, 1, 2]);
    c.remove(0, ResourceOccupation { train: 1, interval: iv(0, 10) });
    // The last conflicting resource takes the freed place.
    assert_eq!(c.conflicting_resource_set, vec![2, 1]);
    assert_eq!(c.resources[2].conflicting_resource_set_idx, 0);
    assert_eq!(c.resources[1].conflicting_resource_set_idx, 1);
}

/// Two trains reach a shared track from two separate first tracks.
fn merge_problem() -> Problem {
    Problem {
        trains: vec![train(3), train(0)],
        tracks: vec![track(vec![], vec![2], 5), track(vec![], vec![2], 5), track(vec![0, 1], vec![], 10)],
    }
}

#[test]
fn conflict_solver_without_conflicts() {
    let problem = Rc::new(Problem {
        trains: vec![train(0), train(0)],
        tracks: vec![track(vec![], vec![], 4), track(vec![], vec![], 4)],
    });
    let mut solver = ConflictSolver::new(problem);
    assert!(matches!(solver.status(), ConflictSolverStatus::SolveTrains));
    assert_eq!(solver.dirty_trains, vec![0, 1]);
    let mut steps = 0;
    while !matches!(solver.status(), ConflictSolverStatus::Exhausted) && steps < 100 {
        solver.step();
        steps += 1;
    }
    assert!(matches!(solver.status(), ConflictSolverStatus::Exhausted));
    for t in solver.trains.iter() {
        assert!(matches!(t.status(), TrainSolverStatus::Optimal));
    }
}

#[test]
fn conflict_solver_branches_on_shared_track() {
    let problem = Rc::new(merge_problem());
    let mut solver = ConflictSolver::new(problem);
    let mut saw_conflict = false;
    let mut steps = 0;
    while !matches!(solver.status(), ConflictSolverStatus::Exhausted) && steps < 1000 {
        if matches!(solver.status(), ConflictSolverStatus::Conflict) {
            saw_conflict = true;
        }
        solver.step();
        steps += 1;
    }
    assert!(saw_conflict);
    assert!(matches!(solver.status(), ConflictSolverStatus::Exhausted));
    // The first conflict is on track 1 (train 0 enters it at 3, train 1 left
    // it at 5); then, below each branch, on track 2.
    let c: Vec<(i32, i32, TimeInterval, Option<usize>)> = solver
        .nodes
        .iter()
        .map(|n| (n.constraint.train, n.constraint.track, n.constraint.interval, n.parent))
        .collect();
    assert_eq!(
        c,
        vec![
            (0, 1, iv(3, 5), None),
            (1, 1, iv(0, 8), None),
            (0, 2, iv(8, 15), Some(1)),
            (1, 2, iv(5, 18), Some(1)),
            (0, 2, iv(8, 15), Some(0)),
            (1, 2, iv(5, 18), Some(0)),
        ]
    );
    assert_eq!(solver.current_node, Some(4));
    assert!(solver.conflicts.conflicting_resource_set.is_empty());
}

#[test]
fn train_solver_empty_constraint_round_trip() {
    let problem = Rc::new(line_problem());
    let mut solver = TrainSolver::new(problem, 0);
    // A block on an empty interval is kept like any other, and taking it
    // away restores the blocks.
    let ev = solver.add_constraint(0, iv(12, 12));
    assert!(ev.is_empty());
    assert_eq!(solver.blocks.len(), 1);
    let ev = solver.remove_constraint(0, iv(12, 12));
    assert!(ev.is_empty());
    assert!(solver.blocks.is_empty());
    assert!(matches!(solver.status(), TrainSolverStatus::Working));
}

#[test]
fn reported_changes_track_the_current_path() {
    let problem = Rc::new(line_problem());
    let mut solver = TrainSolver::new(problem, 0);
    let mut uses: Vec<(i32, TimeInterval)> = Vec::new();
    let apply = |events: Vec<(bool, i32, TimeInterval)>, uses: &mut Vec<(i32, TimeInterval)>| {
        for (add, track, interval) in events {
            if add {
                uses.push((track, interval));
            } else {
                let at = uses.iter().position(|u| *u == (track, interval)).expect("removed use was there");
                uses.remove(at);
            }
        }
    };
    for _ in 0..4 {
        let ev = solver.step();
        apply(ev, &mut uses);
    }
    assert_eq!(uses.len(), 2);
    let ev = solver.add_constraint(0, iv(12, 20));
    apply(ev, &mut uses);
    assert!(uses.is_empty());
    let ev = solver.remove_constraint(0, iv(12, 20));
    apply(ev, &mut uses);
    for _ in 0..4 {
        let ev = solver.step();
        apply(ev, &mut uses);
    }
    assert_eq!(uses.len(), 2);
}
