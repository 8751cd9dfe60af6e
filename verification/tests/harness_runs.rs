use task_harness::descriptor::TaskDescriptor;
use task_harness::harness::Harness;
use task_harness::step::Step;

/// What one run produced: per handle the progress numbers in the order in
/// which they came, and the completions in arrival order.
struct Run {
    progress: Vec<Vec<u64>>,
    completions: Vec<(usize, String)>,
}

fn descriptors(units: &[u64]) -> Vec<TaskDescriptor> {
    units
        .iter()
        .enumerate()
        .map(|(i, u)| TaskDescriptor::new(format!("id{}", i), *u))
        .collect()
}

/// Resumes the handles that `pick` chooses until every task has completed.
fn run(units: &[u64], pick: fn(usize, usize) -> usize) -> Run {
    let mut harness = Harness::launch(descriptors(units));
    let n = harness.len();
    let mut out = Run { progress: vec![Vec::new(); n], completions: Vec::new() };
    let mut turn = 0usize;
    while !harness.is_finished() {
        let handle = pick(turn, n);
        turn += 1;
        match harness.resume(handle) {
            Some(Step::Progress { id, count }) => {
                assert_eq!(id, format!("id{}", handle));
                assert!(out.completions.iter().all(|(h, _)| *h != handle));
                out.progress[handle].push(count);
            }
            Some(Step::Complete { id }) => out.completions.push((handle, id)),
            Some(Step::Delay) | None => {}
        }
        assert!(turn < 10_000);
    }
    assert_eq!(harness.outstanding(), 0);
    let recorded: Vec<usize> = out.completions.iter().map(|(h, _)| *h).collect();
    assert_eq!(harness.completed(), &recorded);
    out
}

fn round_robin(turn: usize, n: usize) -> usize {
    turn % n
}

fn backwards(turn: usize, n: usize) -> usize {
    n - 1 - turn % n
}

fn scattered(turn: usize, n: usize) -> usize {
    (turn * 7 + turn / 3) % n
}

fn sorted_handles(run: &Run) -> Vec<usize> {
    let mut handles: Vec<usize> = run.completions.iter().map(|(h, _)| *h).collect();
    handles.sort();
    handles
}

#[test]
fn empty_harness_is_finished() {
    let harness = Harness::new();
    assert_eq!(harness.len(), 0);
    assert_eq!(harness.outstanding(), 0);
    assert!(harness.is_finished());
    assert!(harness.completed().is_empty());
}

#[test]
fn launch_of_nothing_is_finished() {
    let mut harness = Harness::launch(Vec::new());
    assert!(harness.is_finished());
    assert_eq!(harness.resume(0), None);
}

#[test]
fn spawn_hands_out_handles_in_launch_order() {
    let mut harness = Harness::new();
    assert_eq!(harness.spawn(TaskDescriptor::new("a".to_string(), 1)), 0);
    assert_eq!(harness.spawn(TaskDescriptor::new("b".to_string(), 0)), 1);
    assert_eq!(harness.spawn(TaskDescriptor::new("c".to_string(), 2)), 2);
    assert_eq!(harness.len(), 3);
    assert_eq!(harness.outstanding(), 3);
    assert!(!harness.is_finished());
    assert_eq!(harness.task(1).unwrap().descriptor().id(), "b");
    assert!(harness.task(3).is_none());
}

#[test]
fn launch_keeps_the_order_of_the_descriptors() {
    let harness = Harness::launch(descriptors(&[4, 0, 9]));
    assert_eq!(harness.len(), 3);
    for (h, units) in [4u64, 0, 9].iter().enumerate() {
        let task = harness.task(h).unwrap();
        assert_eq!(task.descriptor().id(), &format!("id{}", h));
        assert_eq!(task.descriptor().units(), *units);
        assert!(!task.is_finished());
    }
}

#[test]
fn resume_of_an_unknown_handle_changes_nothing() {
    let mut harness = Harness::launch(descriptors(&[1]));
    assert_eq!(harness.resume(1), None);
    assert_eq!(harness.resume(usize::MAX), None);
    assert_eq!(harness.outstanding(), 1);
    assert_eq!(harness.resume(0), Some(Step::Delay));
}

#[test]
fn resume_of_a_completed_task_changes_nothing() {
    let mut harness = Harness::launch(descriptors(&[0, 1]));
    assert_eq!(harness.resume(0), Some(Step::Complete { id: "id0".to_string() }));
    assert_eq!(harness.resume(0), None);
    assert_eq!(harness.resume(0), None);
    assert_eq!(harness.completed(), &vec![0]);
    assert_eq!(harness.outstanding(), 1);
    assert!(!harness.is_finished());
}

#[test]
fn outstanding_falls_by_one_with_each_completion() {
    let mut harness = Harness::launch(descriptors(&[0, 0, 0]));
    assert_eq!(harness.outstanding(), 3);
    harness.resume(2);
    assert_eq!(harness.outstanding(), 2);
    harness.resume(0);
    assert_eq!(harness.outstanding(), 1);
    harness.resume(1);
    assert_eq!(harness.outstanding(), 0);
    assert!(harness.is_finished());
    assert_eq!(harness.completed(), &vec![2, 0, 1]);
}

#[test]
fn three_tasks_with_zero_two_and_one_units() {
    let run = run(&[0, 2, 1], round_robin);
    assert_eq!(run.completions.len(), 3);
    assert_eq!(sorted_handles(&run), vec![0, 1, 2]);
    for (handle, id) in &run.completions {
        assert_eq!(id, &format!("id{}", handle));
    }
    assert_eq!(run.progress[0], Vec::<u64>::new());
    assert_eq!(run.progress[1], vec![1, 2]);
    assert_eq!(run.progress[2], vec![1]);
}

#[test]
fn three_tasks_complete_in_order_of_their_work_under_fair_turns() {
    let run = run(&[0, 2, 1], round_robin);
    let order: Vec<usize> = run.completions.iter().map(|(h, _)| *h).collect();
    assert_eq!(order, vec![0, 2, 1]);
}

#[test]
fn ten_tasks_are_each_reported_once() {
    let units = [5, 4, 6, 5, 3, 7, 5, 4, 6, 5];
    for pick in [round_robin as fn(usize, usize) -> usize, backwards, scattered] {
        let run = run(&units, pick);
        assert_eq!(run.completions.len(), 10);
        assert_eq!(sorted_handles(&run), (0..10).collect::<Vec<usize>>());
        let mut ids: Vec<String> = run.completions.iter().map(|(_, id)| id.clone()).collect();
        ids.sort();
        ids.dedup();
        assert_eq!(ids.len(), 10);
    }
}

#[test]
fn completion_order_need_not_be_launch_order() {
    let fair = run(&[3, 0, 1], round_robin);
    let order: Vec<usize> = fair.completions.iter().map(|(h, _)| *h).collect();
    assert_ne!(order, vec![0, 1, 2]);
    assert_eq!(sorted_handles(&fair), vec![0, 1, 2]);
}

#[test]
fn every_task_numbers_its_progress_whatever_the_schedule() {
    let units = [0, 1, 2, 3, 8];
    for pick in [round_robin as fn(usize, usize) -> usize, backwards, scattered] {
        let run = run(&units, pick);
        for (h, u) in units.iter().enumerate() {
            assert_eq!(run.progress[h], (1..=*u).collect::<Vec<u64>>());
        }
    }
}

#[test]
fn two_runs_of_the_same_descriptors_agree() {
    let units = [2, 0, 5, 1, 3];
    let first = run(&units, round_robin);
    let again = run(&units, round_robin);
    let other = run(&units, backwards);
    assert_eq!(sorted_handles(&first), sorted_handles(&again));
    assert_eq!(sorted_handles(&first), sorted_handles(&other));
    assert_eq!(first.progress, again.progress);
    assert_eq!(first.progress, other.progress);
    let order = |r: &Run| r.completions.iter().map(|(h, _)| *h).collect::<Vec<usize>>();
    assert_eq!(order(&first), order(&again));
}

#[test]
fn tasks_with_equal_ids_are_still_reported_separately() {
    let mut harness = Harness::new();
    harness.spawn(TaskDescriptor::new("same".to_string(), 0));
    harness.spawn(TaskDescriptor::new("same".to_string(), 0));
    assert_eq!(harness.resume(1), Some(Step::Complete { id: "same".to_string() }));
    assert_eq!(harness.resume(0), Some(Step::Complete { id: "same".to_string() }));
    assert_eq!(harness.completed(), &vec![1, 0]);
    assert!(harness.is_finished());
}

#[test]
fn a_task_launched_late_joins_the_run() {
    let mut harness = Harness::launch(descriptors(&[0]));
    harness.resume(0);
    assert!(harness.is_finished());
    let late = harness.spawn(TaskDescriptor::new("late".to_string(), 1));
    assert_eq!(late, 1);
    assert!(!harness.is_finished());
    assert_eq!(harness.resume(late), Some(Step::Delay));
    assert_eq!(harness.resume(late), Some(Step::Progress { id: "late".to_string(), count: 1 }));
    assert_eq!(harness.resume(late), Some(Step::Complete { id: "late".to_string() }));
    assert_eq!(harness.completed(), &vec![0, 1]);
    assert!(harness.is_finished());
}

#[test]
fn a_run_takes_two_steps_per_unit_and_one_per_task() {
    let units = [0u64, 2, 1, 4];
    let mut harness = Harness::launch(descriptors(&units));
    let mut steps = 0u64;
    let mut turn = 0usize;
    while !harness.is_finished() {
        if harness.resume(scattered(turn, units.len())).is_some() {
            steps += 1;
        }
        turn += 1;
    }
    assert_eq!(steps, units.iter().map(|u| 2 * u + 1).sum::<u64>());
    assert_eq!(steps, 18);
}
