use task_harness::descriptor::{DescriptorError, TaskDescriptor};
use task_harness::step::{Step, DELAY_SECONDS};
use task_harness::task::Task;

fn run_to_end(task: &mut Task) -> Vec<Step> {
    let mut steps = Vec::new();
    while let Some(step) = task.advance() {
        steps.push(step);
    }
    steps
}

fn progress(id: &str, count: u64) -> Step {
    Step::Progress { id: id.to_string(), count }
}

fn complete(id: &str) -> Step {
    Step::Complete { id: id.to_string() }
}

#[test]
fn descriptor_keeps_id_and_units() {
    let d = TaskDescriptor::new("4.93".to_string(), 4);
    assert_eq!(d.id(), "4.93");
    assert_eq!(d.units(), 4);
}

#[test]
fn from_sample_accepts_a_unit_count() {
    let built = TaskDescriptor::from_sample("5.2".to_string(), Some(5));
    assert_eq!(built, Ok(TaskDescriptor::new("5.2".to_string(), 5)));
}

#[test]
fn from_sample_accepts_zero_units() {
    let built = TaskDescriptor::from_sample("0.4".to_string(), Some(0)).unwrap();
    assert_eq!(built.units(), 0);
    assert_eq!(built.id(), "0.4");
}

#[test]
fn from_sample_rejects_a_failed_conversion() {
    let built = TaskDescriptor::from_sample("-3.1".to_string(), None);
    assert_eq!(built, Err(DescriptorError::UnitsOutOfRange));
}

#[test]
fn delay_is_one_second() {
    assert_eq!(DELAY_SECONDS, 1);
}

#[test]
fn task_without_units_completes_at_once() {
    let mut task = Task::new(TaskDescriptor::new("idle".to_string(), 0));
    assert!(!task.is_finished());
    assert_eq!(task.advance(), Some(complete("idle")));
    assert!(task.is_finished());
    assert_eq!(task.units_done(), 0);
    assert_eq!(task.advance(), None);
}

#[test]
fn task_with_one_unit_delays_then_reports_then_completes() {
    let mut task = Task::new(TaskDescriptor::new("one".to_string(), 1));
    assert_eq!(
        run_to_end(&mut task),
        vec![Step::Delay, progress("one", 1), complete("one")]
    );
}

#[test]
fn task_with_five_units_numbers_its_progress_one_to_five() {
    let mut task = Task::new(TaskDescriptor::new("five".to_string(), 5));
    let steps = run_to_end(&mut task);
    assert_eq!(steps.len(), 11);
    let counts: Vec<u64> = steps
        .iter()
        .filter_map(|s| match s {
            Step::Progress { id, count } => {
                assert_eq!(id, "five");
                Some(*count)
            }
            _ => None,
        })
        .collect();
    assert_eq!(counts, vec![1, 2, 3, 4, 5]);
    assert_eq!(steps.last(), Some(&complete("five")));
    let completions = steps.iter().filter(|s| matches!(s, Step::Complete { .. })).count();
    assert_eq!(completions, 1);
}

#[test]
fn every_progress_event_follows_a_delay() {
    let mut task = Task::new(TaskDescriptor::new("t".to_string(), 3));
    let steps = run_to_end(&mut task);
    for (i, step) in steps.iter().enumerate() {
        if i + 1 == steps.len() {
            assert_eq!(step, &complete("t"));
        } else if i % 2 == 0 {
            assert_eq!(step, &Step::Delay);
        } else {
            assert_eq!(step, &progress("t", (i as u64 + 1) / 2));
        }
    }
}

#[test]
fn units_done_counts_progress_events() {
    let mut task = Task::new(TaskDescriptor::new("t".to_string(), 2));
    assert_eq!(task.units_done(), 0);
    assert_eq!(task.advance(), Some(Step::Delay));
    assert_eq!(task.units_done(), 0);
    assert_eq!(task.advance(), Some(progress("t", 1)));
    assert_eq!(task.units_done(), 1);
    assert_eq!(task.advance(), Some(Step::Delay));
    assert_eq!(task.advance(), Some(progress("t", 2)));
    assert_eq!(task.units_done(), 2);
    assert!(!task.is_finished());
    assert_eq!(task.advance(), Some(complete("t")));
    assert!(task.is_finished());
    assert_eq!(task.units_done(), 2);
}

#[test]
fn finished_task_stays_finished() {
    let mut task = Task::new(TaskDescriptor::new("t".to_string(), 1));
    run_to_end(&mut task);
    assert_eq!(task.advance(), None);
    assert_eq!(task.advance(), None);
    assert!(task.is_finished());
    assert_eq!(task.units_done(), 1);
    assert_eq!(task.descriptor().units(), 1);
}

#[test]
fn largest_unit_count_starts_like_any_other() {
    let mut task = Task::new(TaskDescriptor::new("big".to_string(), u64::MAX));
    assert_eq!(task.advance(), Some(Step::Delay));
    assert_eq!(task.advance(), Some(progress("big", 1)));
    assert_eq!(task.advance(), Some(Step::Delay));
    assert_eq!(task.advance(), Some(progress("big", 2)));
    assert!(!task.is_finished());
}

#[test]
fn same_descriptor_gives_the_same_steps_every_time() {
    let mut first = Task::new(TaskDescriptor::new("again".to_string(), 4));
    let mut second = Task::new(TaskDescriptor::new("again".to_string(), 4));
    assert_eq!(run_to_end(&mut first), run_to_end(&mut second));
}
