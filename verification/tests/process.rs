use processor::process::Process;
use processor::step::Step;

fn step_at(step_num: usize, name: &str) -> Step {
    Step {
        id: None,
        name: name.to_string(),
        step_num,
        description: String::new(),
        process_id: None,
        is_done: false,
    }
}

fn two_step_process() -> Process {
    Process {
        id: None,
        name: "demo".to_string(),
        num_steps: 2,
        steps: vec![step_at(1, "first"), step_at(2, "second")],
        is_done: false,
    }
}

#[test]
fn check_numstep_exist_finds_position() {
    let p = two_step_process();
    assert!(p.check_numstep_exist(&step_at(1, "other")));
    assert!(p.check_numstep_exist(&step_at(2, "other")));
    assert!(!p.check_numstep_exist(&step_at(3, "other")));
}

#[test]
fn check_numsteps_compares_declared_count() {
    let mut p = two_step_process();
    assert!(p.check_numsteps());
    p.num_steps = 3;
    assert!(!p.check_numsteps());
}

#[test]
fn add_step_appends() {
    let mut p = two_step_process();
    p.add_step(step_at(3, "third"));
    assert_eq!(p.steps.len(), 3);
    assert_eq!(p.steps[2].name, "third");
    assert_eq!(p.steps[2].step_num, 3);
}

#[test]
fn swap_step_replaces_first_match() {
    let mut p = two_step_process();
    p.swap_step(&step_at(2, "replacement"));
    assert_eq!(p.steps.len(), 2);
    assert_eq!(p.steps[0].name, "first");
    assert_eq!(p.steps[1].name, "replacement");
    assert_eq!(p.steps[1].step_num, 2);
}

#[test]
fn update_step_replaces_or_appends() {
    let mut p = two_step_process();
    p.update_step(step_at(1, "rewritten"));
    assert_eq!(p.steps.len(), 2);
    assert_eq!(p.steps[0].name, "rewritten");

    p.update_step(step_at(5, "tail"));
    assert_eq!(p.steps.len(), 3);
    assert_eq!(p.steps[2].name, "tail");
    assert_eq!(p.steps[2].step_num, 5);
}

#[test]
fn resequence_renumbers_contiguously() {
    let mut p = two_step_process();
    let relisted = vec![step_at(9, "b"), step_at(4, "a"), step_at(4, "c")];
    p.resequence(relisted);
    assert_eq!(p.num_steps, 3);
    assert_eq!(p.steps.len(), 3);
    let expected = ["b", "a", "c"];
    for k in 0..3 {
        assert_eq!(p.steps[k].step_num, k + 1);
        assert_eq!(p.steps[k].name, expected[k]);
    }
}

#[test]
fn step_new_starts_unsaved_and_pending() {
    let s = Step::new(4, "fourth".to_string(), "notes".to_string());
    assert_eq!(s.id, None);
    assert_eq!(s.name, "fourth");
    assert_eq!(s.step_num, 4);
    assert_eq!(s.description, "notes");
    assert_eq!(s.process_id, None);
    assert!(!s.is_done);
}

#[test]
fn step_duplicate_copies_every_field() {
    let mut s = Step::new(2, "orig".to_string(), "text".to_string());
    s.id = Some(7);
    s.process_id = Some(3);
    s.is_done = true;
    let c = s.duplicate();
    assert_eq!(c.id, Some(7));
    assert_eq!(c.name, "orig");
    assert_eq!(c.step_num, 2);
    assert_eq!(c.description, "text");
    assert_eq!(c.process_id, Some(3));
    assert!(c.is_done);
}
