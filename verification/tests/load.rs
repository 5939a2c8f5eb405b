use processor::error::StoreError;
use processor::row::{ProcessRow, StepRow};
use processor::store::{Store, StoreConfig};

fn proc_row(id: usize, name: &str) -> ProcessRow {
    ProcessRow { id, name: name.to_string(), num_steps: 0, is_done: false }
}

fn step_row(id: usize, name: &str, process_id: Option<usize>) -> StepRow {
    StepRow {
        id,
        name: name.to_string(),
        step_num: 1,
        description: String::new(),
        process_id,
        is_done: false,
    }
}

#[test]
fn load_empty_tables_starts_at_one() {
    let store = Store::load(StoreConfig::default(), vec![], vec![]).unwrap();
    assert!(store.get_all_processes().is_empty());
    let mut store = store;
    let p = processor::process::Process {
        id: None,
        name: "first".to_string(),
        num_steps: 0,
        steps: vec![],
        is_done: false,
    };
    assert_eq!(store.save_process(&p).unwrap(), 1);
}

#[test]
fn load_resumes_ids_above_the_largest() {
    let procs = vec![proc_row(3, "kept")];
    let steps = vec![step_row(5, "held", Some(3))];
    let mut store = Store::load(StoreConfig::default(), procs, steps).unwrap();
    let got = store.get_process(3).unwrap();
    assert_eq!(got.name, "kept");
    assert_eq!(got.steps.len(), 1);
    assert_eq!(got.steps[0].id, Some(5));

    let p = processor::process::Process {
        id: None,
        name: "next".to_string(),
        num_steps: 0,
        steps: vec![],
        is_done: false,
    };
    assert_eq!(store.save_process(&p).unwrap(), 4);
}

#[test]
fn load_rejects_duplicate_process_ids() {
    let r = Store::load(
        StoreConfig::default(),
        vec![proc_row(1, "a"), proc_row(1, "b")],
        vec![],
    );
    assert!(matches!(r, Err(StoreError::StorageUnavailable)));
}

#[test]
fn load_rejects_duplicate_step_ids() {
    let r = Store::load(
        StoreConfig::default(),
        vec![proc_row(1, "a")],
        vec![step_row(2, "x", Some(1)), step_row(2, "y", Some(1))],
    );
    assert!(matches!(r, Err(StoreError::StorageUnavailable)));
}

#[test]
fn load_rejects_dangling_foreign_key() {
    let r = Store::load(StoreConfig::default(), vec![], vec![step_row(1, "x", Some(9))]);
    assert!(matches!(r, Err(StoreError::StorageUnavailable)));
}

#[test]
fn load_accepts_orphaned_steps() {
    let store = Store::load(StoreConfig::default(), vec![], vec![step_row(1, "x", None)]).unwrap();
    assert_eq!(store.get_all_steps().len(), 1);
}

#[test]
fn load_rejects_empty_process_name() {
    let r = Store::load(StoreConfig::default(), vec![proc_row(1, "")], vec![]);
    assert!(matches!(r, Err(StoreError::StorageUnavailable)));
}

#[test]
fn load_rejects_exhausted_id_space() {
    let r = Store::load(StoreConfig::default(), vec![proc_row(usize::MAX, "edge")], vec![]);
    assert!(matches!(r, Err(StoreError::StorageUnavailable)));
}

#[test]
fn load_applies_configured_step_name_uniqueness() {
    let procs = vec![proc_row(1, "a")];
    let steps = vec![step_row(1, "same", Some(1)), step_row(2, "same", Some(1))];
    let strict = Store::load(StoreConfig::default(), procs, steps);
    assert!(matches!(strict, Err(StoreError::StorageUnavailable)));

    let lax_config = StoreConfig { unique_process_names: false, unique_step_names: false };
    let procs = vec![proc_row(1, "a")];
    let steps = vec![step_row(1, "same", Some(1)), step_row(2, "same", Some(1))];
    let lax = Store::load(lax_config, procs, steps).unwrap();
    assert_eq!(lax.get_steps_of_process(1).len(), 2);
}

#[test]
fn load_applies_configured_process_name_uniqueness() {
    let strict_config = StoreConfig { unique_process_names: true, unique_step_names: true };
    let r = Store::load(strict_config, vec![proc_row(1, "twin"), proc_row(2, "twin")], vec![]);
    assert!(matches!(r, Err(StoreError::StorageUnavailable)));
}
