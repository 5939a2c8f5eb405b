use processor::error::StoreError;
use processor::process::Process;
use processor::step::Step;
use processor::store::{Store, StoreConfig};

fn fresh_step(step_num: usize, name: &str, description: &str) -> Step {
    Step {
        id: None,
        name: name.to_string(),
        step_num,
        description: description.to_string(),
        process_id: None,
        is_done: false,
    }
}

fn fresh_process(name: &str, num_steps: usize, steps: Vec<Step>) -> Process {
    Process { id: None, name: name.to_string(), num_steps, steps, is_done: false }
}

fn deploy_store() -> (Store, usize) {
    let mut store = Store::new(StoreConfig::default());
    let p = fresh_process(
        "deploy",
        2,
        vec![fresh_step(1, "build", ""), fresh_step(2, "ship", "")],
    );
    let id = store.save_process(&p).unwrap();
    (store, id)
}

#[test]
fn scenario_deploy() {
    let (mut store, id) = deploy_store();
    assert_eq!(id, 1);

    let got = store.get_process(1).unwrap();
    assert_eq!(got.id, Some(1));
    assert_eq!(got.name, "deploy");
    assert_eq!(got.num_steps, 2);
    assert!(!got.is_done);
    assert_eq!(got.steps.len(), 2);
    assert_eq!(got.steps[0].step_num, 1);
    assert_eq!(got.steps[0].name, "build");
    assert_eq!(got.steps[1].step_num, 2);
    assert_eq!(got.steps[1].name, "ship");

    let ship_id = got.steps[1].id.unwrap();
    store.toggle_step_done(ship_id).unwrap();
    let again = store.get_process(1).unwrap();
    assert!(again.steps[1].is_done);
    assert!(!again.steps[0].is_done);
}

#[test]
fn round_trip_preserves_fields() {
    let mut store = Store::new(StoreConfig::default());
    let p = fresh_process(
        "release",
        3,
        vec![
            fresh_step(1, "tag", "cut the tag"),
            fresh_step(2, "publish", "push the artifacts"),
            fresh_step(3, "announce", ""),
        ],
    );
    let id = store.save_process(&p).unwrap();
    let got = store.get_process(id).unwrap();
    assert_eq!(got.name, "release");
    assert_eq!(got.num_steps, 3);
    assert!(!got.is_done);
    assert_eq!(got.steps.len(), 3);
    let names = ["tag", "publish", "announce"];
    let descriptions = ["cut the tag", "push the artifacts", ""];
    for k in 0..3 {
        assert_eq!(got.steps[k].name, names[k]);
        assert_eq!(got.steps[k].description, descriptions[k]);
        assert_eq!(got.steps[k].step_num, k + 1);
        assert!(!got.steps[k].is_done);
        assert!(got.steps[k].id.is_some());
        assert_eq!(got.steps[k].process_id, Some(id));
    }
}

#[test]
fn saved_process_is_stored_pending() {
    let mut store = Store::new(StoreConfig::default());
    let mut p = fresh_process("done already", 0, vec![]);
    p.is_done = true;
    let id = store.save_process(&p).unwrap();
    assert!(!store.get_process(id).unwrap().is_done);
}

#[test]
fn toggle_process_twice_restores_flag() {
    let (mut store, id) = deploy_store();
    assert!(!store.get_process(id).unwrap().is_done);
    store.toggle_process_done(id).unwrap();
    assert!(store.get_process(id).unwrap().is_done);
    store.toggle_process_done(id).unwrap();
    assert!(!store.get_process(id).unwrap().is_done);
}

#[test]
fn toggle_missing_process_is_not_found() {
    let mut store = Store::new(StoreConfig::default());
    assert_eq!(store.toggle_process_done(7), Err(StoreError::NotFound));
    assert_eq!(store.toggle_step_done(7), Err(StoreError::NotFound));
}

#[test]
fn delete_process_orphans_its_steps() {
    let (mut store, id) = deploy_store();
    store.delete_process(id).unwrap();

    assert!(store.get_process(id).is_err());
    assert!(store.get_steps_of_process(id).is_empty());

    let survivors = store.get_all_steps();
    assert_eq!(survivors.len(), 2);
    assert_eq!(survivors[0].name, "build");
    assert_eq!(survivors[0].process_id, None);
    assert_eq!(survivors[1].name, "ship");
    assert_eq!(survivors[1].process_id, None);
}

#[test]
fn delete_missing_rows_is_not_found() {
    let mut store = Store::new(StoreConfig::default());
    assert_eq!(store.delete_process(3), Err(StoreError::NotFound));
    assert_eq!(store.delete_step(3), Err(StoreError::NotFound));
}

#[test]
fn delete_step_removes_only_that_row() {
    let (mut store, id) = deploy_store();
    let steps = store.get_steps_of_process(id);
    let build_id = steps[0].id.unwrap();
    store.delete_step(build_id).unwrap();
    let left = store.get_steps_of_process(id);
    assert_eq!(left.len(), 1);
    assert_eq!(left[0].name, "ship");
    assert_eq!(store.get_all_steps().len(), 1);
}

#[test]
fn save_step_with_dangling_process_id_is_rejected() {
    let mut store = Store::new(StoreConfig::default());
    let r = store.save_step(&fresh_step(1, "loose", ""), 42);
    assert_eq!(r, Err(StoreError::ConstraintViolation));
    assert!(store.get_all_steps().is_empty());
}

#[test]
fn empty_process_missing_from_joined_view() {
    let mut store = Store::new(StoreConfig::default());
    let empty_id = store.save_process(&fresh_process("hollow", 0, vec![])).unwrap();
    let full_id = store
        .save_process(&fresh_process("full", 1, vec![fresh_step(1, "only", "")]))
        .unwrap();

    let joined = store.get_all_joined();
    assert_eq!(joined.len(), 1);
    assert_eq!(joined[0].process_id, full_id);
    assert_eq!(joined[0].process_name, "full");
    assert_eq!(joined[0].step_name, "only");
    assert_eq!(joined[0].step_num, 1);
    assert!(joined.iter().all(|row| row.process_id != empty_id));

    let all = store.get_all_processes();
    assert_eq!(all.len(), 2);
    assert_eq!(all[0].name, "hollow");
    assert!(all[0].steps.is_empty());
    assert_eq!(all[1].name, "full");
    assert_eq!(all[1].steps.len(), 1);
}

#[test]
fn upsert_keeps_the_supplied_process_id() {
    let (mut store, id) = deploy_store();
    let replacement = Process {
        id: Some(id),
        name: "redeploy".to_string(),
        num_steps: 0,
        steps: vec![],
        is_done: false,
    };
    let kept = store.save_process(&replacement).unwrap();
    assert_eq!(kept, id);
    let got = store.get_process(id).unwrap();
    assert_eq!(got.name, "redeploy");
    assert_eq!(got.num_steps, 0);
    // the old step rows still point at the kept id
    assert_eq!(got.steps.len(), 2);
}

#[test]
fn fresh_ids_keep_increasing_after_delete() {
    let (mut store, id) = deploy_store();
    store.delete_process(id).unwrap();
    let next = store.save_process(&fresh_process("later", 0, vec![])).unwrap();
    assert_eq!(next, 2);
}

#[test]
fn duplicate_step_names_in_one_process_rejected() {
    let mut store = Store::new(StoreConfig::default());
    let p = fresh_process(
        "dup",
        2,
        vec![fresh_step(1, "same", ""), fresh_step(2, "same", "")],
    );
    assert_eq!(store.save_process(&p), Err(StoreError::ConstraintViolation));
    // the whole save rolled back: no half-written process row
    assert!(store.get_all_processes().is_empty());
    assert!(store.get_all_steps().is_empty());
}

#[test]
fn same_step_name_across_processes_is_fine() {
    let mut store = Store::new(StoreConfig::default());
    store
        .save_process(&fresh_process("one", 1, vec![fresh_step(1, "same", "")]))
        .unwrap();
    store
        .save_process(&fresh_process("two", 1, vec![fresh_step(1, "same", "")]))
        .unwrap();
    assert_eq!(store.get_all_steps().len(), 2);
}

#[test]
fn process_names_not_unique_by_default() {
    let mut store = Store::new(StoreConfig::default());
    store.save_process(&fresh_process("twin", 0, vec![])).unwrap();
    store.save_process(&fresh_process("twin", 0, vec![])).unwrap();
    assert_eq!(store.get_all_processes().len(), 2);
}

#[test]
fn unique_process_names_when_configured() {
    let config = StoreConfig { unique_process_names: true, unique_step_names: true };
    let mut store = Store::new(config);
    store.save_process(&fresh_process("twin", 0, vec![])).unwrap();
    assert_eq!(
        store.save_process(&fresh_process("twin", 0, vec![])),
        Err(StoreError::ConstraintViolation)
    );
    assert_eq!(store.get_all_processes().len(), 1);
}

#[test]
fn update_process_name_rewrites_one_row() {
    let (mut store, id) = deploy_store();
    store.update_process_name(id, "shipit".to_string()).unwrap();
    assert_eq!(store.get_process(id).unwrap().name, "shipit");
    assert_eq!(
        store.update_process_name(id + 10, "ghost".to_string()),
        Err(StoreError::NotFound)
    );
}

#[test]
fn update_step_fields_rewrite_one_row() {
    let (mut store, id) = deploy_store();
    let build_id = store.get_steps_of_process(id)[0].id.unwrap();
    store.update_step_name(build_id, "compile".to_string()).unwrap();
    store
        .update_step_description(build_id, "compile everything".to_string())
        .unwrap();
    let steps = store.get_steps_of_process(id);
    assert_eq!(steps[0].name, "compile");
    assert_eq!(steps[0].description, "compile everything");
    assert_eq!(steps[1].name, "ship");
    assert_eq!(
        store.update_step_name(99, "ghost".to_string()),
        Err(StoreError::NotFound)
    );
    assert_eq!(
        store.update_step_description(99, "ghost".to_string()),
        Err(StoreError::NotFound)
    );
}

#[test]
fn update_step_name_respects_per_process_uniqueness() {
    let (mut store, id) = deploy_store();
    let build_id = store.get_steps_of_process(id)[0].id.unwrap();
    assert_eq!(
        store.update_step_name(build_id, "ship".to_string()),
        Err(StoreError::ConstraintViolation)
    );
    assert_eq!(store.get_steps_of_process(id)[0].name, "build");
}

#[test]
fn save_step_upsert_replaces_by_id() {
    let (mut store, id) = deploy_store();
    let build_id = store.get_steps_of_process(id)[0].id.unwrap();
    let replacement = Step {
        id: Some(build_id),
        name: "rebuild".to_string(),
        step_num: 1,
        description: "from scratch".to_string(),
        process_id: None,
        is_done: false,
    };
    let kept = store.save_step(&replacement, id).unwrap();
    assert_eq!(kept, build_id);
    let steps = store.get_steps_of_process(id);
    assert_eq!(steps.len(), 2);
    assert_eq!(steps[0].name, "rebuild");
    assert_eq!(steps[0].description, "from scratch");
}

#[test]
fn joined_view_orders_by_process_then_step() {
    let mut store = Store::new(StoreConfig::default());
    store
        .save_process(&fresh_process(
            "early",
            2,
            vec![fresh_step(1, "e1", ""), fresh_step(2, "e2", "")],
        ))
        .unwrap();
    store
        .save_process(&fresh_process(
            "late",
            2,
            vec![fresh_step(1, "l1", ""), fresh_step(2, "l2", "")],
        ))
        .unwrap();
    let joined = store.get_all_joined();
    assert_eq!(joined.len(), 4);
    let expected = [("early", "e1"), ("early", "e2"), ("late", "l1"), ("late", "l2")];
    for k in 0..4 {
        assert_eq!(joined[k].process_name, expected[k].0);
        assert_eq!(joined[k].step_name, expected[k].1);
    }
}

#[test]
fn toggle_step_twice_restores_flag() {
    let (mut store, id) = deploy_store();
    let sid = store.get_steps_of_process(id)[0].id.unwrap();
    store.toggle_step_done(sid).unwrap();
    assert!(store.get_steps_of_process(id)[0].is_done);
    store.toggle_step_done(sid).unwrap();
    assert!(!store.get_steps_of_process(id)[0].is_done);
}

#[test]
fn rename_respects_unique_process_names() {
    let config = StoreConfig { unique_process_names: true, unique_step_names: true };
    let mut store = Store::new(config);
    let a = store.save_process(&fresh_process("a", 0, vec![])).unwrap();
    store.save_process(&fresh_process("b", 0, vec![])).unwrap();
    assert_eq!(
        store.update_process_name(a, "b".to_string()),
        Err(StoreError::ConstraintViolation)
    );
    // renaming a process to its own current name stays allowed
    assert_eq!(store.update_process_name(a, "a".to_string()), Ok(()));
}

#[test]
fn error_messages_are_one_line_each() {
    assert_eq!(StoreError::StorageUnavailable.message(), "storage unavailable");
    assert_eq!(StoreError::ConstraintViolation.message(), "constraint violation");
    assert_eq!(StoreError::NotFound.message(), "not found");
}

#[test]
fn default_config_scopes_uniqueness() {
    let config = StoreConfig::default();
    assert!(!config.unique_process_names);
    assert!(config.unique_step_names);
}
