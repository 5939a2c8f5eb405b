use processor::delete::{DeleteCommands, DeleteSub};
use processor::done::{ToggleCommands, ToggleSub};
use processor::error::StoreError;
use processor::process::Process;
use processor::step::Step;
use processor::store::{Store, StoreConfig};
use processor::update::{UpdateCommands, UpdateSub};

fn seeded_store() -> (Store, usize, usize) {
    let mut store = Store::new(StoreConfig::default());
    let p = Process {
        id: None,
        name: "serve".to_string(),
        num_steps: 1,
        steps: vec![Step {
            id: None,
            name: "start".to_string(),
            step_num: 1,
            description: String::new(),
            process_id: None,
            is_done: false,
        }],
        is_done: false,
    };
    let pid = store.save_process(&p).unwrap();
    let sid = store.get_steps_of_process(pid)[0].id.unwrap();
    (store, pid, sid)
}

#[test]
fn empty_update_command_does_nothing() {
    let (mut store, pid, _) = seeded_store();
    let cmd = UpdateSub { update: None };
    assert_eq!(store.apply_update(&cmd), Ok(()));
    assert_eq!(store.get_process(pid).unwrap().name, "serve");
}

#[test]
fn update_command_without_name_does_nothing() {
    let (mut store, pid, _) = seeded_store();
    let cmd = UpdateSub { update: Some(UpdateCommands::Process { id: pid, name: None }) };
    assert_eq!(store.apply_update(&cmd), Ok(()));
    assert_eq!(store.get_process(pid).unwrap().name, "serve");
}

#[test]
fn update_command_renames_process() {
    let (mut store, pid, _) = seeded_store();
    let cmd = UpdateSub {
        update: Some(UpdateCommands::Process { id: pid, name: Some("serve2".to_string()) }),
    };
    assert_eq!(store.apply_update(&cmd), Ok(()));
    assert_eq!(store.get_process(pid).unwrap().name, "serve2");
}

#[test]
fn update_command_rewrites_step_fields() {
    let (mut store, pid, sid) = seeded_store();
    let cmd = UpdateSub {
        update: Some(UpdateCommands::Step {
            id: sid,
            name: Some("boot".to_string()),
            description: Some("bring it up".to_string()),
        }),
    };
    assert_eq!(store.apply_update(&cmd), Ok(()));
    let steps = store.get_steps_of_process(pid);
    assert_eq!(steps[0].name, "boot");
    assert_eq!(steps[0].description, "bring it up");
}

#[test]
fn update_command_reports_missing_step() {
    let (mut store, _, _) = seeded_store();
    let cmd = UpdateSub {
        update: Some(UpdateCommands::Step {
            id: 99,
            name: Some("ghost".to_string()),
            description: None,
        }),
    };
    assert_eq!(store.apply_update(&cmd), Err(StoreError::NotFound));
}

#[test]
fn toggle_command_flips_each_kind() {
    let (mut store, pid, sid) = seeded_store();
    let cmd = ToggleSub { done: ToggleCommands::Process { id: pid } };
    assert_eq!(store.apply_toggle(&cmd), Ok(()));
    assert!(store.get_process(pid).unwrap().is_done);

    let cmd = ToggleSub { done: ToggleCommands::Step { id: sid } };
    assert_eq!(store.apply_toggle(&cmd), Ok(()));
    assert!(store.get_steps_of_process(pid)[0].is_done);
}

#[test]
fn delete_command_removes_each_kind() {
    let (mut store, pid, sid) = seeded_store();
    let cmd = DeleteSub { delete: DeleteCommands::Step { id: sid } };
    assert_eq!(store.apply_delete(&cmd), Ok(()));
    assert!(store.get_all_steps().is_empty());

    let cmd = DeleteSub { delete: DeleteCommands::Process { id: pid } };
    assert_eq!(store.apply_delete(&cmd), Ok(()));
    assert!(store.get_all_processes().is_empty());
}
