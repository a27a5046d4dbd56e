use flashpad::db::DbStatus;
use flashpad::profiles::{
    active_database, add_database, build_app_state, config_path, default_config, find_database,
    looks_like_synced_folder, now_iso, sync_provider_of_lowered, remove_database_entry, rename_database_entry,
    repair_active_database, set_active, set_retention_count, update_path_for, AppConfig,
    DEFAULT_RETENTION_COUNT,
};

fn fresh() -> AppConfig {
    default_config("/data/flashpad")
}

#[test]
fn looks_like_synced_folder_detects_common_providers() {
    assert_eq!(
        looks_like_synced_folder("/home/user/OneDrive/flashpad.sqlite3"),
        Some("OneDrive")
    );
    assert_eq!(
        looks_like_synced_folder("/home/user/Dropbox/notes/flashpad.sqlite3"),
        Some("Dropbox")
    );
    assert_eq!(
        looks_like_synced_folder("/home/user/Documents/flashpad.sqlite3"),
        None
    );
}

#[test]
fn synced_folder_detection_ignores_case_and_knows_all_providers() {
    assert_eq!(looks_like_synced_folder("C:\\Users\\me\\ONEDRIVE\\x.db"), Some("OneDrive"));
    assert_eq!(looks_like_synced_folder("/Volumes/Google Drive/x.db"), Some("Google Drive"));
    assert_eq!(looks_like_synced_folder("/mnt/GoogleDrive/x.db"), Some("Google Drive"));
    assert_eq!(looks_like_synced_folder("/Users/me/iCloud Drive/x.db"), Some("iCloud Drive"));
    assert_eq!(looks_like_synced_folder("/Users/me/iCloud/x.db"), None);
}

#[test]
fn load_bootstraps_default_profile_when_no_config_exists() {
    let config = fresh();
    assert_eq!(config.databases.len(), 1);
    assert_eq!(config.active_database_id, 1);
    assert_eq!(config.databases[0].name, "Default");
    assert_eq!(config.databases[0].path, "/data/flashpad/flashpad.sqlite3");
    assert_eq!(config.next_id, 2);
    assert_eq!(config.version, 1);
    assert_eq!(config.backup.retention_count, DEFAULT_RETENTION_COUNT);
}

#[test]
fn config_file_lives_in_the_data_dir() {
    assert_eq!(config_path("/data/flashpad"), "/data/flashpad/flashpad.config.json");
    assert_eq!(config_path("/data/flashpad/"), "/data/flashpad/flashpad.config.json");
}

#[test]
fn save_and_load_round_trip() {
    let mut config = fresh();
    let work = add_database(&mut config, "Work".to_string(), "/w/work.sqlite3".to_string());
    assert_eq!(work.id, 2);
    assert_eq!(config.databases.len(), 2);
    assert_eq!(config.databases[1].name, "Work");
    assert_eq!(config.next_id, 3);
}

#[test]
fn rename_and_switch_active_database() {
    let mut config = fresh();
    let work = add_database(&mut config, "Work".to_string(), "/w/work.sqlite3".to_string());

    rename_database_entry(&mut config, work.id, "Work Notes".to_string()).unwrap();
    assert_eq!(find_database(&config, work.id).unwrap().name, "Work Notes");

    set_active(&mut config, work.id).unwrap();
    assert_eq!(active_database(&config).unwrap().id, work.id);
}

#[test]
fn cannot_remove_active_database() {
    let mut config = fresh();
    add_database(&mut config, "Work".to_string(), "/w/work.sqlite3".to_string());
    let result = remove_database_entry(&mut config, 1);
    assert_eq!(
        result,
        Err("Cannot remove the currently active database - switch to another one first".to_string())
    );
    assert_eq!(config.databases.len(), 2);
}

#[test]
fn cannot_remove_last_remaining_database() {
    let mut config = fresh();
    set_active(&mut config, 1).unwrap();
    let result = remove_database_entry(&mut config, 1);
    assert_eq!(result, Err("Cannot remove the only remaining database".to_string()));
}

#[test]
fn remove_database_deletes_list_entry_only_not_the_file() {
    let mut config = fresh();
    let work = add_database(&mut config, "Work".to_string(), "/w/work.sqlite3".to_string());
    remove_database_entry(&mut config, work.id).unwrap();
    assert_eq!(config.databases.len(), 1);
    assert_eq!(config.databases[0].id, 1);
}

#[test]
fn unknown_ids_are_reported_by_number() {
    let mut config = fresh();
    add_database(&mut config, "Work".to_string(), "/w/work.sqlite3".to_string());
    assert_eq!(find_database(&config, 42).unwrap_err(), "No database with id 42");
    assert_eq!(set_active(&mut config, 7), Err("No database with id 7".to_string()));
    assert_eq!(
        rename_database_entry(&mut config, 0, "x".to_string()),
        Err("No database with id 0".to_string())
    );
    assert_eq!(remove_database_entry(&mut config, 9), Err("No database with id 9".to_string()));
    assert_eq!(config.active_database_id, 1);
    assert_eq!(config.databases.len(), 2);
}

#[test]
fn moving_a_database_changes_only_its_path() {
    let mut config = fresh();
    let work = add_database(&mut config, "Work".to_string(), "/w/work.sqlite3".to_string());
    update_path_for(&mut config, work.id, "/new/work.sqlite3".to_string()).unwrap();
    let p = find_database(&config, work.id).unwrap();
    assert_eq!(p.path, "/new/work.sqlite3");
    assert_eq!(p.name, "Work");
    assert_eq!(find_database(&config, 1).unwrap().path, "/data/flashpad/flashpad.sqlite3");
}

#[test]
fn repair_points_a_dangling_active_id_at_the_first_profile() {
    let mut config = fresh();
    add_database(&mut config, "Work".to_string(), "/w/work.sqlite3".to_string());
    config.active_database_id = 99;
    repair_active_database(&mut config);
    assert_eq!(config.active_database_id, 1);
    set_active(&mut config, 2).unwrap();
    repair_active_database(&mut config);
    assert_eq!(config.active_database_id, 2);
}

#[test]
fn app_state_reports_status_and_sync_warning() {
    let mut config = fresh();
    let synced = add_database(
        &mut config,
        "Synced".to_string(),
        "/home/me/Dropbox/notes.sqlite3".to_string(),
    );
    set_retention_count(&mut config, 3);
    let state = build_app_state(&config, &DbStatus::Ready);
    assert!(state.ready);
    assert_eq!(state.error, None);
    assert_eq!(state.sync_warning, None);
    assert_eq!(state.databases.len(), 2);
    assert_eq!(state.backup.retention_count, 3);

    set_active(&mut config, synced.id).unwrap();
    let state = build_app_state(&config, &DbStatus::Unavailable("disk gone".to_string()));
    assert!(!state.ready);
    assert_eq!(state.error, Some("disk gone".to_string()));
    assert_eq!(
        state.sync_warning,
        Some("This database's folder appears to be synced by Dropbox. FlashPad avoids WAL mode to reduce corruption risk, but avoid editing the same database from two devices at once.".to_string())
    );
    assert_eq!(state.active_database_id, synced.id);
}

#[test]
fn timestamps_read_year_month_day_t_hour_minute_second() {
    let stamp: Vec<char> = now_iso().chars().collect();
    assert_eq!(stamp.len(), 19);
    for (i, c) in stamp.iter().enumerate() {
        match i {
            4 | 7 => assert_eq!(*c, '-'),
            10 => assert_eq!(*c, 'T'),
            13 | 16 => assert_eq!(*c, ':'),
            _ => assert!(c.is_ascii_digit()),
        }
    }
}

#[test]
fn providers_are_read_from_an_already_lowered_path() {
    assert_eq!(sync_provider_of_lowered("/home/u/onedrive/x"), Some("OneDrive"));
    assert_eq!(sync_provider_of_lowered("/home/u/googledrive/x"), Some("Google Drive"));
    assert_eq!(sync_provider_of_lowered("/home/u/icloud drive/x"), Some("iCloud Drive"));
    assert_eq!(sync_provider_of_lowered("/home/u/OneDrive/x"), None);
    assert_eq!(sync_provider_of_lowered("/home/u/documents"), None);
}

#[test]
fn new_profiles_are_stamped_with_the_local_time() {
    let mut config = fresh();
    let p = add_database(&mut config, "Work".to_string(), "/w.sqlite3".to_string());
    assert_eq!(p.created_at.chars().count(), 19);
    assert_eq!(p.created_at.chars().nth(10), Some('T'));
    assert_eq!(config.databases[0].created_at.chars().count(), 19);
}
