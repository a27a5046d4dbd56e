use flashpad::backup::{
    backup_date_of, backups_dir, backups_to_prune, daily_backup_name, dated_backups,
    last_backup_at, list_backup_files, safety_backup_name, todays_backup_name, DirEntry,
    safety_backup_name_now, BACKUP_PREFIX, SAFETY_PREFIX,
};
use flashpad::foreign::CalendarDate;
use flashpad::scheduler::backup_due;

fn entry(name: &str) -> DirEntry {
    DirEntry {
        file_name: name.to_string(),
        path: format!("/b/{name}"),
        size_bytes: name.len() as u64,
    }
}

#[test]
fn backups_live_per_database_under_the_data_dir() {
    assert_eq!(backups_dir("/data/flashpad", 3), "/data/flashpad/backups/3");
    assert_eq!(backups_dir("/data", 1024), "/data/backups/1024");
}

#[test]
fn backup_names_carry_their_date() {
    assert_eq!(daily_backup_name("2026-07-01"), "flashpad-backup-2026-07-01.db");
    assert_eq!(safety_backup_name("2026-07-01T120000"), "flashpad-preimport-2026-07-01T120000.db");
    assert_eq!(backup_date_of("flashpad-backup-2026-07-01.db"), Some("2026-07-01".to_string()));
    assert_eq!(backup_date_of("flashpad-preimport-2026-07-01T120000.db"), None);
    assert_eq!(backup_date_of("flashpad-backup-2026-07-01.sqlite"), None);
    assert_eq!(backup_date_of("notes.db"), None);
    let today = todays_backup_name();
    assert!(today.starts_with(BACKUP_PREFIX) && today.ends_with(".db"));
    assert_eq!(today, todays_backup_name());
}

#[test]
fn prune_backups_keeps_only_the_newest_n() {
    let entries: Vec<DirEntry> = ["2026-07-03", "2026-07-01", "2026-07-04", "2026-07-02"]
        .iter()
        .map(|d| entry(&format!("{BACKUP_PREFIX}{d}.db")))
        .collect();
    let dated = dated_backups(&entries);
    let dates: Vec<&str> = dated.iter().map(|d| d.date.as_str()).collect();
    assert_eq!(dates, vec!["2026-07-01", "2026-07-02", "2026-07-03", "2026-07-04"]);

    let doomed = backups_to_prune(&dated, 2);
    let doomed: Vec<&str> = doomed.iter().map(|d| d.date.as_str()).collect();
    assert_eq!(doomed, vec!["2026-07-01", "2026-07-02"]);
    assert!(backups_to_prune(&dated, 4).is_empty());
    assert!(backups_to_prune(&dated, 7).is_empty());
    assert_eq!(backups_to_prune(&dated, 0).len(), 4);
}

#[test]
fn prune_backups_never_touches_safety_backups() {
    let entries = vec![
        entry(&format!("{BACKUP_PREFIX}2026-07-01.db")),
        entry(&format!("{SAFETY_PREFIX}2026-07-01T120000.db")),
    ];
    let doomed = backups_to_prune(&dated_backups(&entries), 0);
    assert_eq!(doomed.len(), 1);
    assert!(doomed[0].file_name.starts_with(BACKUP_PREFIX));
    assert_eq!(doomed[0].path, "/b/flashpad-backup-2026-07-01.db");
}

#[test]
fn last_backup_at_reads_the_newest_filename_date() {
    assert_eq!(last_backup_at(&dated_backups(&vec![])), None, "no backups yet");
    let entries = vec![
        entry(&format!("{BACKUP_PREFIX}2026-07-10.db")),
        entry(&format!("{BACKUP_PREFIX}2026-07-01.db")),
        entry("unrelated.txt"),
    ];
    assert_eq!(
        last_backup_at(&dated_backups(&entries)),
        Some(CalendarDate { year: 2026, month: 7, day: 10 })
    );
    let bad = vec![entry(&format!("{BACKUP_PREFIX}yesterday.db"))];
    assert_eq!(last_backup_at(&dated_backups(&bad)), None);
}

#[test]
fn listing_shows_daily_and_safety_backups_newest_name_first() {
    let entries = vec![
        entry("flashpad-backup-2026-07-01.db"),
        entry("other.db"),
        entry("flashpad-preimport-2026-07-02T080000.db"),
        entry("flashpad-backup-2026-07-03.db"),
    ];
    let listed = list_backup_files(&entries);
    let names: Vec<&str> = listed.iter().map(|b| b.filename.as_str()).collect();
    assert_eq!(
        names,
        vec![
            "flashpad-preimport-2026-07-02T080000.db",
            "flashpad-backup-2026-07-03.db",
            "flashpad-backup-2026-07-01.db",
        ]
    );
    assert_eq!(listed[1].path, "/b/flashpad-backup-2026-07-03.db");
    assert_eq!(listed[1].size_bytes, "flashpad-backup-2026-07-03.db".len() as u64);
    assert!(list_backup_files(&vec![]).is_empty());
}

#[test]
fn backup_is_due_unless_already_made_today() {
    let today = CalendarDate { year: 2026, month: 7, day: 10 };
    let yesterday = CalendarDate { year: 2026, month: 7, day: 9 };
    assert!(backup_due(None, today));
    assert!(backup_due(Some(yesterday), today));
    assert!(!backup_due(Some(today), today));
}

#[test]
fn clock_names_carry_a_date_or_a_stamp() {
    let daily: Vec<char> = todays_backup_name().chars().collect();
    assert_eq!(daily.len(), "flashpad-backup-".len() + 10 + 3);
    assert_eq!(daily[16 + 4], '-');
    assert_eq!(daily[16 + 7], '-');
    let safety: Vec<char> = safety_backup_name_now().chars().collect();
    assert_eq!(safety.len(), "flashpad-preimport-".len() + 17 + 3);
    assert_eq!(safety[19 + 10], 'T');
}
