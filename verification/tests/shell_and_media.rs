use flashpad::flashnote::{plan_import, record_imported, ImportEntry, ImportSummary};
use flashpad::images::{check_image_size, image_data_uri, image_mime, mime_for_extension};
use flashpad::notes::Note;
use flashpad::profiles::{add_database, default_config, set_active};
use flashpad::search::{databases_to_search, label_notes};
use flashpad::shell::{
    hotkey_file_path, hotkey_from_file, launched_hidden, normalize_hotkey, show_when_ready,
    toggle_action, WindowAction,
};

#[test]
fn image_types_are_matched_case_insensitively() {
    assert_eq!(mime_for_extension("png"), Some("image/png"));
    assert_eq!(mime_for_extension("JPG"), Some("image/jpeg"));
    assert_eq!(mime_for_extension("Jpeg"), Some("image/jpeg"));
    assert_eq!(mime_for_extension("gif"), Some("image/gif"));
    assert_eq!(mime_for_extension("WEBP"), Some("image/webp"));
    assert_eq!(mime_for_extension("bmp"), None);
    assert_eq!(image_mime(None), Err("Unsupported image type".to_string()));
    assert_eq!(image_mime(Some("svg")), Err("Unsupported image type".to_string()));
    assert_eq!(image_mime(Some("PNG")), Ok("image/png"));
}

#[test]
fn images_over_the_limit_are_refused() {
    assert!(check_image_size(25 * 1024 * 1024).is_ok());
    assert_eq!(
        check_image_size(25 * 1024 * 1024 + 1),
        Err("Image file is too large to embed".to_string())
    );
}

#[test]
fn images_embed_as_base64_data_uris() {
    assert_eq!(image_data_uri("image/png", &vec![]), "data:image/png;base64,");
    assert_eq!(image_data_uri("image/gif", &b"Man".to_vec()), "data:image/gif;base64,TWFu");
    assert_eq!(image_data_uri("image/gif", &b"Ma".to_vec()), "data:image/gif;base64,TWE=");
    assert_eq!(image_data_uri("image/gif", &vec![0xff]), "data:image/gif;base64,/w==");
    assert_eq!(image_data_uri("image/webp", &vec![0xfb, 0xff, 0x00, 0x10]), "data:image/webp;base64,+/8AEA==");
}

#[test]
fn hotkey_setting_is_trimmed_and_defaults() {
    assert_eq!(hotkey_from_file(None), "Alt+S");
    assert_eq!(hotkey_from_file(Some("  \n".to_string())), "Alt+S");
    assert_eq!(hotkey_from_file(Some(" Ctrl+Space\n".to_string())), "Ctrl+Space");
    assert_eq!(normalize_hotkey("  Alt+K "), Ok("Alt+K".to_string()));
    assert_eq!(normalize_hotkey(" \t"), Err("Hotkey cannot be empty".to_string()));
    assert_eq!(hotkey_file_path("/data"), "/data/hotkey.txt");
}

#[test]
fn window_follows_the_tracked_state() {
    assert_eq!(toggle_action(true), WindowAction::Hide);
    assert_eq!(toggle_action(false), WindowAction::Show);
    assert!(show_when_ready(false));
    assert!(!show_when_ready(true));
    assert!(launched_hidden(&vec!["flashpad".to_string(), "--hidden".to_string()]));
    assert!(!launched_hidden(&vec!["flashpad".to_string(), "--hidden=1".to_string()]));
    assert!(!launched_hidden(&vec![]));
}

fn ie(name: &str, stem: &str, ext: Option<&str>, is_dir: bool) -> ImportEntry {
    ImportEntry {
        file_name: Some(name.to_string()),
        file_stem: Some(stem.to_string()),
        extension: ext.map(|e| e.to_string()),
        is_dir,
    }
}

#[test]
fn import_pairs_folders_with_their_text_files() {
    let entries = vec![
        ie("Foo.txt", "Foo", Some("txt"), false),
        ie("Foo", "Foo", None, true),
        ie("Bar.TXT", "Bar", Some("TXT"), false),
        ie("pic.png", "pic", Some("png"), false),
        ImportEntry { file_name: None, file_stem: None, extension: None, is_dir: true },
    ];
    let plan = plan_import(&entries);
    let subs: Vec<(usize, &str, Option<usize>)> =
        plan.subfolders.iter().map(|i| (i.entry, i.title.as_str(), i.content_entry)).collect();
    assert_eq!(subs, vec![(1, "Foo", Some(0)), (4, "Untitled", None)]);
    let txts: Vec<(usize, &str)> = plan.text_files.iter().map(|i| (i.entry, i.title.as_str())).collect();
    assert_eq!(txts, vec![(2, "Bar")]);

    let mut summary = ImportSummary { imported_count: 0, first_note_id: None };
    record_imported(&mut summary, 10);
    record_imported(&mut summary, 11);
    assert_eq!(summary.imported_count, 2);
    assert_eq!(summary.first_note_id, Some(10));
}

#[test]
fn a_dotted_folder_reads_its_own_same_named_text_file() {
    let entries = vec![
        ie("v1.2", "v1", None, true),
        ie("v1.txt", "v1", Some("txt"), false),
        ie("v1.2.txt", "v1.2", Some("txt"), false),
        ie("Empty", "Empty", None, true),
    ];
    let plan = plan_import(&entries);
    let subs: Vec<(usize, &str, Option<usize>)> =
        plan.subfolders.iter().map(|i| (i.entry, i.title.as_str(), i.content_entry)).collect();
    assert_eq!(subs, vec![(0, "v1.2", Some(2)), (3, "Empty", None)]);
    let txts: Vec<(usize, &str)> = plan.text_files.iter().map(|i| (i.entry, i.title.as_str())).collect();
    assert_eq!(txts, vec![(1, "v1")]);
}

#[test]
fn cross_database_search_skips_the_active_database() {
    let mut config = default_config("/d");
    let work = add_database(&mut config, "Work".to_string(), "/w.sqlite3".to_string());
    let home = add_database(&mut config, "Home".to_string(), "/h.sqlite3".to_string());
    set_active(&mut config, work.id).unwrap();
    let targets = databases_to_search(&config);
    let ids: Vec<u32> = targets.iter().map(|p| p.id).collect();
    assert_eq!(ids, vec![1, home.id]);

    let n = Note {
        id: 1,
        title: "t".to_string(),
        content: String::new(),
        parent_id: None,
        created_at: String::new(),
        updated_at: String::new(),
        is_markdown: false,
        is_locked: false,
        sort_order: 0,
    };
    let labelled = label_notes(&targets[1], vec![n]);
    assert_eq!(labelled.len(), 1);
    assert_eq!(labelled[0].database_id, home.id);
    assert_eq!(labelled[0].database_name, "Home");
    assert_eq!(labelled[0].note.title, "t");
}
