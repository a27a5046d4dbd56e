use flashpad::flashnote::{extract_current_content, select_current_content};

#[test]
fn extract_current_content_returns_whole_file_when_no_divider_present() {
    assert_eq!(extract_current_content("Samtallista"), "Samtallista");
}

#[test]
fn extract_current_content_takes_segment_after_last_timestamped_divider() {
    let raw = "\r\n=-=-=-=-=- 7/18/2026 3:28:11 PM =-=-=-=-=-=-=-=-=-=-=-=-=-=-=-=-=-=-=-=\r\nsamtal\r\n\r\n\r\n=-=-=-=-=- 7/18/2026 3:28:14 PM =-=-=-=-=-=-=-=-=-=-=-=-=-=-=-=-=-=-=-=\r\n\r\n\r\nsamtal\r\n\r\n\r\n=-=-=-=-=- 7/18/2026 3:28:17 PM =-=-=-=-=-=-=-=-=-=-=-=-=-=-=-=-=-=-=-=\r\n\r\nsamtal\r\n\r\n\r\n=-=-=-=-=- 7/18/2026 3:28:19 PM =-=-=-=-=-=-=-=-=-=-=-=-=-=-=-=-=-=-=-=\r\n\r\nsamtal\r\n\r\n\r\n=-=-=-=-=- 7/18/2026 3:28:22 PM =-=-=-=-=-=-=-=-=-=-=-=-=-=-=-=-=-=-=-=\r\n\r\nsamtal\r\n\r\n\r\n=-=-=-=-=- 7/18/2026 3:28:25 PM =-=-=-=-=-=-=-=-=-=-=-=-=-=-=-=-=-=-=-=\r\n\r\nsamtal\r\n\r\n\r\n=-=-=-=-=- 7/18/2026 3:28:27 PM =-=-=-=-=-=-=-=-=-=-=-=-=-=-=-=-=-=-=-=\r\n\r\n\r\nsamtal\r\n\r\n\r\n=-=-=-=-=- 7/18/2026 3:28:29 PM =-=-=-=-=-=-=-=-=-=-=-=-=-=-=-=-=-=-=-=\r\n\r\nsamtal";
    assert_eq!(extract_current_content(raw), "samtal");
}

#[test]
fn extract_current_content_takes_segment_after_last_divider_short_history() {
    let raw = "\r\n=-=-=-=-=- 7/18/2026 3:27:44 PM =-=-=-=-=-=-=-=-=-=-=-=-=-=-=-=-=-=-=-=\r\nSamltal\r\n\r\n\r\n=-=-=-=-=- 7/18/2026 3:27:46 PM =-=-=-=-=-=-=-=-=-=-=-=-=-=-=-=-=-=-=-=\r\n\r\n\r\nsamtal\r\n\r\n\r\n=-=-=-=-=- 7/18/2026 3:27:51 PM =-=-=-=-=-=-=-=-=-=-=-=-=-=-=-=-=-=-=-=\r\n\r\n\r\nsamtal";
    assert_eq!(extract_current_content(raw), "samtal");
}

#[test]
fn extract_current_content_is_empty_when_last_segment_after_timestamped_divider_is_blank() {
    let raw = "Write your note here\r\n=-=-=-=-=-=-=-=-=-=-=-=-=-=-=-=-=-=-=-=-=-=-=-=-=-=-=-=-=-=-=--=\r\n7/10/2026 2:21:42 PM\r\n=-=-=-=-=- 7/10/2026 2:21:42 PM =-=-=-=-=-=-=-=-=-=-=-=-=-=-=-=-=-=-=-=\r\n\r\n=-=-=-=-=- 7/10/2026 2:27:48 PM =-=-=-=-=-=-=-=-=-=-=-=-=-=-=-=-=-=-=-=\r\n";
    assert_eq!(extract_current_content(raw), "");
}

#[test]
fn extract_current_content_falls_back_past_trailing_undated_divider() {
    let raw = "New line\r\n=-=-=-=-=-=-=-=-=-=-=-=-=-=-=-=-=-=-=-=-=-=-=-=-=-=-=-=-=-=-=--=\r\nDate time\r\n\r\n7/10/2026 1:47:53 PM\r\n\r\nNew Line with datetime \r\n=-=-=-=-=- 7/10/2026 1:47:56 PM =-=-=-=-=-=-=-=-=-=-=-=-=-=-=-=-=-=-=-=\r\n\r\n=-=-=-=-=- 7/10/2026 1:54:55 PM =-=-=-=-=-=-=-=-=-=-=-=-=-=-=-=-=-=-=-=\r\n\r\n=-=-=-=-=- 7/10/2026 1:54:57 PM =-=-=-=-=-=-=-=-=-=-=-=-=-=-=-=-=-=-=-=\r\n\r\n=-=-=-=-=- 7/10/2026 1:54:58 PM =-=-=-=-=-=-=-=-=-=-=-=-=-=-=-=-=-=-=-=\r\n\r\n=-=-=-=-=- 7/10/2026 1:54:59 PM =-=-=-=-=-=-=-=-=-=-=-=-=-=-=-=-=-=-=-=\r\nnetwst jadaja\r\n\r\n\r\n=-=-=-=-=-=-=-=-=-=-=-=-=-=-=-=-=-=-=-=-=-=-=-=-=-=-=-=-=-=-=--=\r\n";
    assert_eq!(extract_current_content(raw), "netwst jadaja");
}

#[test]
fn content_without_dividers_is_trimmed_whole_text() {
    assert_eq!(extract_current_content("  first\r\nsecond \n"), "first\nsecond");
}

#[test]
fn short_runs_and_malformed_timestamps_are_not_dividers() {
    assert_eq!(extract_current_content("a\n====\nb"), "a\n====\nb");
    assert_eq!(extract_current_content("a\n===== 7/10/2026 PM =====\nb"), "a\n===== 7/10/2026 PM =====\nb");
}

#[test]
fn content_after_last_divider_joins_its_lines() {
    assert_eq!(extract_current_content("old\n=====\n one\ntwo \n"), "one\ntwo");
}

#[test]
fn all_blank_segments_give_empty_content() {
    assert_eq!(extract_current_content("\n=====\n  \n=====\n"), "");
}

fn lines(v: &[&str]) -> Vec<String> {
    v.iter().map(|s| s.to_string()).collect()
}

#[test]
fn selection_follows_the_divider_flags() {
    let ls = lines(&["keep", "-----", "", "=====", ""]);
    assert_eq!(select_current_content(&ls, &vec![false, true, false, true, false]), "keep");
    let ls = lines(&["a", "x/y", "b"]);
    assert_eq!(select_current_content(&ls, &vec![false, true, false]), "b");
    assert_eq!(select_current_content(&ls, &vec![false, false, false]), "a\nx/y\nb");
    let ls = lines(&["a", "x/y", " "]);
    assert_eq!(select_current_content(&ls, &vec![false, true, false]), "");
}

#[test]
fn windows_and_unix_line_endings_give_the_same_content() {
    let unix = "Draft\n=-=-=-=-=- 7/18/2026 3:28:11 PM =-=-=-=-=-=-=-=-=-=-=-=-=-=-=-=-=-=-=-=\n\nFinal text\n\n";
    let windows = unix.replace('\n', "\r\n");
    assert_eq!(extract_current_content(&windows), extract_current_content(unix));
    assert_eq!(extract_current_content(unix), "Final text");
}
