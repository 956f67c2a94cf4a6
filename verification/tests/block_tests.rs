use hosts_block::block::end_marker_line;
use hosts_block::block::extract_status;
use hosts_block::block::replace_block;
use hosts_block::block::source_update_date;
use hosts_block::block::start_marker_line;

fn start() -> String {
    "# Cidy's Adobe Net Block Start".to_string()
}

fn end() -> String {
    "# Cidy's Adobe Net Block End".to_string()
}

#[test]
fn marker_lines_spell_the_contract() {
    assert_eq!(start_marker_line(), "# Cidy's Adobe Net Block Start");
    assert_eq!(end_marker_line(), "# Cidy's Adobe Net Block End");
}

#[test]
fn scenario_fresh_file() {
    let t = "127.0.0.1 localhost\n";
    let b = "1.2.3.4 example.com\n# Last update: 2099-01-01\n";
    let r = replace_block(t, b);
    let expected = format!(
        "127.0.0.1 localhost\n\n{}\n1.2.3.4 example.com\n# Last update: 2099-01-01\n{}\n",
        start(),
        end()
    );
    assert_eq!(r, expected);
    let (present, stamp) = extract_status(&r);
    assert!(present);
    assert_eq!(stamp, "Last update: 2099-01-01");
}

#[test]
fn timestamp_extraction_from_assembled_file() {
    let t = "10.0.0.1 gateway\n";
    let b = "0.0.0.0 tracker.example\n# Last update: 2024-01-01\n";
    let r = replace_block(t, b);
    let (present, stamp) = extract_status(&r);
    assert!(present);
    assert_eq!(stamp, "Last update: 2024-01-01");
}

#[test]
fn replacement_is_idempotent() {
    let t = "127.0.0.1 localhost\n192.168.0.1 router\n";
    let b = "0.0.0.0 a.example\n# Last update: 2050-06-07\n";
    let once = replace_block(t, b);
    let twice = replace_block(&once, b);
    assert_eq!(once, twice);
}

#[test]
fn replacement_swaps_existing_block() {
    let t = "127.0.0.1 localhost\n";
    let old = "0.0.0.0 old.example\n# Last update: 2001-01-01\n";
    let fresh = "0.0.0.0 new.example\n# Last update: 2002-02-02\n";
    let with_old = replace_block(t, old);
    let with_new = replace_block(&with_old, fresh);
    assert!(!with_new.contains("old.example"));
    assert!(with_new.contains("new.example"));
    assert_eq!(with_new.matches(&start()).count(), 1);
    assert_eq!(with_new.matches(&end()).count(), 1);
    let (_, stamp) = extract_status(&with_new);
    assert_eq!(stamp, "Last update: 2002-02-02");
}

#[test]
fn unmanaged_text_kept_as_prefix() {
    let t = "127.0.0.1 localhost\n# a comment\n\n\n";
    let b = "0.0.0.0 x.example\n";
    let r = replace_block(t, b);
    assert!(r.starts_with("127.0.0.1 localhost\n# a comment"));
    assert!(r.starts_with(&format!("{}\n\n{}\n", "127.0.0.1 localhost\n# a comment".trim_end(), start())));
}

#[test]
fn round_trip_detection() {
    let t = "anything at all";
    let b = "whatever content";
    let (present, _) = extract_status(&replace_block(t, b));
    assert!(present);
}

#[test]
fn absence_reports_false_and_empty() {
    let (present, stamp) = extract_status("127.0.0.1 localhost\n");
    assert!(!present);
    assert_eq!(stamp, "");
}

#[test]
fn missing_end_marker_degrades_gracefully() {
    let t = format!("a line\n{}\n# Last update: 2020-02-02\n", start());
    let (present, stamp) = extract_status(&t);
    assert!(present);
    assert_eq!(stamp, "");
}

#[test]
fn empty_file_gets_a_block() {
    let b = "0.0.0.0 x.example\n# Last update: 2031-03-03";
    let r = replace_block("", b);
    let expected = format!(
        "\n\n{}\n0.0.0.0 x.example\n# Last update: 2031-03-03\n{}\n",
        start(),
        end()
    );
    assert_eq!(r, expected);
}

#[test]
fn hash_characters_stripped_from_timestamp() {
    let t = "";
    let b = "0.0.0.0 x.example\n## Last update: 2044-04-04 ##\n";
    let r = replace_block(t, b);
    let (_, stamp) = extract_status(&r);
    assert_eq!(stamp, "Last update: 2044-04-04");
}

#[test]
fn carriage_returns_trimmed_from_timestamp() {
    let t = format!(
        "base\r\n{}\r\n0.0.0.0 x.example\r\n# Last update: 2015-05-05\r\n{}\r\n",
        start(),
        end()
    );
    let (present, stamp) = extract_status(&t);
    assert!(present);
    assert_eq!(stamp, "Last update: 2015-05-05");
}

#[test]
fn timestamp_found_on_tenth_window_line() {
    // The window opens with the line break after the start marker, so the
    // ninth content line is the tenth line of the window.
    let mut b = String::new();
    for i in 0..8 {
        b.push_str(&format!("0.0.0.{} filler.example\n", i));
    }
    b.push_str("# Last update: 2060-06-06\n");
    let r = replace_block("base\n", &b);
    let (_, stamp) = extract_status(&r);
    assert_eq!(stamp, "Last update: 2060-06-06");
}

#[test]
fn timestamp_beyond_ten_window_lines_ignored() {
    let mut b = String::new();
    for i in 0..9 {
        b.push_str(&format!("0.0.0.{} filler.example\n", i));
    }
    b.push_str("# Last update: 2060-06-06\n");
    let r = replace_block("base\n", &b);
    let (present, stamp) = extract_status(&r);
    assert!(present);
    assert_eq!(stamp, "");
}

#[test]
fn source_date_found() {
    let text = "0.0.0.0 a.example\n# Last update: 2030-05-05\nmore\n";
    assert_eq!(source_update_date(text), "Last update: 2030-05-05");
}

#[test]
fn source_date_missing_gives_dash() {
    assert_eq!(source_update_date("no annotation here\nat all\n"), "-");
}

#[test]
fn source_date_found_on_twentieth_line() {
    let mut text = String::new();
    for i in 0..19 {
        text.push_str(&format!("filler {}\n", i));
    }
    text.push_str("# Last update: 2070-07-07\n");
    assert_eq!(source_update_date(&text), "Last update: 2070-07-07");
}

#[test]
fn source_date_beyond_twenty_lines_ignored() {
    let mut text = String::new();
    for i in 0..20 {
        text.push_str(&format!("filler {}\n", i));
    }
    text.push_str("# Last update: 2070-07-07\n");
    assert_eq!(source_update_date(&text), "-");
}

#[test]
fn end_marker_before_start_marker_splices_loosely() {
    // The end-marker search is not anchored after the start marker; this
    // documents the loose splice that results.
    let t = format!("{}\nx\n{}\ny\n", end(), start());
    let b = "0.0.0.0 x.example";
    let r = replace_block(&t, b);
    let expected = format!(
        "{}\nx\nx\n{}\ny\n\n{}\n0.0.0.0 x.example\n{}\n",
        end(),
        start(),
        start(),
        end()
    );
    assert_eq!(r, expected);
}
