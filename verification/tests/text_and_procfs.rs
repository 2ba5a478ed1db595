use agent_browser_monitor::command::{is_marked_profile, profile, redact, redact_word};
use agent_browser_monitor::procfs::{
    clean_cmdline, cpu_sample, field_value, linux_num, memory_stats, parse_stat, stat_is_readable,
};
use agent_browser_monitor::inventory::{
    inventory_rows, windows_inventory, windows_processes, InventoryRow, JsonDocument, JsonField,
};
use agent_browser_monitor::ps::{parse_ps_line, ps_line_readable};
use agent_browser_monitor::snapshot::{cpu_window, tick_delta, windows_process};
use agent_browser_monitor::number::{parse_i32, parse_u64};
use agent_browser_monitor::text::{char_is_whitespace, trim_whitespace};

#[test]
fn redact_hides_urls_and_secret_arguments() {
    assert_eq!(
        redact("node server.js --token=abc https://example.com/path"),
        "node server.js [redacted-argument] [url]"
    );
}

#[test]
fn redact_is_case_insensitive_for_secrets() {
    assert_eq!(redact("run API_KEY=xyz PassWord=1"), "run [redacted-argument] [redacted-argument]");
}

#[test]
fn redact_url_check_is_case_sensitive() {
    assert_eq!(redact("HTTP://example.com http://x"), "HTTP://example.com [url]");
}

#[test]
fn redact_url_wins_over_secret() {
    assert_eq!(redact("https://a.example/?token=1"), "[url]");
}

#[test]
fn redact_collapses_whitespace() {
    assert_eq!(redact("  a\tb \n c  "), "a b c");
    assert_eq!(redact(""), "");
    assert_eq!(redact(" \t "), "");
}

#[test]
fn redact_splits_on_unicode_whitespace() {
    assert_eq!(redact("a\u{3000}b\u{a0}c"), "a b c");
}

#[test]
fn redact_word_uses_the_given_lowercase_form() {
    assert_eq!(redact_word("X", "token=1"), "[redacted-argument]");
    assert_eq!(redact_word("TOKEN=1", "nothing"), "TOKEN=1");
}

#[test]
fn redact_keeps_the_number_of_words() {
    let s = "chrome --remote-debugging-port=9222 --api-key=1 https://x y";
    assert_eq!(redact(s).split_whitespace().count(), s.split_whitespace().count());
}

#[test]
fn redacted_text_holds_no_url_or_secret() {
    let s = "a https://x http://y --Token=1 key=2 b";
    for w in redact(s).split_whitespace() {
        let l = w.to_lowercase();
        assert!(w == "[url]" || w == "[redacted-argument]" || (!w.starts_with("http://") && !w.starts_with("https://") && !l.contains("token=") && !l.contains("key=")));
    }
}

#[test]
fn profile_finds_agent_browser_profile() {
    assert_eq!(
        profile("chrome --user-data-dir=/tmp/agent-browser-chrome-123 --foo"),
        Some("/tmp/agent-browser-chrome-123".to_string())
    );
}

#[test]
fn profile_strips_quotes_and_accepts_playwright() {
    assert_eq!(
        profile("chrome --user-data-dir=\"/tmp/playwright_chromiumdev_profile-XYZ\" x"),
        Some("/tmp/playwright_chromiumdev_profile-XYZ".to_string())
    );
    assert_eq!(profile("c --user-data-dir=/tmp/PlayWright-abc"), Some("/tmp/PlayWright-abc".to_string()));
}

#[test]
fn profile_rejects_ordinary_or_missing_profiles() {
    assert_eq!(profile("chrome --user-data-dir=/home/me/.config/chrome"), None);
    assert_eq!(profile("chrome --user-data-dir="), None);
    assert_eq!(profile("chrome --user-data-dir=   "), None);
    assert_eq!(profile("chrome"), None);
}

#[test]
fn profile_uses_the_first_flag() {
    assert_eq!(
        profile("c --user-data-dir=/home/x --user-data-dir=/tmp/playwright-1"),
        None
    );
}

#[test]
fn marked_profile_checks_both_forms() {
    assert!(is_marked_profile("/tmp/agent-browser-chrome-1", "whatever"));
    assert!(is_marked_profile("/X", "/tmp/playwright"));
    assert!(!is_marked_profile("/tmp/PLAYWRIGHT", "/tmp/other"));
}

#[test]
fn linux_num_reads_the_second_word() {
    assert_eq!(linux_num(Some("VmRSS:    1234 kB")), 1234);
    assert_eq!(linux_num(Some("MemAvailable:")), 0);
    assert_eq!(linux_num(None), 0);
    assert_eq!(linux_num(Some("x abc")), 0);
    assert_eq!(linux_num(Some("x +5")), 5);
    assert_eq!(linux_num(Some("x -5")), 0);
    assert_eq!(linux_num(Some("x 18446744073709551616")), 0);
}

#[test]
fn field_value_reads_the_first_matching_line() {
    let status = "Name:\tbash\nVmRSS:\t  2048 kB\r\nVmRSS: 1 kB\n";
    assert_eq!(field_value(status, "VmRSS:"), 2048);
    assert_eq!(field_value(status, "VmSwap:"), 0);
    assert_eq!(field_value("", "VmRSS:"), 0);
}

#[test]
fn memory_stats_in_mib() {
    let m = "MemTotal: 1 kB\nMemAvailable: 2048000 kB\nSwapTotal: 4096 kB\nSwapFree: 1024 kB\n";
    assert_eq!(memory_stats(m), (2000, 3));
    let m2 = "MemAvailable: 100 kB\nSwapTotal: 1024 kB\nSwapFree: 4096 kB\n";
    assert_eq!(memory_stats(m2), (0, 0));
}

#[test]
fn cpu_sample_sums_counters() {
    assert_eq!(cpu_sample("cpu  10 20 30 40 50 60\ncpu0 1 2\n"), Some((210, 90)));
    assert_eq!(cpu_sample("cpu 1 2 x 3"), Some((6, 0)));
    assert_eq!(cpu_sample(""), Some((0, 0)));
}

#[test]
fn cpu_sample_reports_overflow() {
    assert_eq!(cpu_sample("cpu 18446744073709551615 1"), None);
}

#[test]
fn cpu_window_needs_progress_and_time() {
    assert_eq!(cpu_window((100, 50), (200, 80), 150), Some((30, 100)));
    assert_eq!(cpu_window((100, 50), (200, 40), 150), Some((0, 100)));
    assert_eq!(cpu_window((100, 50), (200, 80), 99), None);
    assert_eq!(cpu_window((100, 50), (100, 80), 500), None);
    assert_eq!(cpu_window((300, 50), (100, 80), 500), None);
}

#[test]
fn tick_delta_needs_the_same_process() {
    assert_eq!(tick_delta(Some((10, 7)), 25, 7), Some(15));
    assert_eq!(tick_delta(Some((10, 7)), 25, 8), None);
    assert_eq!(tick_delta(None, 25, 7), None);
    assert_eq!(tick_delta(Some((30, 7)), 25, 7), Some(0));
}

#[test]
fn parse_stat_reads_fields_after_the_name() {
    let stat = "1234 (my (proc)) S 1 2 3 4 5 6 7 8 9 10 11 12 13 14 15 16 17 18 19 20";
    assert!(stat_is_readable(stat));
    let f = parse_stat(stat).unwrap();
    assert_eq!(f.state, "S");
    assert_eq!(f.ppid, 1);
    assert_eq!(f.user_ticks, 11);
    assert_eq!(f.system_ticks, 12);
    assert_eq!(f.start_time, 19);
}

#[test]
fn parse_stat_skips_incomplete_lines() {
    assert!(stat_is_readable("no parenthesis"));
    assert!(parse_stat("no parenthesis").is_none());
    assert!(parse_stat("1 (x) S 1 2").is_none());
    assert!(parse_stat("1 (x) S x 2 3 4 5 6 7 8 9 10 11 12 13 14 15 16 17 18 19 20").is_none());
}

#[test]
fn stat_readability() {
    assert!(!stat_is_readable("1 (x)"));
    assert!(!stat_is_readable("1 (x)\u{e9}"));
    assert!(stat_is_readable("1 (x) S"));
}

#[test]
fn clean_cmdline_joins_arguments() {
    assert_eq!(clean_cmdline("node\0server.js\0"), Some("node server.js".to_string()));
    assert_eq!(clean_cmdline("\0\0"), None);
    assert_eq!(clean_cmdline(""), None);
}

#[test]
fn trim_whitespace_trims_both_ends() {
    assert_eq!(trim_whitespace(" bash\n"), "bash");
    assert_eq!(trim_whitespace("\t\n"), "");
}

#[test]
fn ps_line_with_all_columns() {
    let l = "501 1 Ss 01-02:03:04 12345 0.5 chrome /usr/bin/chrome --token=1 https://x";
    assert!(ps_line_readable(l));
    let r = parse_ps_line(l).unwrap();
    assert_eq!(r.pid, 501);
    assert_eq!(r.ppid, 1);
    assert_eq!(r.state, "Ss");
    assert_eq!(r.elapsed_seconds, ((1 * 60 + 2) * 60 + 3) * 60 + 4);
    assert_eq!(r.rss, "12345");
    assert_eq!(r.pcpu, "0.5");
    assert_eq!(r.name, "chrome");
    assert_eq!(r.command, "/usr/bin/chrome [redacted-argument] [url]");
}

#[test]
fn ps_line_without_args_uses_the_name() {
    let r = parse_ps_line("7 1 S 05:06 10 0.0 launchd").unwrap();
    assert_eq!(r.elapsed_seconds, 306);
    assert_eq!(r.command, "launchd");
}

#[test]
fn ps_line_too_short_or_invalid() {
    assert!(parse_ps_line("7 1 S 05:06 10 0.0").is_none());
    assert!(parse_ps_line("x 1 S 05:06 10 0.0 a").is_none());
    assert!(parse_ps_line("").is_none());
    assert!(!ps_line_readable("7 1 S"));
    assert!(ps_line_readable("x 1 S"));
}

#[test]
fn ps_line_with_right_aligned_columns() {
    let l = "  101     1 S    01:02  2048   1.5 chrome chrome --x";
    assert!(ps_line_readable(l));
    let r = parse_ps_line(l).unwrap();
    assert_eq!(r.pid, 101);
    assert_eq!(r.ppid, 1);
    assert_eq!(r.state, "S");
    assert_eq!(r.elapsed_seconds, 62);
    assert_eq!(r.rss, "2048");
    assert_eq!(r.pcpu, "1.5");
    assert_eq!(r.name, "chrome");
    assert_eq!(r.command, "chrome --x");
}

#[test]
fn ps_line_args_keep_their_words_after_padding() {
    let l = "7 1 S 05:06 10 0.0 launchd    /sbin/launchd   -s  ";
    let r = parse_ps_line(l).unwrap();
    assert_eq!(r.name, "launchd");
    assert_eq!(r.command, "/sbin/launchd -s");
    let q = parse_ps_line("  7  1 S 05:06 10 0.0 launchd").unwrap();
    assert_eq!(q.command, "launchd");
}

#[test]
fn ps_line_with_blank_args_shows_an_empty_command() {
    let r = parse_ps_line("1 0 S 00:01 12 0.0 cmd   ").unwrap();
    assert_eq!(r.name, "cmd");
    assert_eq!(r.command, "");
    let q = parse_ps_line("1 0 S 00:01 12 0.0 cmd ").unwrap();
    assert_eq!(q.command, "cmd");
}

#[test]
fn windows_process_defaults() {
    let p = windows_process(4294967297, Some(-1), Some("chrome.exe".to_string()), None);
    assert_eq!(p.pid, 1);
    assert_eq!(p.ppid, -1);
    assert_eq!(p.name, "chrome.exe");
    assert_eq!(p.state, "Running");
    assert_eq!(p.command, "chrome.exe");
    assert_eq!(p.elapsed_seconds, 0);
    let q = windows_process(5, None, None, Some("x --password=1".to_string()));
    assert_eq!(q.ppid, 0);
    assert_eq!(q.name, "");
    assert_eq!(q.command, "x [redacted-argument]");
}

#[test]
fn windows_inventory_reads_an_array() {
    let json = br#"[{"ProcessId":4,"ParentProcessId":0,"Name":"System","CommandLine":null,"WorkingSetSize":1048576},{"ProcessId":900,"ParentProcessId":4,"Name":"chrome.exe","CommandLine":"chrome.exe --api-key=1 https://x","WorkingSetSize":2097152.5},{"Name":"no pid"}]"#;
    let r = windows_inventory(json);
    assert_eq!(r.len(), 2);
    assert_eq!(r[0].0.pid, 4);
    assert_eq!(r[0].0.ppid, 0);
    assert_eq!(r[0].0.name, "System");
    assert_eq!(r[0].0.command, "System");
    assert_eq!(r[0].1.as_deref(), Some("1048576"));
    assert_eq!(r[1].0.pid, 900);
    assert_eq!(r[1].0.ppid, 4);
    assert_eq!(r[1].0.command, "chrome.exe [redacted-argument] [url]");
    assert_eq!(r[1].1.as_deref(), Some("2097152.5"));
}

#[test]
fn windows_inventory_reads_a_single_object() {
    let r = windows_inventory(br#"{"ProcessId":7,"Name":"a.exe","WorkingSetSize":"big"}"#);
    assert_eq!(r.len(), 1);
    assert_eq!(r[0].0.pid, 7);
    assert_eq!(r[0].0.ppid, 0);
    assert_eq!(r[0].0.state, "Running");
    assert_eq!(r[0].1, None);
}

#[test]
fn windows_inventory_without_valid_json_is_empty() {
    assert!(windows_inventory(b"").is_empty());
    assert!(windows_inventory(b"not json").is_empty());
    assert!(windows_inventory(b"42").is_empty());
    assert!(windows_inventory(br#"[{"ProcessId":"5"}, 3]"#).is_empty());
}

#[test]
fn windows_processes_keep_rows_with_a_pid_in_order() {
    let rows = vec![
        InventoryRow { pid: None, ppid: Some(1), name: Some("x".to_string()), command_line: None, working_set: None },
        InventoryRow { pid: Some(12), ppid: None, name: None, command_line: Some("run --token=a".to_string()), working_set: Some("10".to_string()) },
        InventoryRow { pid: Some(11), ppid: Some(12), name: Some("b".to_string()), command_line: None, working_set: None },
    ];
    let r = windows_processes(&rows);
    assert_eq!(r.len(), 2);
    assert_eq!(r[0].0.pid, 12);
    assert_eq!(r[0].0.name, "");
    assert_eq!(r[0].0.command, "run [redacted-argument]");
    assert_eq!(r[0].1.as_deref(), Some("10"));
    assert_eq!(r[1].0.pid, 11);
    assert_eq!(r[1].0.ppid, 12);
    assert_eq!(r[1].0.command, "b");
}

#[test]
fn redaction_of_shown_text_is_settled() {
    let once = redact("a https://x --Password=p http://y b");
    assert_eq!(once, "a [url] [redacted-argument] [url] b");
    assert_eq!(redact(&once), once);
}

#[test]
fn numbers_read_as_std_parses_them() {
    let cases = [
        "", "+", "-", "0", "+5", "-5", "007", "1a", " 1", "18446744073709551615",
        "18446744073709551616", "2147483647", "2147483648", "-2147483648", "-2147483649", "-0",
        "+-1", "\u{0661}", "99999999999999999999999",
    ];
    for c in cases {
        assert_eq!(parse_u64(c), c.parse::<u64>().ok(), "u64 {c:?}");
        assert_eq!(parse_i32(c), c.parse::<i32>().ok(), "i32 {c:?}");
    }
    assert_eq!(parse_i32("-2147483648"), Some(i32::MIN));
    assert_eq!(parse_u64("+18446744073709551615"), Some(u64::MAX));
}

#[test]
fn whitespace_is_what_std_calls_whitespace() {
    for u in 0u32..0x3100 {
        if let Some(c) = char::from_u32(u) {
            assert_eq!(char_is_whitespace(c), c.is_whitespace(), "{u:#x}");
        }
    }
    assert!(!char_is_whitespace('\u{200B}'));
    assert!(!char_is_whitespace('\u{FEFF}'));
}

#[test]
fn inventory_rows_follow_the_document_shape() {
    let one = JsonDocument::Object(vec![
        ("Name".to_string(), JsonField::Text("a.exe".to_string())),
        ("ProcessId".to_string(), JsonField::Number(Some(5), "5".to_string())),
        ("WorkingSetSize".to_string(), JsonField::Number(None, "1.5e3".to_string())),
    ]);
    let r = inventory_rows(&one);
    assert_eq!(r.len(), 1);
    assert_eq!(r[0].pid, Some(5));
    assert_eq!(r[0].ppid, None);
    assert_eq!(r[0].name.as_deref(), Some("a.exe"));
    assert_eq!(r[0].command_line, None);
    assert_eq!(r[0].working_set.as_deref(), Some("1.5e3"));

    let many = JsonDocument::Array(vec![
        None,
        Some(vec![
            ("CommandLine".to_string(), JsonField::Other),
            ("ParentProcessId".to_string(), JsonField::Number(Some(-3), "-3".to_string())),
            ("ProcessId".to_string(), JsonField::Text("6".to_string())),
        ]),
    ]);
    let r = inventory_rows(&many);
    assert_eq!(r.len(), 2);
    assert_eq!(r[0].pid, None);
    assert_eq!(r[0].name, None);
    assert_eq!(r[1].pid, None);
    assert_eq!(r[1].ppid, Some(-3));
    assert_eq!(r[1].command_line, None);

    assert!(inventory_rows(&JsonDocument::Other).is_empty());
}

#[test]
fn windows_inventory_reads_a_lone_object_with_only_a_pid() {
    let r = windows_inventory(br#"{"ProcessId":5}"#);
    assert_eq!(r.len(), 1);
    assert_eq!(r[0].0.pid, 5);
    assert_eq!(r[0].0.name, "");
    assert_eq!(r[0].0.command, "");
    assert_eq!(r[0].1, None);
}
