use top_helper::activation::{activation_target_folded, extract_program_name};
use top_helper::envinfo::{get_window_info_for_process, is_relevant_env_var, WindowProbeError};
use top_helper::text::{contains_sub, parse_u32, split_whitespace, str_eq, trim};
use top_helper::window::{
    list_all_windows, parse_pid_output, parse_window_ids, parse_window_listing, parse_wm_class,
    BackendOutcome, WindowInfo,
};

fn win(id: &str, title: &str, class: &str, pid: u32) -> WindowInfo {
    WindowInfo {
        window_id: id.to_string(),
        title: title.to_string(),
        class: class.to_string(),
        pid,
    }
}

#[test]
fn parse_u32_accepts_decimals_with_optional_plus() {
    assert_eq!(parse_u32("0"), Some(0));
    assert_eq!(parse_u32("123"), Some(123));
    assert_eq!(parse_u32("+123"), Some(123));
    assert_eq!(parse_u32("4294967295"), Some(u32::MAX));
    assert_eq!(parse_u32("4294967296"), None);
    assert_eq!(parse_u32("99999999999999999999"), None);
    assert_eq!(parse_u32(""), None);
    assert_eq!(parse_u32("+"), None);
    assert_eq!(parse_u32("++1"), None);
    assert_eq!(parse_u32("12a"), None);
    assert_eq!(parse_u32("-1"), None);
    assert_eq!(parse_u32(" 5"), None);
}

#[test]
fn trim_strips_surrounding_whitespace_only() {
    assert_eq!(trim("  a b \n"), "a b");
    assert_eq!(trim("\t\r\n "), "");
    assert_eq!(trim("plain"), "plain");
    assert_eq!(trim("\u{00A0}x\u{3000}"), "x");
}

#[test]
fn split_whitespace_collapses_runs() {
    assert_eq!(split_whitespace("a  b\tc"), vec!["a", "b", "c"]);
    assert_eq!(split_whitespace("a\u{2003}b"), vec!["a", "b"]);
    assert!(split_whitespace("").is_empty());
    assert!(split_whitespace("  \t ").is_empty());
}

#[test]
fn str_eq_and_contains() {
    assert!(str_eq("abc", "abc"));
    assert!(!str_eq("abc", "abd"));
    assert!(!str_eq("abc", "ab"));
    assert!(contains_sub("visual studio code", "studio"));
    assert!(contains_sub("anything", ""));
    assert!(!contains_sub("short", "longer needle"));
}

#[test]
fn window_ids_one_per_line_trimmed() {
    let ids = parse_window_ids("0x1\n\n  0x2 \n");
    assert_eq!(ids, vec!["0x1", "0x2"]);
    assert!(parse_window_ids("").is_empty());
}

#[test]
fn pid_output_is_trimmed_decimal() {
    assert_eq!(parse_pid_output(" 1234\n"), Some(1234));
    assert_eq!(parse_pid_output("abc"), None);
    assert_eq!(parse_pid_output(""), None);
}

#[test]
fn wm_class_takes_second_quoted_field() {
    let out = "WM_CLASS(STRING) = \"google-chrome\", \"Google-chrome\"";
    assert_eq!(parse_wm_class(out), "Google-chrome");
    assert_eq!(parse_wm_class("no quotes here"), "Unknown");
    assert_eq!(parse_wm_class("only \"one\" pair"), "Unknown");
}

#[test]
fn window_listing_skips_malformed_lines() {
    let out = "0x01 0 1234 host My Window Title\ngarbage\n0x02 1 notapid host x\n0x03 2 999 host2\n";
    let ws = parse_window_listing(out);
    assert_eq!(ws.len(), 2);
    assert_eq!(ws[0].window_id, "0x01");
    assert_eq!(ws[0].pid, 1234);
    assert_eq!(ws[0].title, "host My Window Title");
    assert_eq!(ws[0].class, "Unknown");
    assert_eq!(ws[1].window_id, "0x03");
    assert_eq!(ws[1].pid, 999);
    assert_eq!(ws[1].title, "host2");
}

#[test]
fn listing_title_rejoins_with_single_spaces() {
    let ws = parse_window_listing("0x1 0 5 host  spaced   out  title\n");
    assert_eq!(ws.len(), 1);
    assert_eq!(ws[0].title, "host spaced out title");
}

#[test]
fn list_all_prefers_non_empty_primary() {
    let a = BackendOutcome::Available(vec![win("0x1", "t", "c", 1)]);
    let b = BackendOutcome::Available(vec![win("0x2", "u", "d", 2)]);
    let r = list_all_windows(&a, &b);
    assert_eq!(r.len(), 1);
    assert_eq!(r[0].window_id, "0x1");

    let empty = BackendOutcome::Available(vec![]);
    let r2 = list_all_windows(&empty, &b);
    assert_eq!(r2.len(), 1);
    assert_eq!(r2[0].window_id, "0x2");

    let down = BackendOutcome::Unavailable;
    let r3 = list_all_windows(&down, &BackendOutcome::Unavailable);
    assert!(r3.is_empty());
}

#[test]
fn activation_table_scenarios() {
    let m = extract_program_name(&win("0x1", "x", "code", 1));
    assert_eq!(m, "code");
    let m2 = extract_program_name(&win("0x1", "Mozilla Firefox", "unknown-app", 1));
    assert_eq!(m2, "firefox");
    let m3 = extract_program_name(&win("0x1", "random", "xyz", 1));
    assert_eq!(m3, "xyz");
}

#[test]
fn activation_class_table_is_case_insensitive() {
    assert_eq!(extract_program_name(&win("0x1", "t", "Google-chrome", 1)), "chrome");
    assert_eq!(extract_program_name(&win("0x1", "t", "VSCODE", 1)), "code");
    assert_eq!(extract_program_name(&win("0x1", "t", "Gnome-Terminal", 1)), "terminal");
    assert_eq!(extract_program_name(&win("0x1", "Visual Studio Code - x", "Wrapper", 1)), "code");
    assert_eq!(extract_program_name(&win("0x1", "t", "Nautilus", 1)), "nautilus");
}

#[test]
fn activation_folded_fallback_is_class_verbatim() {
    assert_eq!(activation_target_folded("someclass", "sometitle"), "someclass");
    assert_eq!(activation_target_folded("firefox", "x"), "firefox");
    assert_eq!(activation_target_folded("other", "has chrome inside"), "chrome");
}

#[test]
fn display_probe_reports_protocol_in_order() {
    let both = vec![
        ("DISPLAY".to_string(), ":0".to_string()),
        ("WAYLAND_DISPLAY".to_string(), "wayland-0".to_string()),
    ];
    assert_eq!(get_window_info_for_process(1, &both), Err(WindowProbeError::X11Unsupported));
    let wayland = vec![("WAYLAND_DISPLAY".to_string(), "wayland-0".to_string())];
    assert_eq!(get_window_info_for_process(1, &wayland), Err(WindowProbeError::WaylandUnsupported));
    let none = vec![("PATH".to_string(), "/bin".to_string())];
    assert_eq!(get_window_info_for_process(1, &none), Err(WindowProbeError::NoDisplay));
}

#[test]
fn relevant_env_vars() {
    assert!(is_relevant_env_var("DISPLAY"));
    assert!(is_relevant_env_var("WAYLAND_DISPLAY"));
    assert!(is_relevant_env_var("VSCODE_PID"));
    assert!(is_relevant_env_var("XTERM_VERSION"));
    assert!(!is_relevant_env_var("PATH"));
    assert!(!is_relevant_env_var("display"));
}
