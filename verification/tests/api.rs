use gugu_guard::api::{
    api_res, batch_order, batch_response, batch_result, browse_listing, clean_path, constant_time_eq,
    default_lines, download_disposition, group_members, health_message, is_authorized, kept_subscriptions,
    list_groups, missing_subscriptions, not_found_reply, operation_reply, process_stats, render_log_download,
    sort_entries, static_file_path, str_less, strip_prefix_str, ApiError, FsEntry, GroupAction, Operation, ReplyBody,
};
use gugu_guard::error::GuguError;
use gugu_guard::process::{LogEntry, LogStream, ProcessInfo, ProcessStatus};

fn info(name: &str, status: ProcessStatus, group: Option<&str>) -> ProcessInfo {
    ProcessInfo {
        name: name.to_string(),
        command: "echo".to_string(),
        args: Vec::new(),
        status,
        pid: None,
        restart_count: 0,
        auto_start: true,
        auto_restart: true,
        has_health_check: false,
        unhealthy_restart: false,
        healthy: None,
        started_at: None,
        uptime_secs: None,
        group: group.map(String::from),
    }
}

#[test]
fn error_body_carries_its_message() {
    assert_eq!(ApiError::new("进程未找到").error, "进程未找到");
}

#[test]
fn log_requests_default_to_a_hundred_lines() {
    assert_eq!(default_lines(), 100);
}

#[test]
fn constant_time_comparison_is_equality() {
    assert!(constant_time_eq("secret", "secret"));
    assert!(!constant_time_eq("secret", "secreT"));
    assert!(!constant_time_eq("secret", "secre"));
    assert!(!constant_time_eq("", "x"));
    assert!(constant_time_eq("", ""));
    assert!(constant_time_eq("密钥", "密钥"));
    assert!(!constant_time_eq("密钥", "密码"));
}

#[test]
fn without_a_key_every_request_passes() {
    assert!(is_authorized(None, None, None));
    assert!(is_authorized(Some(""), None, None));
    assert!(is_authorized(Some(""), Some("Bearer wrong"), Some("token=wrong")));
}

#[test]
fn bearer_token_must_match_the_key() {
    assert!(is_authorized(Some("k1"), Some("Bearer k1"), None));
    assert!(!is_authorized(Some("k1"), Some("Bearer k2"), None));
    assert!(!is_authorized(Some("k1"), Some("k1"), None));
    assert!(!is_authorized(Some("k1"), Some("bearer k1"), None));
    assert!(!is_authorized(Some("k1"), None, None));
}

#[test]
fn token_query_pair_is_accepted() {
    assert!(is_authorized(Some("k1"), None, Some("token=k1")));
    assert!(is_authorized(Some("k1"), None, Some("a=1&token=k1")));
    assert!(is_authorized(Some("k1"), None, Some("token=k1&b=2")));
    assert!(!is_authorized(Some("k1"), None, Some("token=k11")));
    assert!(!is_authorized(Some("k1"), None, Some("xtoken=k1")));
    assert!(!is_authorized(Some("k1"), Some("Bearer no"), Some("token=no")));
}

#[test]
fn prefix_is_stripped_only_when_present() {
    assert_eq!(strip_prefix_str("Bearer abc", "Bearer "), Some("abc".to_string()));
    assert_eq!(strip_prefix_str("Bear", "Bearer "), None);
    assert_eq!(strip_prefix_str("token=", "token="), Some(String::new()));
}

#[test]
fn stats_count_each_status() {
    let ps = vec![
        info("a", ProcessStatus::Running, None),
        info("b", ProcessStatus::Stopped, None),
        info("c", ProcessStatus::Failed("x".to_string()), None),
        info("d", ProcessStatus::Running, None),
        info("e", ProcessStatus::Starting, None),
    ];
    let s = process_stats(&ps);
    assert_eq!((s.total, s.running, s.stopped, s.failed), (5, 2, 1, 1));
}

#[test]
fn dictionary_order_of_texts() {
    assert!(str_less("a", "b"));
    assert!(str_less("ab", "abc"));
    assert!(!str_less("abc", "ab"));
    assert!(!str_less("x", "x"));
    assert!(str_less("Z", "a"));
}

#[test]
fn groups_are_sorted_and_list_their_members() {
    let ps = vec![
        info("w1", ProcessStatus::Stopped, Some("web")),
        info("d1", ProcessStatus::Stopped, Some("db")),
        info("lone", ProcessStatus::Stopped, None),
        info("w2", ProcessStatus::Running, Some("web")),
    ];
    let groups = list_groups(&ps);
    assert_eq!(groups.len(), 2);
    assert_eq!(groups[0].name, "db");
    assert_eq!(groups[0].processes, vec!["d1"]);
    assert_eq!(groups[1].name, "web");
    assert_eq!(groups[1].processes, vec!["w1", "w2"]);
    assert!(list_groups(&[info("x", ProcessStatus::Stopped, None)]).is_empty());
}

#[test]
fn group_members_keep_the_process_order() {
    let ps = vec![
        info("b", ProcessStatus::Stopped, Some("g")),
        info("a", ProcessStatus::Stopped, Some("g")),
        info("c", ProcessStatus::Stopped, Some("h")),
    ];
    assert_eq!(group_members(&ps, "g"), vec!["b", "a"]);
    assert!(group_members(&ps, "nope").is_empty());
}

#[test]
fn stopping_a_group_goes_backwards() {
    let members = vec!["a".to_string(), "b".to_string(), "c".to_string()];
    assert_eq!(batch_order(members.clone(), GroupAction::Stop), vec!["c", "b", "a"]);
    assert_eq!(batch_order(members.clone(), GroupAction::Start), vec!["a", "b", "c"]);
    assert_eq!(batch_order(members, GroupAction::Restart), vec!["a", "b", "c"]);
}

#[test]
fn batch_answer_counts_outcomes() {
    let ok: Result<(), GuguError> = Ok(());
    let bad: Result<(), GuguError> = Err(GuguError::NotRunning("b".to_string()));
    let results = vec![batch_result("a", &ok), batch_result("b", &bad)];
    assert!(results[0].error.is_none());
    assert_eq!(results[1].error.as_deref(), Some("进程 'b' 未运行"));
    let r = batch_response("web", GroupAction::Stop, results);
    assert_eq!(r.message, "进程组 'web' 停止完成");
    assert_eq!((r.total, r.succeeded, r.failed), (2, 1, 1));
    let r = batch_response("web", GroupAction::Start, Vec::new());
    assert_eq!(r.message, "进程组 'web' 启动完成");
    let r = batch_response("web", GroupAction::Restart, Vec::new());
    assert_eq!(r.message, "进程组 'web' 重启完成");
}

#[test]
fn downloaded_log_has_one_line_per_entry() {
    let entries = vec![
        LogEntry { timestamp: 0, stream: LogStream::Stdout, line: "hello".to_string(), process_name: None },
        LogEntry { timestamp: 1_500_000, stream: LogStream::Stderr, line: "oops".to_string(), process_name: None },
    ];
    assert_eq!(
        render_log_download(&entries),
        "[1970-01-01 00:00:00.000] [OUT] hello\n[1970-01-01 00:00:01.500] [ERR] oops\n"
    );
    assert_eq!(render_log_download(&[]), "");
}

#[test]
fn download_is_named_after_the_process() {
    assert_eq!(download_disposition("web"), "attachment; filename=\"web.log\"");
}

#[test]
fn health_messages() {
    assert_eq!(health_message(true), "健康检查通过");
    assert_eq!(health_message(false), "健康检查失败");
}

#[test]
fn browser_paths_are_cleaned() {
    assert_eq!(clean_path(r"\\?\C:\Users\me"), "C:/Users/me");
    assert_eq!(clean_path(r"\\?\UNC\srv\share"), "//srv/share");
    assert_eq!(clean_path("/home/me"), "/home/me");
}

fn entry(name: &str, is_dir: bool) -> FsEntry {
    FsEntry { name: name.to_string(), path: format!("/x/{name}"), is_dir }
}

#[test]
fn directories_come_first_then_names_ignoring_case() {
    let sorted = sort_entries(vec![
        entry("b.txt", false),
        entry("src", true),
        entry("A.md", false),
        entry("Docs", true),
        entry("a.md", false),
    ]);
    let names: Vec<&str> = sorted.iter().map(|e| e.name.as_str()).collect();
    assert_eq!(names, vec!["Docs", "src", "A.md", "a.md", "b.txt"]);
}

#[test]
fn names_equal_but_for_case_keep_their_order() {
    let sorted = sort_entries(vec![entry("readme", false), entry("README", false)]);
    assert_eq!(sorted[0].name, "readme");
    assert_eq!(sorted[1].name, "README");
}

#[test]
fn listing_cleans_paths_and_sorts() {
    let found = vec![("f.txt".to_string(), false), ("sub".to_string(), true)];
    let r = browse_listing("/tmp/base", found);
    assert_eq!(r.path, "/tmp/base");
    assert_eq!(r.parent.as_deref(), Some("/tmp"));
    assert_eq!(r.entries[0].name, "sub");
    assert!(r.entries[0].is_dir);
    assert_eq!(r.entries[0].path, "/tmp/base/sub");
    assert_eq!(r.entries[1].path, "/tmp/base/f.txt");
    assert!(browse_listing("/", Vec::new()).parent.is_none());
}

#[test]
fn operation_replies() {
    let ok: Result<(), GuguError> = Ok(());
    let r = operation_reply(Operation::Create, &ok);
    assert_eq!(r.status, 201);
    assert!(matches!(r.body, ReplyBody::Success(ref s) if s.message == "进程已添加"));
    let missing: Result<(), GuguError> = Err(GuguError::ProcessNotFound("x".to_string()));
    let r = operation_reply(Operation::Delete, &missing);
    assert_eq!(r.status, 404);
    assert!(matches!(r.body, ReplyBody::Failure(ref f) if f.error == "进程 'x' 未找到"));
    let r = operation_reply(Operation::Start, &missing);
    assert_eq!(r.status, 400);
    let r = operation_reply(Operation::Reload, &Err(GuguError::ConfigError("未配置配置文件路径".to_string())));
    assert_eq!(r.status, 500);
    assert!(matches!(r.body, ReplyBody::Failure(ref f) if f.error == "配置错误: 未配置配置文件路径"));
    let r = operation_reply(Operation::ClearLogs, &ok);
    assert_eq!(r.status, 200);
    assert!(matches!(r.body, ReplyBody::Success(ref s) if s.message == "日志已清空"));
}

#[test]
fn plain_reply_uses_the_given_status() {
    let r = api_res(&Ok(()), "done", 418);
    assert_eq!(r.status, 200);
    let r = api_res(&Err(GuguError::Unauthorized), "done", 418);
    assert_eq!(r.status, 418);
    assert!(matches!(r.body, ReplyBody::Failure(ref f) if f.error == "未授权: 无效或缺失 API Key"));
}

#[test]
fn unknown_names_are_not_found() {
    let r = not_found_reply(false);
    assert_eq!(r.status, 404);
    assert!(matches!(r.body, ReplyBody::Failure(ref f) if f.error == "进程未找到"));
    assert!(matches!(not_found_reply(true).body, ReplyBody::Failure(ref f) if f.error == "进程组未找到"));
}

#[test]
fn subscriptions_follow_the_process_list() {
    let subscribed = vec!["a".to_string(), "gone".to_string()];
    let current = vec!["a".to_string(), "b".to_string(), "c".to_string()];
    assert_eq!(kept_subscriptions(&subscribed, &current), vec![true, false]);
    assert_eq!(missing_subscriptions(&subscribed, &current), vec!["b", "c"]);
}

#[test]
fn names_are_compared_in_lower_case() {
    let sorted = sort_entries(vec![entry("Zeta", false), entry("alpha", false)]);
    assert_eq!(sorted[0].name, "alpha");
    assert_eq!(sorted[1].name, "Zeta");
}

#[test]
fn front_end_paths_default_to_the_index() {
    assert_eq!(static_file_path("/"), "index.html");
    assert_eq!(static_file_path(""), "index.html");
    assert_eq!(static_file_path("//assets/app.js"), "assets/app.js");
    assert_eq!(static_file_path("/favicon.ico"), "favicon.ico");
}
