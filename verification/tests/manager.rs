use gugu_guard::config::ProcessConfig;
use gugu_guard::manager::topological_sort;
use gugu_guard::strmap::StrMap;

fn test_config() -> ProcessConfig {
    ProcessConfig {
        command: "echo".to_string(),
        args: Vec::new(),
        working_dir: None,
        env: StrMap::new(),
        auto_start: false,
        auto_restart: true,
        max_restarts: 3,
        restart_delay_secs: 5,
        stop_command: None,
        stop_timeout_secs: 10,
        health_check: None,
        unhealthy_restart: false,
        depends_on: Vec::new(),
        group: None,
        max_log_size_mb: None,
        stdout_log: None,
        stderr_log: None,
    }
}

fn make_proc(name: &str, depends_on: Vec<&str>) -> (String, ProcessConfig) {
    let mut config = test_config();
    config.command = format!("run_{name}");
    config.depends_on = depends_on.into_iter().map(String::from).collect();
    (name.to_string(), config)
}

fn map_of(items: Vec<(String, ProcessConfig)>) -> StrMap<ProcessConfig> {
    let mut map = StrMap::new();
    for (k, v) in items {
        map.insert(k, v);
    }
    map
}

#[test]
fn returns_all_names_when_no_deps() {
    let map = map_of(vec![make_proc("a", vec![]), make_proc("b", vec![]), make_proc("c", vec![])]);

    let result = topological_sort(&map).unwrap();
    assert_eq!(result.len(), 3, "应有 3 个进程，实际: {result:?}");
}

#[test]
fn respects_linear_chain_order() {
    let map = map_of(vec![make_proc("a", vec![]), make_proc("b", vec!["a"]), make_proc("c", vec!["b"])]);

    let result = topological_sort(&map).unwrap();
    assert!(
        result.iter().position(|n| n == "a").unwrap() < result.iter().position(|n| n == "b").unwrap(),
        "a 应排在 b 之前，实际顺序: {result:?}"
    );
    assert!(
        result.iter().position(|n| n == "b").unwrap() < result.iter().position(|n| n == "c").unwrap(),
        "b 应排在 c 之前，实际顺序: {result:?}"
    );
}

#[test]
fn respects_diamond_dependency_order() {
    let map = map_of(vec![
        make_proc("a", vec![]),
        make_proc("b", vec!["a"]),
        make_proc("c", vec!["a"]),
        make_proc("d", vec!["b", "c"]),
    ]);

    let result = topological_sort(&map).unwrap();
    let pos = |name: &str| result.iter().position(|n| n == name).unwrap();
    assert!(pos("a") < pos("b"), "a 应在 b 之前");
    assert!(pos("a") < pos("c"), "a 应在 c 之前");
    assert!(pos("b") < pos("d"), "b 应在 d 之前");
    assert!(pos("c") < pos("d"), "c 应在 d 之前");
}

#[test]
fn detects_cycle() {
    let map = map_of(vec![make_proc("a", vec!["b"]), make_proc("b", vec!["c"]), make_proc("c", vec!["a"])]);

    let err = topological_sort(&map).unwrap_err();
    assert!(err.to_string().contains("循环依赖"), "应包含循环依赖描述，实际: {err:?}");
}

#[test]
fn ignores_missing_dependency() {
    let map = map_of(vec![make_proc("a", vec!["nonexistent"])]);

    let result = topological_sort(&map).unwrap();
    assert_eq!(result, vec!["a"]);
}

#[test]
fn detects_self_cycle() {
    let map = map_of(vec![make_proc("a", vec!["a"])]);

    assert!(topological_sort(&map).is_err(), "自依赖应被视为循环");
}

#[test]
fn returns_empty_for_empty_input() {
    let map: StrMap<ProcessConfig> = StrMap::new();
    let result = topological_sort(&map).unwrap();
    assert!(result.is_empty(), "空输入应返回空结果");
}
