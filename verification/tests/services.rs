use minx::config::{ModuleItem, ParamMap};
use minx::services::logger::{next_log_action, Level, LogAction, LogMsg, Logger};
use minx::services::{BuiltinModule, ServiceManager, ServiceModule};

fn params(pairs: &[(&str, &str)]) -> ParamMap {
    let mut m = ParamMap::new();
    for (k, v) in pairs {
        m.insert(k.to_string(), v.to_string());
    }
    m
}

fn item(t: &str, n: &str, pairs: &[(&str, &str)]) -> ModuleItem {
    ModuleItem { m_type: t.to_string(), m_name: n.to_string(), m_param: params(pairs) }
}

#[test]
fn logger_directory_is_normalized() {
    assert_eq!(Logger::new(&params(&[("log_path", "")])).log_path(), "logs/");
    assert_eq!(Logger::new(&params(&[("log_path", "var/log")])).log_path(), "var/log/");
    assert_eq!(Logger::new(&params(&[("log_path", "var/log/")])).log_path(), "var/log/");
    assert_eq!(Logger::new(&params(&[("log_path", "/")])).log_path(), "/");
    assert_eq!(Logger::new(&params(&[("log_path", "日志")])).log_path(), "日志/");
}

#[test]
fn logger_normalization_is_idempotent() {
    for p in ["", "a", "a/", "x/y", "日志"] {
        let once = Logger::new(&params(&[("log_path", p)])).log_path().clone();
        let twice = Logger::new(&params(&[("log_path", once.as_str())])).log_path().clone();
        assert_eq!(once, twice);
        assert!(once.ends_with('/'));
    }
}

#[test]
fn logger_name_is_logger() {
    let l = Logger::new(&params(&[("log_path", "x")]));
    assert_eq!(l.get_name(), "logger");
}

#[test]
fn level_tags_are_variant_names() {
    let all = [Level::TRCE, Level::DEBG, Level::INFO, Level::WARN, Level::EROR, Level::CRIT];
    for l in all {
        assert_eq!(l.tag(), format!("{:?}", l));
    }
}

#[test]
fn log_entry_line_layout() {
    let m = LogMsg::new("http".to_string(), Level::WARN, "port busy".to_string());
    assert_eq!(m.format_entry("20240102-030405"), "[20240102-030405][WARN][http]  port busy\n");
    assert_eq!(m.m_module, "http");
    assert_eq!(m.m_level, Level::WARN);
    assert_eq!(m.m_content, "port busy");
}

#[test]
fn log_file_path_layout() {
    assert_eq!(LogMsg::log_file_path("logs/", "20240102"), "logs/20240102.log");
}

#[test]
fn manager_loads_builtin_logger() {
    let mgr = ServiceManager::new(vec![item("built-in", "logger", &[("log_path", "data")])]);
    match mgr.find("logger") {
        Some(BuiltinModule::Logger(l)) => assert_eq!(l.log_path(), "data/"),
        None => panic!("logger not loaded"),
    }
    assert!(mgr.find("http").is_none());
}

#[test]
fn manager_last_logger_item_wins() {
    let mgr = ServiceManager::new(vec![
        item("built-in", "logger", &[("log_path", "first")]),
        item("plugin", "logger", &[]),
        item("built-in", "logger", &[("log_path", "second/")]),
        item("built-in", "cache", &[]),
    ]);
    match mgr.find("logger") {
        Some(BuiltinModule::Logger(l)) => assert_eq!(l.log_path(), "second/"),
        None => panic!("logger not loaded"),
    }
}

#[test]
fn manager_without_builtin_items_is_empty() {
    let items = vec![item("external", "logger", &[]), item("built-in", "http", &[("port", "1")])];
    assert!(!ServiceManager::is_logger_item(&items[0]));
    assert!(!ServiceManager::is_logger_item(&items[1]));
    let mgr = ServiceManager::new(items);
    assert!(mgr.find("logger").is_none());
    assert!(mgr.find("").is_none());
}

#[test]
fn only_builtin_logger_items_load() {
    assert!(ServiceManager::is_logger_item(&item("built-in", "logger", &[("log_path", "")])));
    assert!(!ServiceManager::is_logger_item(&item("built-in", "Logger", &[])));
    assert!(!ServiceManager::is_logger_item(&item("builtin", "logger", &[])));
    let mgr = ServiceManager::new(vec![item("built-in", "logger", &[("log_path", "")])]);
    assert_eq!(mgr.modules().len(), 1);
}

#[test]
fn builtin_module_reports_its_name() {
    let m = BuiltinModule::Logger(Logger::new(&params(&[("log_path", "")])));
    assert_eq!(m.get_name(), "logger");
}

#[test]
fn log_writer_falls_back_to_create_then_print() {
    assert_eq!(next_log_action(LogAction::OpenForAppend, true), LogAction::WriteEntry);
    assert_eq!(next_log_action(LogAction::OpenForAppend, false), LogAction::CreateFile);
    assert_eq!(next_log_action(LogAction::CreateFile, true), LogAction::WriteEntry);
    assert_eq!(next_log_action(LogAction::CreateFile, false), LogAction::ReportCreateFailure);
    assert_eq!(next_log_action(LogAction::WriteEntry, true), LogAction::Finish);
    assert_eq!(next_log_action(LogAction::WriteEntry, false), LogAction::ReportWriteFailure);
    assert_eq!(next_log_action(LogAction::ReportCreateFailure, true), LogAction::Finish);
    assert_eq!(next_log_action(LogAction::ReportWriteFailure, true), LogAction::Finish);
    assert_eq!(next_log_action(LogAction::Finish, false), LogAction::Finish);
}
