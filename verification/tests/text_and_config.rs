use minx::config::{config_path, ModuleItem, ParamMap};
use minx::text::{i64_to_decimal, parse_i32, str_eq, u64_to_decimal};

#[test]
fn parse_i32_accepts_signed_decimal() {
    assert_eq!(parse_i32("8080"), Some(8080));
    assert_eq!(parse_i32("+12"), Some(12));
    assert_eq!(parse_i32("-7"), Some(-7));
    assert_eq!(parse_i32("007"), Some(7));
    assert_eq!(parse_i32("2147483647"), Some(i32::MAX));
    assert_eq!(parse_i32("-2147483648"), Some(i32::MIN));
}

#[test]
fn parse_i32_rejects_what_std_rejects() {
    for text in ["", "-", "+", "2147483648", "-2147483649", "12a", " 1", "1 ", "--1", "99999999999999999999", "٣"] {
        assert_eq!(parse_i32(text), None, "{:?}", text);
        assert_eq!(text.parse::<i32>().ok(), None, "{:?}", text);
    }
}

#[test]
fn parse_i32_agrees_with_std() {
    for text in ["0", "-0", "+0", "42", "-42", "2147483647", "-2147483648", "000123"] {
        assert_eq!(parse_i32(text), text.parse::<i32>().ok(), "{:?}", text);
    }
}

#[test]
fn decimal_rendering_matches_display() {
    for n in [0i64, 5, -5, 10, 1234567890, i64::MAX, i64::MIN, -1] {
        assert_eq!(i64_to_decimal(n), n.to_string());
    }
    assert_eq!(u64_to_decimal(u64::MAX), u64::MAX.to_string());
    assert_eq!(u64_to_decimal(9), "9");
}

#[test]
fn render_then_parse_round_trips() {
    for n in [0i32, 1, -1, 80, 8080, i32::MAX, i32::MIN] {
        assert_eq!(parse_i32(&i64_to_decimal(n as i64)), Some(n));
    }
}

#[test]
fn str_eq_compares_characters() {
    assert!(str_eq("logger", "logger"));
    assert!(!str_eq("logger", "logge"));
    assert!(!str_eq("logger", "Logger"));
    assert!(str_eq("", ""));
    assert!(str_eq("黑风", "黑风"));
}

fn args(list: &[&str]) -> Vec<String> {
    list.iter().map(|s| s.to_string()).collect()
}

#[test]
fn config_path_takes_argument_after_flag() {
    assert_eq!(config_path(&args(&["minx", "-f", "cfg.json"])), Some("cfg.json".to_string()));
    assert_eq!(config_path(&args(&["minx", "-f", "cfg.json", "extra"])), Some("cfg.json".to_string()));
}

#[test]
fn config_path_requires_flag_first() {
    assert_eq!(config_path(&args(&["minx"])), None);
    assert_eq!(config_path(&args(&["minx", "-f"])), None);
    assert_eq!(config_path(&args(&["minx", "-g", "cfg.json"])), None);
    assert_eq!(config_path(&args(&["minx", "cfg.json", "-f"])), None);
    assert_eq!(config_path(&args(&[])), None);
}

#[test]
fn param_map_read_gives_back_write() {
    let mut m = ParamMap::new();
    assert_eq!(m.get("port"), None);
    assert!(!m.contains_key("port"));
    m.insert("port".to_string(), "8080".to_string());
    m.insert("log_path".to_string(), "logs".to_string());
    assert_eq!(m.get("port"), Some(&"8080".to_string()));
    assert!(m.contains_key("log_path"));
    m.insert("port".to_string(), "9090".to_string());
    assert_eq!(m.get("port"), Some(&"9090".to_string()));
    assert_eq!(m.get("log_path"), Some(&"logs".to_string()));
    assert_eq!(m.get("other"), None);
}

#[test]
fn module_item_holds_its_parameters() {
    let mut p = ParamMap::new();
    p.insert("log_path".to_string(), "var/log".to_string());
    let item = ModuleItem { m_type: "built-in".to_string(), m_name: "logger".to_string(), m_param: p };
    assert_eq!(item.m_param.get("log_path"), Some(&"var/log".to_string()));
}
