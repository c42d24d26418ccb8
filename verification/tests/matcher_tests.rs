use loglog::config::{Category, Child, ConfigError, LogConfig, MsgRule};
use loglog::matcher::{LogMatcher, MatchResult, MatchStats, AC_THRESHOLD};

fn strings(v: &[&str]) -> Vec<String> {
    v.iter().map(|s| s.to_string()).collect()
}

fn keys_rule(keys: &[&str], ignores: &[&str], mean: &str, level: &str) -> MsgRule {
    MsgRule {
        keys: strings(keys),
        ignores: strings(ignores),
        mean: mean.to_string(),
        regex: None,
        level: level.to_string(),
        compiled_regex: None,
    }
}

fn regex_rule(regex: &str, keys: &[&str], mean: &str, level: &str) -> MsgRule {
    MsgRule {
        keys: strings(keys),
        ignores: Vec::new(),
        mean: mean.to_string(),
        regex: Some(regex.to_string()),
        level: level.to_string(),
        compiled_regex: None,
    }
}

fn child(name: &str, tag: &str, msgs: Vec<MsgRule>) -> Child {
    Child { name: name.to_string(), tag: tag.to_string(), msgs }
}

fn bluetooth_config() -> LogConfig {
    let mut config = LogConfig {
        categories: vec![
            Category {
                app: "蓝牙".to_string(),
                children: vec![child(
                    "bt_btm",
                    "bt_btm",
                    vec![
                        keys_rule(&["start_btm", "init_bt"], &["error"], "蓝牙启动", "i"),
                        regex_rule(r"BT_ERR(?P<code>\d+):\s*(?P<desc>.*)", &["never"], "蓝牙错误", "e"),
                        keys_rule(&["connect", "fail"], &["success"], "蓝牙连接失败", "e"),
                    ],
                )],
            },
            Category {
                app: "WIFI".to_string(),
                children: vec![
                    child("wlog", "WLog", vec![keys_rule(&["scan"], &[], "扫描", "d")]),
                    child("wlog2", "WLog", vec![keys_rule(&[], &[], "任意", "i")]),
                ],
            },
        ],
        raw_content: String::new(),
    };
    assert!(config.compile_regexes().is_ok());
    config
}

#[test]
fn keys_and_ignores_decide_a_keyword_rule() {
    let matcher = LogMatcher::new(bluetooth_config());
    let r = matcher.match_line("bt_btm: start_btm init_bt error", 3);
    // the ignore word "error" rules the first rule out, and nothing else matches
    assert!(r.is_none());
    let r = matcher.match_line("bt_btm: connect fail", 4).unwrap();
    assert_eq!(r.line_number, 4);
    assert_eq!(r.line, "bt_btm: connect fail");
    assert_eq!(r.matches.len(), 1);
    assert_eq!(r.matches[0].mean, "蓝牙连接失败");
    assert_eq!(r.matches[0].level, "e");
    assert_eq!(r.matches[0].app, "蓝牙");
    assert_eq!(r.matches[0].child_name, "bt_btm");
    assert_eq!(r.matches[0].tag, "bt_btm");
    assert!(r.matches[0].regex_captures.is_none());
    assert!(matcher.match_line("bt_btm: connect fail success", 5).is_none());
}

#[test]
fn regex_rule_wins_over_its_keys_and_reports_captures() {
    let matcher = LogMatcher::new(bluetooth_config());
    let r = matcher.match_line("bt_btm: BT_ERR001: Connection timeout", 2).unwrap();
    assert_eq!(r.matches.len(), 1);
    let d = &r.matches[0];
    assert_eq!(d.mean, "蓝牙错误");
    let caps = d.regex_captures.as_ref().unwrap();
    assert_eq!(caps.len(), 2);
    assert_eq!(caps.get("code").map(|s| s.as_str()), Some("001"));
    assert_eq!(caps.get("desc").map(|s| s.as_str()), Some("Connection timeout"));
}

#[test]
fn a_line_without_any_tag_matches_nothing() {
    let matcher = LogMatcher::new(bluetooth_config());
    assert!(matcher.match_line("start_btm init_bt connect fail scan", 1).is_none());
    assert!(matcher.match_line_zero_copy("start_btm init_bt connect fail scan", 1).is_none());
}

#[test]
fn one_tag_selects_all_its_children() {
    let matcher = LogMatcher::new(bluetooth_config());
    let r = matcher.match_line("WLog scan done", 9).unwrap();
    let mut means: Vec<&str> = r.matches.iter().map(|d| d.mean.as_str()).collect();
    means.sort();
    assert_eq!(means, vec!["任意", "扫描"]);
    // children of one tag report in configuration order
    assert_eq!(r.matches[0].child_name, "wlog");
    assert_eq!(r.matches[1].child_name, "wlog2");
}

#[test]
fn zero_copy_reports_what_the_plain_matcher_reports() {
    let matcher = LogMatcher::new(bluetooth_config());
    for (n, line) in [
        "bt_btm: start_btm init_bt ok",
        "bt_btm: BT_ERR7: x WLog scan",
        "nothing here",
        "WLog",
    ]
    .iter()
    .enumerate()
    {
        let plain = matcher.match_line(line, n);
        let zc = matcher.match_line_zero_copy(line, n).map(|r| r.into_owned());
        assert_eq!(plain.is_some(), zc.is_some());
        if let (Some(p), Some(z)) = (plain, zc) {
            assert_eq!(p.line, z.line);
            assert_eq!(p.line_number, z.line_number);
            let mut a: Vec<(String, String)> = p.matches.iter().map(|d| (d.tag.clone(), d.mean.clone())).collect();
            let mut b: Vec<(String, String)> = z.matches.iter().map(|d| (d.tag.clone(), d.mean.clone())).collect();
            a.sort();
            b.sort();
            assert_eq!(a, b);
        }
    }
}

#[test]
fn zero_copy_leaves_out_empty_captures() {
    let mut config = LogConfig {
        categories: vec![Category {
            app: "a".to_string(),
            children: vec![child("c", "T", vec![regex_rule("T[0-9]+", &[], "m", "i")])],
        }],
        raw_content: String::new(),
    };
    assert!(config.compile_regexes().is_ok());
    let matcher = LogMatcher::new(config);
    let plain = matcher.match_line("T42", 1).unwrap();
    assert_eq!(plain.matches[0].regex_captures.as_ref().map(|m| m.len()), Some(0));
    let zc = matcher.match_line_zero_copy("T42", 1).unwrap();
    assert!(zc.matches[0].regex_captures.is_none());
}

#[test]
fn tags_are_sorted_and_distinct() {
    let config = bluetooth_config();
    assert_eq!(config.get_all_tags(), vec!["WLog".to_string(), "bt_btm".to_string()]);
}

#[test]
fn an_invalid_regex_is_reported_first_in_reading_order() {
    let mut config = LogConfig {
        categories: vec![Category {
            app: "a".to_string(),
            children: vec![child(
                "c",
                "t",
                vec![regex_rule("ok+", &[], "m", "i"), regex_rule("(", &[], "m", "i"), regex_rule("[", &[], "m", "i")],
            )],
        }],
        raw_content: String::new(),
    };
    match config.compile_regexes() {
        Err(ConfigError::InvalidRegex(p)) => assert_eq!(p, "("),
        Ok(()) => panic!("an invalid regex was accepted"),
    }
}

#[test]
fn many_tags_switch_to_aho_corasick() {
    let mut children = Vec::new();
    for i in 0..AC_THRESHOLD {
        children.push(child(&format!("c{}", i), &format!("TAG{:03}X", i), vec![keys_rule(&[], &[], &format!("m{}", i), "i")]));
    }
    let config = LogConfig {
        categories: vec![Category { app: "app".to_string(), children }],
        raw_content: String::new(),
    };
    let small = LogConfig {
        categories: vec![Category { app: "app".to_string(), children: vec![child("c", "TAG", vec![])] }],
        raw_content: String::new(),
    };
    let m_small = LogMatcher::new(small);
    assert!(!m_small.is_ac_enabled());
    assert_eq!(m_small.get_tag_count(), 1);
    let m = LogMatcher::try_new(config).unwrap();
    assert!(m.is_ac_enabled());
    assert_eq!(m.get_tag_count(), AC_THRESHOLD);
    let r = m.match_line("xx TAG007X yy TAG049X", 1).unwrap();
    let mut means: Vec<&str> = r.matches.iter().map(|d| d.mean.as_str()).collect();
    means.sort();
    assert_eq!(means, vec!["m49", "m7"]);
    assert!(m.match_line("TAG", 2).is_none());
    let z = m.match_line_zero_copy("TAG003X", 3).unwrap();
    assert_eq!(z.matches.len(), 1);
    assert_eq!(z.matches[0].mean, "m3");
}

#[test]
fn stats_count_matched_lines_and_details() {
    let matcher = LogMatcher::new(bluetooth_config());
    let mut stats = MatchStats::new();
    assert_eq!(stats.matched_lines, 0);
    let r: MatchResult = matcher.match_line("WLog scan", 1).unwrap();
    stats.add_match(&r);
    stats.add_match(&r);
    assert_eq!(stats.matched_lines, 2);
    assert_eq!(stats.total_matches, 4);
    assert_eq!(stats.total_lines, 0);
    let d = MatchStats::default();
    assert_eq!(d.total_matches, 0);
    assert!(!d.ac_enabled);
}

#[test]
fn many_tags_find_every_tag_a_line_contains() {
    let mut children = vec![
        child("bt", "bt", vec![keys_rule(&[], &[], "bt", "i")]),
        child("bt_btm", "bt_btm", vec![keys_rule(&[], &[], "bt_btm", "i")]),
    ];
    for i in 0..48 {
        let tag = format!("x{:02}", i);
        children.push(child(&tag, &tag, vec![keys_rule(&[], &[], &tag, "i")]));
    }
    let config = LogConfig {
        categories: vec![Category { app: "A".to_string(), children }],
        raw_content: String::new(),
    };
    let m = LogMatcher::try_new(config).unwrap();
    assert!(m.is_ac_enabled());
    let r = m.match_line("bt_btm x", 1).unwrap();
    let mut means: Vec<&str> = r.matches.iter().map(|d| d.mean.as_str()).collect();
    means.sort();
    assert_eq!(means, vec!["bt", "bt_btm"]);
    let z = m.match_line_zero_copy("bt_btm x", 1).unwrap();
    assert_eq!(z.matches.len(), 2);
}

#[test]
fn a_cloned_configuration_matches_alike() {
    let config = bluetooth_config();
    let copy = config.clone();
    let a = LogMatcher::new(config).match_line("bt_btm BT_ERR7: down", 1).unwrap();
    let b = LogMatcher::new(copy).match_line("bt_btm BT_ERR7: down", 1).unwrap();
    assert_eq!(a.matches.len(), b.matches.len());
    assert_eq!(b.matches[0].mean, "蓝牙错误");
}
