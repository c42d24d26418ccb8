use loglog::config::{Category, Child, LogConfig, MsgRule};
use loglog::matcher::LogMatcher;
use loglog::pool::{StringPool, VecPool};
use loglog::zero_copy::{MatchDetailZeroCopy, MatchResultZeroCopy};
use std::borrow::Cow;

fn strings(v: &[&str]) -> Vec<String> {
    v.iter().map(|s| s.to_string()).collect()
}

fn rule(keys: &[&str], ignores: &[&str], mean: &str, level: &str) -> MsgRule {
    MsgRule {
        keys: strings(keys),
        ignores: strings(ignores),
        mean: mean.to_string(),
        regex: None,
        level: level.to_string(),
        compiled_regex: None,
    }
}

#[test]
fn test_parse_config() {
    let mut config = LogConfig {
        categories: vec![Category {
            app: "蓝牙".to_string(),
            children: vec![Child {
                name: "bt_btm".to_string(),
                tag: "bt_btm".to_string(),
                msgs: vec![
                    rule(&["start_btm", "init_bt"], &["error"], "蓝牙启动", "i"),
                    rule(&["connect fail"], &[], "蓝牙连接失败", "e"),
                ],
            }],
        }],
        raw_content: String::new(),
    };
    assert!(config.compile_regexes().is_ok());
    assert_eq!(config.categories.len(), 1);
    assert_eq!(config.categories[0].children.len(), 1);
}

#[test]
fn test_matcher() {
    let mut config = LogConfig {
        categories: vec![Category {
            app: "蓝牙".to_string(),
            children: vec![Child {
                name: "bt_btm".to_string(),
                tag: "bt_btm".to_string(),
                msgs: vec![
                    rule(&["start_btm", "init_bt"], &[], "蓝牙启动", "i"),
                    rule(&["connect", "fail"], &["success"], "蓝牙连接失败", "e"),
                ],
            }],
        }],
        raw_content: String::new(),
    };
    assert!(config.compile_regexes().is_ok());

    let matcher = LogMatcher::new(config);

    let line = "bt_btm: start_btm init_bt process";
    let result = matcher.match_line(line, 1);
    assert!(result.is_some());

    let result = result.unwrap();
    assert_eq!(result.matches.len(), 1);
    assert_eq!(result.matches[0].mean, "蓝牙启动");
}

#[test]
fn test_string_pool() {
    let mut pool = StringPool::new(10);

    {
        let mut s1 = pool.acquire();
        s1.set("test1");
        assert_eq!(s1.as_str(), "test1");
        pool.release(s1);
    }

    assert_eq!(pool.size(), 1);

    {
        let mut s2 = pool.acquire();
        s2.set("test2");
        assert_eq!(s2.as_str(), "test2");
        pool.release(s2);
    }
}

#[test]
fn test_vec_pool() {
    let mut pool: VecPool<i32> = VecPool::new(10);

    {
        let mut v1 = pool.acquire();
        v1.as_mut().push(1);
        v1.as_mut().push(2);
        assert_eq!(v1.len(), 2);
        pool.release(v1);
    }

    {
        let v2 = pool.acquire();
        assert_eq!(v2.len(), 0);
    }
}

#[test]
fn test_zero_copy() {
    let line = "test log line";
    let mut result = MatchResultZeroCopy::new(line, 1);

    let detail = MatchDetailZeroCopy::new("app", "child", "tag", "mean", "i");
    result.add_match(detail);

    match &result.line {
        Cow::Borrowed(_) => {}
        Cow::Owned(_) => panic!("Should be borrowed"),
    }

    let owned = result.into_owned();
    assert_eq!(owned.line, "test log line");
}
