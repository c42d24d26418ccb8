use loglog::matcher::{MatchDetail, MatchResult};
use loglog::result::{ResultGrouper, ResultGrouperZeroCopy};
use loglog::zero_copy::{MatchDetailZeroCopy, MatchResultZeroCopy};

fn detail(app: &str, child: &str, tag: &str, mean: &str) -> MatchDetail {
    MatchDetail {
        app: app.to_string(),
        child_name: child.to_string(),
        tag: tag.to_string(),
        mean: mean.to_string(),
        level: "i".to_string(),
        regex_captures: None,
    }
}

fn result(line: &str, n: usize, matches: Vec<MatchDetail>) -> MatchResult {
    MatchResult { line: line.to_string(), line_number: n, matches }
}

#[test]
fn results_are_filed_once_per_key() {
    let mut g = ResultGrouper::new();
    g.add_result(result("l1", 1, vec![detail("B", "x", "t1", "m1"), detail("B", "x", "t1", "m2"), detail("A", "y", "t2", "m3")]));
    g.add_result(result("l2", 2, vec![detail("B", "z", "t2", "m4")]));
    assert_eq!(g.get_all().len(), 2);
    let b = g.get_by_app("B").unwrap();
    assert_eq!(b.len(), 2);
    assert_eq!(b[0].line, "l1");
    assert_eq!(b[1].line, "l2");
    assert_eq!(g.get_by_app("A").unwrap().len(), 1);
    assert!(g.get_by_app("C").is_none());
    assert_eq!(g.get_by_child("B", "x").unwrap().len(), 1);
    assert!(g.get_by_child("A", "x").is_none());
    assert_eq!(g.get_by_tag("t2").unwrap().len(), 2);
    assert_eq!(g.get_all_apps(), vec!["A".to_string(), "B".to_string()]);
    assert_eq!(g.get_children_of_app("B"), vec!["x".to_string(), "z".to_string()]);
    assert!(g.get_children_of_app("C").is_empty());
}

#[test]
fn unmatched_lines_are_counted() {
    let mut g = ResultGrouper::new_zero_copy();
    assert_eq!(g.unmatched_count(), 0);
    g.add_unmatched(3, "x".to_string());
    g.add_unmatched(4, "y".to_string());
    assert_eq!(g.unmatched_count(), 2);
    assert!(g.get_all().is_empty());
}

#[test]
fn a_zero_copy_grouper_only_counts() {
    let mut g = ResultGrouper::new_zero_copy();
    g.add_result(result("l1", 1, vec![detail("B", "x", "t1", "m1")]));
    let mut r = MatchResultZeroCopy::new("line z", 7);
    r.add_match(MatchDetailZeroCopy::new("A", "c", "t", "m", "w"));
    g.add_result_zero_copy(r);
    assert_eq!(g.matched_count(), 2);
    assert!(g.get_all().is_empty());
    assert!(g.get_all_apps().is_empty());
    assert!(g.get_by_app("B").is_none());
}

#[test]
fn zero_copy_results_are_stored_owned() {
    let mut g = ResultGrouper::new();
    let mut r = MatchResultZeroCopy::new("line z", 7);
    r.add_match(MatchDetailZeroCopy::new("A", "c", "t", "m", "w"));
    g.add_result_zero_copy(r);
    let all = g.get_all();
    assert_eq!(all.len(), 1);
    assert_eq!(all[0].line, "line z");
    assert_eq!(all[0].line_number, 7);
    assert_eq!(all[0].matches[0].level, "w");
    assert_eq!(g.get_by_child("A", "c").unwrap().len(), 1);
    assert_eq!(g.matched_count(), 1);
}

#[test]
fn the_report_lists_categories_children_and_results() {
    let mut g = ResultGrouper::new();
    g.add_result(result("bt_btm: start", 1, vec![detail("蓝牙", "bt_btm", "bt_btm", "蓝牙启动"), detail("WIFI", "w", "WLog", "扫描")]));
    let lines = g.report_lines();
    let expected: Vec<String> = vec![
        "===== 日志解析结果 =====".to_string(),
        "总匹配行数: 1".to_string(),
        "".to_string(),
        "".to_string(),
        "【大类】WIFI".to_string(),
        "=".repeat(60),
        "".to_string(),
        "  【子类】w".to_string(),
        format!("  {}", "-".repeat(58)),
        "  [行号 1] bt_btm: start".to_string(),
        "    -> [i] 扫描 (标签: WLog)".to_string(),
        "".to_string(),
        "".to_string(),
        "【大类】蓝牙".to_string(),
        "=".repeat(60),
        "".to_string(),
        "  【子类】bt_btm".to_string(),
        format!("  {}", "-".repeat(58)),
        "  [行号 1] bt_btm: start".to_string(),
        "    -> [i] 蓝牙启动 (标签: bt_btm)".to_string(),
        "".to_string(),
    ];
    assert_eq!(lines, expected);
}

#[test]
fn the_summary_counts_groups() {
    let mut g = ResultGrouper::new();
    g.add_result(result("l", 12, vec![detail("A", "x", "t", "m"), detail("A", "y", "t", "m")]));
    g.add_unmatched(13, "u".to_string());
    let lines = g.summary_lines();
    let expected: Vec<String> = vec![
        "", "===== 结果摘要 =====", "总匹配行数: 1", "大类数量: 1", "子类数量: 2", "标签数量: 1", "",
        "各大类匹配统计:", "  A: 1 行", "    └─ x: 1 行", "    └─ y: 1 行", "", "未匹配行数: 1",
    ]
    .into_iter()
    .map(|s| s.to_string())
    .collect();
    assert_eq!(lines, expected);
}

#[test]
fn streamed_results_are_counted_and_rendered() {
    let mut g = ResultGrouperZeroCopy::new();
    let mut r = MatchResultZeroCopy::new("raw line", 120);
    r.add_match(MatchDetailZeroCopy::new("A", "c", "t", "m", "e"));
    let lines = g.process_result(&r);
    assert_eq!(g.matched_count, 1);
    assert_eq!(g.unmatched_count, 0);
    assert_eq!(lines, vec!["[行号 120] raw line".to_string(), "  -> [e] m (app: A, child: c)".to_string(), String::new()]);
}

#[test]
fn the_report_tree_lists_categories_and_children_in_name_order() {
    let mut g = ResultGrouper::new();
    g.add_result(result("l1", 1, vec![detail("B", "x", "t1", "m1"), detail("A", "y", "t2", "m3")]));
    g.add_result(result("l2", 2, vec![detail("B", "z", "t2", "m4"), detail("B", "x", "t1", "m5")]));
    g.add_unmatched(3, "u".to_string());
    let tree = g.report_tree();
    assert_eq!(tree.total_matches, 2);
    assert_eq!(tree.unmatched_count, 1);
    let apps: Vec<&str> = tree.categories.iter().map(|c| c.app.as_str()).collect();
    assert_eq!(apps, vec!["A", "B"]);
    let b = &tree.categories[1];
    let names: Vec<&str> = b.children.iter().map(|c| c.name.as_str()).collect();
    assert_eq!(names, vec!["x", "z"]);
    assert_eq!(b.children[0].match_count, 2);
    assert_eq!(b.children[0].matches[1].line, "l2");
    assert_eq!(b.children[1].match_count, 1);
}

#[test]
fn results_can_be_cloned() {
    let r = result("l1", 1, vec![detail("B", "x", "t1", "m1")]);
    let c = r.clone();
    assert_eq!(c.line, "l1");
    assert_eq!(c.matches[0].mean, "m1");
    let mut z = MatchResultZeroCopy::new("line z", 7);
    z.add_match(MatchDetailZeroCopy::new("A", "c", "t", "m", "w"));
    let zc = z.clone();
    assert_eq!(zc.matches[0].level, "w");
    assert_eq!(zc.line, "line z");
}
