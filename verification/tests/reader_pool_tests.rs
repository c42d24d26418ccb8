use loglog::pool::{StringPool, VecPool};
use loglog::reader::{LogFileKind, LogReader, ReadError, ReadPlan};

#[test]
fn the_extension_picks_the_reader() {
    assert!(matches!(LogReader::file_kind("logs/a.zip"), LogFileKind::Zip));
    assert!(matches!(LogReader::file_kind("a.tar.gz"), LogFileKind::TarGz));
    assert!(matches!(LogReader::file_kind("a.tgz"), LogFileKind::TarGz));
    assert!(matches!(LogReader::file_kind("dir/a.tar"), LogFileKind::Tar));
    assert!(matches!(LogReader::file_kind("test_log.txt"), LogFileKind::Text));
    assert!(matches!(LogReader::file_kind("noext"), LogFileKind::Text));
    assert!(matches!(LogReader::kind_of_extension(Some("gz"), true), LogFileKind::TarGz));
    assert!(matches!(LogReader::kind_of_extension(Some("gz"), false), LogFileKind::Gz));
    assert!(matches!(LogReader::kind_of_extension(None, false), LogFileKind::Text));
    assert!(matches!(LogReader::file_kind("logs/app.log.gz"), LogFileKind::Gz));
    assert!(matches!(LogReader::file_kind("logs/app.tar.gz"), LogFileKind::TarGz));
}

#[test]
fn text_files_ignore_the_patterns() {
    let mut reader = LogReader::new();
    assert!(matches!(reader.read_logs("test_log.txt", Some("("), None), Ok(ReadPlan::Text)));
}

#[test]
fn archives_need_valid_patterns() {
    let mut reader = LogReader::new();
    match reader.read_logs("x.zip", Some("("), Some("[")) {
        Err(ReadError::InvalidPattern(p)) => assert_eq!(p, "("),
        _ => panic!("expected an invalid pattern"),
    }
    match reader.read_logs("x.tar", None, Some("[")) {
        Err(ReadError::InvalidPattern(p)) => assert_eq!(p, "["),
        _ => panic!("expected an invalid pattern"),
    }
    assert!(matches!(reader.read_logs("x.tgz", None, None), Ok(ReadPlan::TarGz(_))));
    assert!(matches!(reader.read_logs("x.log.gz", Some("("), None), Ok(ReadPlan::Gz)));
}

#[test]
fn entries_are_filtered_by_directory_and_file_name() {
    let mut reader = LogReader::new();
    let filter = match reader.read_logs("x.zip", Some("logs/2024/"), Some(r"app.*\.log$")) {
        Ok(ReadPlan::Zip(f)) => f,
        _ => panic!("expected a zip plan"),
    };
    assert!(reader.matches_pattern("logs/2024/app1.log", &filter));
    assert!(!reader.matches_pattern("logs/2023/app1.log", &filter));
    assert!(!reader.matches_pattern("logs/2024/sys.log", &filter));
    assert!(!reader.matches_pattern("logs/2024/sub/xapp.log.bak", &filter));
    assert!(reader.should_read_entry("logs/2024/app.log", true, &filter));
    assert!(!reader.should_read_entry("logs/2024/app.log", false, &filter));
    let all = match reader.read_logs("x.zip", None, None) {
        Ok(ReadPlan::Zip(f)) => f,
        _ => panic!("expected a zip plan"),
    };
    assert!(reader.matches_pattern("anything", &all));
}

#[test]
fn a_full_pool_drops_released_strings() {
    let mut pool = StringPool::new(1);
    let a = pool.acquire();
    let mut b = pool.acquire();
    b.set("kept?");
    pool.release(a);
    pool.release(b);
    assert_eq!(pool.size(), 1);
    let c = pool.acquire();
    assert_eq!(c.as_str(), "");
    assert_eq!(pool.size(), 0);
    assert_eq!(StringPool::default().size(), 0);
}

#[test]
fn released_vectors_come_back_empty() {
    let mut pool: VecPool<u8> = VecPool::default();
    let mut v = pool.acquire();
    v.as_mut().extend_from_slice(&[1, 2, 3]);
    pool.release(v);
    assert_eq!(pool.size(), 1);
    let w = pool.acquire();
    assert!(w.as_slice().is_empty());
}
