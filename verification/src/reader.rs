//! The decisions of log reading: which reader a file needs, judged by its
//! extension, and which archive entries are read, judged by the directory and
//! file-name patterns. Opening files and walking archives is left to the caller.
use vstd::prelude::*;
use crate::pattern::{CompiledRegex, regex_compiles, regex_is_match};
use crate::text::{ends_with, str_ends_with, str_eq};

verus! {

/// `x` contains no `c`.
pub open spec fn lacks(x: Seq<char>, c: char) -> bool {
    forall|i: int| 0 <= i < x.len() ==> x[i] != c
}

/// `s` holds only separators and dots: what may follow the file name in a path.
pub open spec fn trailer_only(s: Seq<char>) -> bool {
    forall|i: int| 0 <= i < s.len() ==> s[i] == '/' || s[i] == '\\' || s[i] == '.'
}

/// The index of the last `c` in `s`, or -1 when there is none.
pub open spec fn last_index_of(s: Seq<char>, c: char) -> int
    decreases s.len(),
{
    if s.len() == 0 {
        -1
    } else if s.last() == c {
        s.len() - 1
    } else {
        last_index_of(s.drop_last(), c)
    }
}

/// The text after the last `/` of a path.
pub open spec fn final_segment(path: Seq<char>) -> Seq<char> {
    path.skip(last_index_of(path, '/') + 1)
}

/// The path without its trailing `/` separators.
pub open spec fn trim_slashes(path: Seq<char>) -> Seq<char>
    decreases path.len(),
{
    if path.len() > 0 && path.last() == '/' {
        trim_slashes(path.drop_last())
    } else {
        path
    }
}

/// The last component of a path: the last `/`-separated segment once
/// trailing separators are left out.
pub open spec fn last_component(path: Seq<char>) -> Seq<char> {
    final_segment(trim_slashes(path))
}

/// A path whose file name every platform reads the same way: no `\` and no
/// `:` in it, and a last component that is neither empty nor `.` nor `..`.
pub open spec fn plain_path(path: Seq<char>) -> bool {
    lacks(path, '\\') && lacks(path, ':') && last_component(path).len() > 0 && last_component(path)
        != seq!['.'] && last_component(path) != seq!['.', '.']
}

/// The extension of a file name: the text after its last `.`, unless there is
/// no `.` or the only one begins the name.
pub open spec fn name_extension(name: Seq<char>) -> Option<Seq<char>> {
    let j = last_index_of(name, '.');
    if j <= 0 {
        None
    } else {
        Some(name.skip(j + 1))
    }
}

/// A path separator on some platform.
pub open spec fn is_sep(c: char) -> bool {
    c == '/' || c == '\\'
}

/// The greater of two integers.
pub open spec fn max_int(a: int, b: int) -> int {
    if a < b { b } else { a }
}

/// The text after the last `/`, `\` or `:` of a path.
pub open spec fn last_name(path: Seq<char>) -> Seq<char> {
    path.skip(max_int(max_int(last_index_of(path, '/'), last_index_of(path, '\\')), last_index_of(path, ':')) + 1)
}

/// The text after the last `.` of the path's last name.
pub open spec fn extension_of(path: Seq<char>) -> Seq<char> {
    last_name(path).skip(last_index_of(last_name(path), '.') + 1)
}

/// A path whose extension every platform reads the same way: it does not end
/// with a separator, does not begin with two (a network or device prefix),
/// and its last name (after the last `/`, `\` or `:`) is not `..` and has a
/// `.` after its first character. Its extension is the text after that
/// name's last `.`, whichever of `/` and `\` the platform takes as
/// separators.
pub open spec fn clear_extension(path: Seq<char>) -> bool {
    &&& path.len() > 0
    &&& !is_sep(path.last())
    &&& !(path.len() >= 2 && is_sep(path[0]) && is_sep(path[1]))
    &&& last_index_of(last_name(path), '.') > 0
    &&& last_name(path) != seq!['.', '.']
}

/// What holds of the extension `e` that `Path::extension` finds in `path` on
/// every platform: it is text after a `.` in the path, with no `.` or `/` in
/// it, and only separators and dots follow it; for a plain path, it is the
/// extension of the last component; for a path with a clear extension, it
/// is that extension.
pub open spec fn extension_candidate(path: Seq<char>, e: Option<Seq<char>>) -> bool {
    &&& e matches Some(x) ==> exists|i: int|
        1 <= i && i + x.len() <= path.len() && path[i - 1] == '.' && #[trigger] path.subrange(i, i + x.len()) == x
            && trailer_only(path.subrange(i + x.len(), path.len() as int)) && lacks(x, '.') && lacks(x, '/')
    &&& plain_path(path) ==> e == name_extension(last_component(path))
    &&& clear_extension(path) ==> e == Some(extension_of(path))
}

/// What holds of the file name `n` that `Path::file_name` finds in `path` on
/// every platform (the empty text when there is none): it is text of the path
/// with no `/` in it, and only separators and dots follow it; for a plain
/// path, it is the last component.
pub open spec fn file_name_candidate(path: Seq<char>, n: Seq<char>) -> bool {
    &&& exists|i: int|
        0 <= i && i + n.len() <= path.len() && #[trigger] path.subrange(i, i + n.len()) == n
            && trailer_only(path.subrange(i + n.len(), path.len() as int)) && lacks(n, '/')
    &&& plain_path(path) ==> n == last_component(path)
}

/// `Path::extension`, turned into an owned string. Claims what
/// `extension_candidate` states; for a path that is neither plain nor has a
/// clear extension, which component counts as the file name depends on the
/// platform's separators, and the extension is left unsaid beyond those facts.
#[verifier::external_body]
fn path_extension(path: &str) -> (e: Option<String>)
    ensures
        extension_candidate(path@, match e { Some(s) => Some(s@), None => None }),
{
    std::path::Path::new(path).extension().and_then(|s| s.to_str()).map(|s| s.to_string())
}

/// `Path::file_name`, turned into an owned string (empty when there is none).
/// Claims what `file_name_candidate` states; for a path that is not plain,
/// which component counts as the file name depends on the platform's
/// separators, and is left unsaid beyond those facts.
#[verifier::external_body]
fn path_file_name(path: &str) -> (n: String)
    ensures
        file_name_candidate(path@, n@),
{
    std::path::Path::new(path).file_name().and_then(|s| s.to_str()).unwrap_or("").to_string()
}

/// How a log file is read.
pub enum LogFileKind {
    Zip,
    TarGz,
    Tar,
    /// A gzipped text file, read line by line.
    Gz,
    Text,
}

/// The path names a gzipped tar archive by its whole suffix `.tar.gz`.
pub open spec fn tar_gz_name(path: Seq<char>) -> bool {
    ends_with(path, ".tar.gz"@)
}

/// The reader that an extension calls for: `zip`; `tgz`, and `gz` after a
/// `.tar` stem (`tar_stem`); `tar`; a gzipped text file for any other `gz`;
/// and plain text for anything else.
pub open spec fn kind_of_extension(e: Option<Seq<char>>, tar_stem: bool) -> LogFileKind {
    match e {
        Some(x) => if x == "zip"@ {
            LogFileKind::Zip
        } else if x == "tgz"@ || (x == "gz"@ && tar_stem) {
            LogFileKind::TarGz
        } else if x == "gz"@ {
            LogFileKind::Gz
        } else if x == "tar"@ {
            LogFileKind::Tar
        } else {
            LogFileKind::Text
        },
        None => LogFileKind::Text,
    }
}

/// `k` is the reader for some extension that `path` can have.
pub open spec fn kind_for_path(path: Seq<char>, k: LogFileKind) -> bool {
    exists|e: Option<Seq<char>>| extension_candidate(path, e) && k == kind_of_extension(e, tar_gz_name(path))
}

/// The compiled directory and file-name patterns of archive entries.
pub struct PathFilter {
    pub dir_regex: Option<CompiledRegex>,
    pub file_regex: Option<CompiledRegex>,
}

/// The pattern text of an optional regex.
pub open spec fn opt_pattern(r: Option<CompiledRegex>) -> Option<Seq<char>> {
    match r {
        Some(c) => Some(c.pattern()),
        None => None,
    }
}

pub open spec fn opt_str(o: Option<&str>) -> Option<Seq<char>> {
    match o {
        Some(s) => Some(s@),
        None => None,
    }
}

/// The directory pattern, if there is one, matches the path.
pub open spec fn dir_ok(f: PathFilter, path: Seq<char>) -> bool {
    f.dir_regex matches Some(d) ==> regex_is_match(d.pattern(), path)
}

/// `b` is whether an entry at `path` passes the filter: with no pattern every
/// entry passes; otherwise the directory pattern must match the path and the
/// file pattern the entry's file name.
pub open spec fn passes_with(f: PathFilter, path: Seq<char>, b: bool) -> bool {
    &&& (f.dir_regex is None && f.file_regex is None) ==> b
    &&& !dir_ok(f, path) ==> !b
    &&& (dir_ok(f, path) && f.file_regex is None) ==> b
    &&& (dir_ok(f, path) && f.file_regex is Some) ==> exists|name: Seq<char>|
        file_name_candidate(path, name) && b == regex_is_match(f.file_regex->Some_0.pattern(), name)
}

/// What a log file's reading needs: its reader and, for archives, the entry filter.
pub enum ReadPlan {
    Text,
    /// A gzipped text file, read line by line after decompression.
    Gz,
    Zip(PathFilter),
    TarGz(PathFilter),
    Tar(PathFilter),
}

/// Why a log file cannot be read.
pub enum ReadError {
    /// The directory or file pattern (given here) is not accepted by the regex crate.
    InvalidPattern(String),
}

/// `f` is the filter compiled from the two patterns.
pub open spec fn filter_of(f: PathFilter, dir: Option<Seq<char>>, file: Option<Seq<char>>) -> bool {
    opt_pattern(f.dir_regex) == dir && opt_pattern(f.file_regex) == file
}

/// `r` is what reading plans for a file of kind `k` with the two patterns: a
/// text file ignores the patterns; an archive needs both to compile (the
/// directory pattern is compiled first, and the first failure is reported).
pub open spec fn plan_for(k: LogFileKind, dir: Option<Seq<char>>, file: Option<Seq<char>>, r: Result<ReadPlan, ReadError>) -> bool {
    match k {
        LogFileKind::Text => r matches Ok(ReadPlan::Text),
        LogFileKind::Gz => r matches Ok(ReadPlan::Gz),
        _ => {
            let dir_bad = dir matches Some(d) && !regex_compiles(d);
            let file_bad = file matches Some(f) && !regex_compiles(f);
            match r {
                Ok(plan) => !dir_bad && !file_bad && match plan {
                    ReadPlan::Zip(f) => k is Zip && filter_of(f, dir, file),
                    ReadPlan::TarGz(f) => k is TarGz && filter_of(f, dir, file),
                    ReadPlan::Tar(f) => k is Tar && filter_of(f, dir, file),
                    ReadPlan::Text => false,
                    ReadPlan::Gz => false,
                },
                Err(ReadError::InvalidPattern(p)) => if dir_bad {
                    Some(p@) == dir
                } else {
                    file_bad && Some(p@) == file
                },
            }
        },
    }
}

/// Reader of log files and log archives.
pub struct LogReader {
    temp_dir: Option<String>,
}

impl LogReader {
    /// Whether the reader holds a temporary directory.
    pub closed spec fn has_temp_dir(&self) -> bool {
        self.temp_dir is Some
    }

    /// A reader with no temporary directory.
    pub fn new() -> (r: Self)
        ensures
            !r.has_temp_dir(),
    {
        LogReader { temp_dir: None }
    }

    /// The reader that an extension calls for, given whether a `gz` extension
    /// follows a `.tar` stem.
    pub fn kind_of_extension(ext: Option<&str>, tar_stem: bool) -> (k: LogFileKind)
        ensures
            k == kind_of_extension(opt_str(ext), tar_stem),
    {
        proof {
            reveal_strlit("zip");
            reveal_strlit("gz");
            reveal_strlit("tgz");
            reveal_strlit("tar");
        }
        match ext {
            Some(x) => {
                if str_eq(x, "zip") {
                    LogFileKind::Zip
                } else if str_eq(x, "tgz") || (str_eq(x, "gz") && tar_stem) {
                    LogFileKind::TarGz
                } else if str_eq(x, "gz") {
                    LogFileKind::Gz
                } else if str_eq(x, "tar") {
                    LogFileKind::Tar
                } else {
                    LogFileKind::Text
                }
            },
            None => LogFileKind::Text,
        }
    }

    /// The reader that the file's extension calls for.
    pub fn file_kind(file_path: &str) -> (k: LogFileKind)
        ensures
            kind_for_path(file_path@, k),
    {
        let ext = path_extension(file_path);
        proof {
            reveal_strlit(".tar.gz");
        }
        let tar_stem = str_ends_with(file_path, ".tar.gz");
        let k = match &ext {
            Some(e) => Self::kind_of_extension(Some(e.as_str()), tar_stem),
            None => Self::kind_of_extension(None, tar_stem),
        };
        let ghost ev = match ext { Some(s) => Some(s@), None => None };
        assert(extension_candidate(file_path@, ev) && k == kind_of_extension(ev, tar_gz_name(file_path@)));
        k
    }

    /// Compiles the directory and file patterns of an archive, the directory
    /// pattern first.
    pub fn compile_filter(dir_pattern: Option<&str>, file_pattern: Option<&str>) -> (r: Result<PathFilter, ReadError>)
        ensures
            plan_for(LogFileKind::Zip, opt_str(dir_pattern), opt_str(file_pattern), match r {
                Ok(f) => Ok(ReadPlan::Zip(f)),
                Err(e) => Err(e),
            }),
    {
        let dir_regex = match dir_pattern {
            Some(p) => match CompiledRegex::new(p) {
                Ok(c) => Some(c),
                Err(_) => {
                    return Err(ReadError::InvalidPattern(p.to_string()));
                },
            },
            None => None,
        };
        let file_regex = match file_pattern {
            Some(p) => match CompiledRegex::new(p) {
                Ok(c) => Some(c),
                Err(_) => {
                    return Err(ReadError::InvalidPattern(p.to_string()));
                },
            },
            None => None,
        };
        Ok(PathFilter { dir_regex, file_regex })
    }

    /// Plans the reading of a log file: a text file, plain or gzipped, is read
    /// line by line; an archive is walked entry by entry through the filter compiled from the
    /// two patterns.
    pub fn read_logs(&mut self, file_path: &str, dir_pattern: Option<&str>, file_pattern: Option<&str>) -> (r: Result<ReadPlan, ReadError>)
        ensures
            exists|k: LogFileKind| kind_for_path(file_path@, k) && plan_for(k, opt_str(dir_pattern), opt_str(file_pattern), r),
    {
        let kind = Self::file_kind(file_path);
        let r = match kind {
            LogFileKind::Text => Ok(ReadPlan::Text),
            LogFileKind::Gz => Ok(ReadPlan::Gz),
            LogFileKind::Zip => match Self::compile_filter(dir_pattern, file_pattern) {
                Ok(f) => Ok(ReadPlan::Zip(f)),
                Err(e) => Err(e),
            },
            LogFileKind::TarGz => match Self::compile_filter(dir_pattern, file_pattern) {
                Ok(f) => Ok(ReadPlan::TarGz(f)),
                Err(e) => Err(e),
            },
            LogFileKind::Tar => match Self::compile_filter(dir_pattern, file_pattern) {
                Ok(f) => Ok(ReadPlan::Tar(f)),
                Err(e) => Err(e),
            },
        };
        assert(kind_for_path(file_path@, kind) && plan_for(kind, opt_str(dir_pattern), opt_str(file_pattern), r));
        r
    }

    /// Whether an archive entry at `path` passes the filter: with no pattern
    /// every entry passes; otherwise the directory pattern must match the path
    /// and the file pattern the entry's file name.
    pub fn matches_pattern(&self, path: &str, filter: &PathFilter) -> (b: bool)
        ensures
            passes_with(*filter, path@, b),
    {
        if filter.dir_regex.is_none() && filter.file_regex.is_none() {
            return true;
        }
        match &filter.dir_regex {
            Some(dir_re) => {
                if !dir_re.is_match(path) {
                    return false;
                }
            },
            None => {},
        }
        match &filter.file_regex {
            Some(file_re) => {
                let file_name = path_file_name(path);
                let b = file_re.is_match(file_name.as_str());
                assert(file_name_candidate(path@, file_name@) && b == regex_is_match(filter.file_regex->Some_0.pattern(), file_name@));
                b
            },
            None => true,
        }
    }

    /// Whether an archive entry is read: it is a file and passes the filter.
    pub fn should_read_entry(&self, path: &str, is_file: bool, filter: &PathFilter) -> (b: bool)
        ensures
            exists|p: bool| passes_with(*filter, path@, p) && b == (is_file && p),
    {
        let passes = self.matches_pattern(path, filter);
        passes && is_file
    }
}

/// Law: a file is read by the reader that its extension calls for, wherever
/// the extension is the same on every platform: in particular a path whose
/// last name ends in `.zip` is read as a zip archive, whatever `\\` or `:`
/// it holds before that name.
pub proof fn law_kind_follows_extension(path: Seq<char>, k: LogFileKind)
    requires
        kind_for_path(path, k),
        clear_extension(path),
    ensures
        k == kind_of_extension(Some(extension_of(path)), tar_gz_name(path)),
        extension_of(path) == "zip"@ ==> k is Zip,
        extension_of(path) == "tar"@ ==> k is Tar,
        extension_of(path) == "tgz"@ ==> k is TarGz,
{
    reveal_strlit("zip");
    reveal_strlit("tar");
    reveal_strlit("tgz");
    reveal_strlit("gz");
    assert("tar"@ != "zip"@) by {
        assert("tar"@[0] != "zip"@[0]);
    }
    assert("tar"@ != "tgz"@) by {
        assert("tar"@[1] != "tgz"@[1]);
    }
    assert("tgz"@ != "zip"@) by {
        assert("tgz"@[0] != "zip"@[0]);
    }
    assert("tar"@.len() != "gz"@.len());
    assert("tgz"@.len() != "gz"@.len());
}

} // verus!
