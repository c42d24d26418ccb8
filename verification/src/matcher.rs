//! The matcher: a tag index over the configuration, the tag pre-filter of a
//! line (by `contains`, or by an Aho-Corasick automaton once there are many
//! tags), and the rule test of each child whose tag was found.
use vstd::prelude::*;
use ahash::AHashMap;
use std::sync::Arc;
use std::borrow::Cow;
use crate::config::{LogConfig, Child, MsgRule, all_tags, has_tag};
use crate::collections::{index_set_contents, index_set_new, index_set_insert, index_set_elements};
use crate::pool::{StringPool, VecPool};
use crate::zero_copy::{MatchDetailZeroCopy, MatchResultZeroCopy};
use crate::pattern::{regex_is_match, regex_capture_names, regex_captures, opt_strs_view};
use crate::text::{
    is_substring, str_contains, strictly_sorted, strs_view, sorted_unique,
    lemma_strictly_sorted_no_duplicates, lemma_strictly_sorted_unique,
};

verus! {

// ---------------------------------------------------------------------------
// Capture maps (`AHashMap<String, String>`)
// ---------------------------------------------------------------------------
/// What a map of named captures holds: group name to matched text.
pub uninterp spec fn captures_contents(m: AHashMap<String, String>) -> Map<Seq<char>, Seq<char>>;

/// `AHashMap::new`. Claims: the new map is empty.
#[verifier::external_body]
pub(crate) fn captures_new() -> (m: AHashMap<String, String>)
    ensures
        captures_contents(m).dom() == Set::<Seq<char>>::empty(),
{
    AHashMap::new()
}

/// `AHashMap::insert`. Claims: the key now maps to the value, the rest is kept.
#[verifier::external_body]
pub(crate) fn captures_insert(m: &mut AHashMap<String, String>, k: String, v: String)
    ensures
        captures_contents(*final(m)) == captures_contents(*old(m)).insert(k@, v@),
{
    m.insert(k, v);
}

/// `HashMap::is_empty` on an `AHashMap`. Claims: true exactly when nothing is held.
#[verifier::external_body]
pub(crate) fn captures_is_empty(m: &AHashMap<String, String>) -> (empty: bool)
    ensures
        empty == (captures_contents(*m).dom() == Set::<Seq<char>>::empty()),
{
    m.is_empty()
}

/// `Clone::clone` of an `AHashMap<String, String>`. Claims: the copy holds the same pairs.
#[verifier::external_body]
pub(crate) fn captures_clone(m: &AHashMap<String, String>) -> (c: AHashMap<String, String>)
    ensures
        captures_contents(c) == captures_contents(*m),
{
    m.clone()
}

/// The group names, cloned in the order `HashMap::keys` walks them. Claims:
/// each comes out once and the list holds exactly the names; the order is left
/// unsaid, as the hasher is seeded per process.
#[verifier::external_body]
pub(crate) fn captures_keys(m: &AHashMap<String, String>) -> (ks: Vec<String>)
    ensures
        strs_view(ks@).no_duplicates(),
        strs_view(ks@).to_set() == captures_contents(*m).dom(),
{
    m.keys().cloned().collect()
}

/// `AHashMap::get`. Claims: the text held for the name, if any.
#[verifier::external_body]
pub(crate) fn captures_get<'a>(m: &'a AHashMap<String, String>, k: &str) -> (v: Option<&'a String>)
    ensures
        v matches Some(x) ==> captures_contents(*m).contains_key(k@) && x@ == captures_contents(*m)[k@],
        v is None ==> !captures_contents(*m).contains_key(k@),
{
    m.get(k)
}

/// The view of optional captures.
pub open spec fn opt_captures_view(c: Option<AHashMap<String, String>>) -> Option<
    Map<Seq<char>, Seq<char>>,
> {
    match c {
        Some(m) => Some(captures_contents(m)),
        None => None,
    }
}

pub fn clone_opt_captures(c: &Option<AHashMap<String, String>>) -> (r: Option<
    AHashMap<String, String>,
>)
    ensures
        opt_captures_view(r) == opt_captures_view(*c),
{
    match c {
        Some(m) => Some(captures_clone(m)),
        None => None,
    }
}

// ---------------------------------------------------------------------------
// Match results
// ---------------------------------------------------------------------------
/// One rule that matched a line.
#[derive(Debug, Clone)]
pub struct MatchDetail {
    pub app: String,
    pub child_name: String,
    pub tag: String,
    pub mean: String,
    pub level: String,
    pub regex_captures: Option<AHashMap<String, String>>,
}

/// A line and the rules it matched.
#[derive(Debug, Clone)]
pub struct MatchResult {
    pub line: String,
    pub line_number: usize,
    pub matches: Vec<MatchDetail>,
}

/// What a match detail says.
pub struct MatchDetailView {
    pub app: Seq<char>,
    pub child_name: Seq<char>,
    pub tag: Seq<char>,
    pub mean: Seq<char>,
    pub level: Seq<char>,
    pub regex_captures: Option<Map<Seq<char>, Seq<char>>>,
}

/// What a match result says.
pub struct MatchResultView {
    pub line: Seq<char>,
    pub line_number: usize,
    pub matches: Seq<MatchDetailView>,
}

impl View for MatchDetail {
    type V = MatchDetailView;

    open spec fn view(&self) -> MatchDetailView {
        MatchDetailView {
            app: self.app@,
            child_name: self.child_name@,
            tag: self.tag@,
            mean: self.mean@,
            level: self.level@,
            regex_captures: opt_captures_view(self.regex_captures),
        }
    }
}

pub open spec fn details_view(v: Seq<MatchDetail>) -> Seq<MatchDetailView> {
    v.map_values(|d: MatchDetail| d@)
}

impl View for MatchResult {
    type V = MatchResultView;

    open spec fn view(&self) -> MatchResultView {
        MatchResultView {
            line: self.line@,
            line_number: self.line_number,
            matches: details_view(self.matches@),
        }
    }
}

pub open spec fn results_view(v: Seq<MatchResult>) -> Seq<MatchResultView> {
    v.map_values(|r: MatchResult| r@)
}

impl MatchDetail {
    /// A copy of the detail.
    pub fn duplicate(&self) -> (d: MatchDetail)
        ensures
            d@ == self@,
    {
        MatchDetail {
            app: self.app.clone(),
            child_name: self.child_name.clone(),
            tag: self.tag.clone(),
            mean: self.mean.clone(),
            level: self.level.clone(),
            regex_captures: clone_opt_captures(&self.regex_captures),
        }
    }
}

impl MatchResult {
    /// A copy of the result.
    pub fn duplicate(&self) -> (r: MatchResult)
        ensures
            r@ == self@,
    {
        let mut matches: Vec<MatchDetail> = Vec::new();
        let mut i: usize = 0;
        while i < self.matches.len()
            invariant
                0 <= i <= self.matches@.len(),
                matches@.len() == i,
                details_view(matches@) == details_view(self.matches@).take(i as int),
            decreases self.matches@.len() - i,
        {
            let d = self.matches[i].duplicate();
            let ghost prev = matches@;
            matches.push(d);
            proof {
                assert(matches@ == prev.push(d));
                assert(matches@[i as int] == d);
                assert(details_view(matches@)[i as int] == d@);
                assert(details_view(matches@) =~= details_view(self.matches@).take(i + 1));
            }
            i = i + 1;
        }
        assert(details_view(self.matches@).take(i as int) =~= details_view(self.matches@));
        MatchResult { line: self.line.clone(), line_number: self.line_number, matches }
    }
}

// ---------------------------------------------------------------------------
// What a rule matches
// ---------------------------------------------------------------------------
/// Every key occurs in the line.
pub open spec fn all_occur(keys: Seq<Seq<char>>, line: Seq<char>) -> bool {
    forall|i: int| 0 <= i < keys.len() ==> is_substring(#[trigger] keys[i], line)
}

/// No ignore word occurs in the line.
pub open spec fn none_occur(ignores: Seq<Seq<char>>, line: Seq<char>) -> bool {
    forall|i: int| 0 <= i < ignores.len() ==> !is_substring(#[trigger] ignores[i], line)
}

/// A rule matches a line: by its compiled regex when it has one, otherwise by
/// its keys and ignores.
pub open spec fn rule_hits(rule: MsgRule, line: Seq<char>) -> bool {
    match rule.compiled_regex {
        Some(re) => regex_is_match(re.pattern(), line),
        None => all_occur(strs_view(rule.keys@), line) && none_occur(strs_view(rule.ignores@), line),
    }
}

/// The named groups of a match: each name paired with the text of its group,
/// for the groups that took part (a later name wins over an earlier equal one).
pub open spec fn named_captures(names: Seq<Option<Seq<char>>>, groups: Seq<Option<Seq<char>>>) -> Map<
    Seq<char>,
    Seq<char>,
>
    decreases names.len(),
{
    if names.len() == 0 {
        Map::empty()
    } else {
        let rest = named_captures(names.drop_last(), groups);
        let i = names.len() - 1;
        if names[i] is Some && i < groups.len() && groups[i] is Some {
            rest.insert(names[i]->Some_0, groups[i]->Some_0)
        } else {
            rest
        }
    }
}

/// The named captures of the regex `pattern` on `line`.
pub open spec fn rule_captures(pattern: Seq<char>, line: Seq<char>) -> Map<Seq<char>, Seq<char>> {
    named_captures(regex_capture_names(pattern), regex_captures(pattern, line)->Some_0)
}

/// The detail reported when `rule` of a child (named `child_name`, with tag
/// `tag`, in category `app`) matches `line`. A regex rule reports its named
/// captures; with `compact`, an empty map of captures is left out.
pub open spec fn detail_fields(
    app: Seq<char>,
    child_name: Seq<char>,
    tag: Seq<char>,
    rule: MsgRule,
    line: Seq<char>,
    compact: bool,
) -> MatchDetailView {
    MatchDetailView {
        app: app,
        child_name: child_name,
        tag: tag,
        mean: rule.mean@,
        level: rule.level@,
        regex_captures: match rule.compiled_regex {
            Some(re) => if compact && rule_captures(re.pattern(), line).dom() == Set::<
                Seq<char>,
            >::empty() {
                None
            } else {
                Some(rule_captures(re.pattern(), line))
            },
            None => None,
        },
    }
}

/// The detail reported when `rule` of `child` (in category `app`) matches `line`.
pub open spec fn detail_of(app: Seq<char>, child: Child, rule: MsgRule, line: Seq<char>, compact: bool) -> MatchDetailView {
    detail_fields(app, child.name@, child.tag@, rule, line, compact)
}

/// The details of the first `n` rules of a child that match `line`, in rule order.
pub open spec fn rules_details(app: Seq<char>, child: Child, n: int, line: Seq<char>, compact: bool) -> Seq<
    MatchDetailView,
>
    decreases n,
{
    if n <= 0 {
        Seq::empty()
    } else {
        let rest = rules_details(app, child, n - 1, line, compact);
        let rule = child.msgs@[n - 1];
        if rule_hits(rule, line) {
            rest.push(detail_of(app, child, rule, line, compact))
        } else {
            rest
        }
    }
}

/// The details of all rules of the child at `pos` that match `line`.
pub open spec fn child_details(cfg: LogConfig, pos: (usize, usize), line: Seq<char>, compact: bool) -> Seq<
    MatchDetailView,
> {
    let cat = cfg.categories@[pos.0 as int];
    let child = cat.children@[pos.1 as int];
    rules_details(cat.app@, child, child.msgs@.len() as int, line, compact)
}

/// The details of the children at `ps`, child after child.
pub open spec fn positions_details(cfg: LogConfig, ps: Seq<(usize, usize)>, line: Seq<char>, compact: bool) -> Seq<
    MatchDetailView,
>
    decreases ps.len(),
{
    if ps.len() == 0 {
        Seq::empty()
    } else {
        positions_details(cfg, ps.drop_last(), line, compact) + child_details(cfg, ps.last(), line, compact)
    }
}

// ---------------------------------------------------------------------------
// The Aho-Corasick automaton over the tags
// ---------------------------------------------------------------------------
#[verifier::external_type_specification]
#[verifier::external_body]
pub struct ExAhoCorasick(aho_corasick::AhoCorasick);

#[verifier::external_type_specification]
#[verifier::external_body]
pub struct ExBuildError(aho_corasick::BuildError);

/// Whether `aho_corasick::AhoCorasick::new` builds an automaton for the patterns.
pub uninterp spec fn ac_builds(patterns: Seq<Seq<char>>) -> bool;

/// An automaton over a list of tags, with the list it was built from. The
/// fields are private and `build` is the only constructor, so pattern `i` of
/// the automaton is always `tag_list[i]`.
pub struct TagAutomaton {
    automaton: aho_corasick::AhoCorasick,
    tag_list: Vec<String>,
}

impl TagAutomaton {
    /// The tags, in pattern order.
    pub closed spec fn tags(&self) -> Seq<Seq<char>> {
        strs_view(self.tag_list@)
    }

    /// `AhoCorasick::new` on the tags. Claims: the result is `Ok` exactly when
    /// the crate builds the automaton (named `ac_builds`), and an `Ok` value
    /// keeps the tags in the order given.
    #[verifier::external_body]
    pub(crate) fn build(tags: Vec<String>) -> (r: Result<TagAutomaton, aho_corasick::BuildError>)
        ensures
            r.is_ok() == ac_builds(strs_view(tags@)),
            r matches Ok(a) ==> a.tags() == strs_view(tags@),
    {
        aho_corasick::AhoCorasick::new(&tags).map(|automaton| TagAutomaton { automaton, tag_list: tags })
    }

    /// The pattern index of each match that `AhoCorasick::find_overlapping_iter`
    /// reports on the line. Claims what the crate documents of that search
    /// (all possible matches at every position, under the default
    /// `MatchKind::Standard` that `build` uses): each index is a pattern index,
    /// and pattern `i` is reported exactly when it occurs in the line. The
    /// order and the repetitions of the indices are left unsaid.
    #[verifier::external_body]
    pub(crate) fn find_pattern_ids(&self, line: &str) -> (ids: Vec<usize>)
        ensures
            forall|k: int| 0 <= k < ids@.len() ==> (#[trigger] ids@[k] as int) < self.tags().len(),
            forall|i: int|
                0 <= i < self.tags().len() ==> (ids@.contains(i as usize) <==> is_substring(
                    #[trigger] self.tags()[i],
                    line@,
                )),
    {
        self.automaton.find_overlapping_iter(line).map(|m| m.pattern().as_usize()).collect()
    }

    /// The tag of pattern `id`.
    pub fn tag(&self, id: usize) -> (t: &String)
        requires
            id < self.tags().len(),
        ensures
            t@ == self.tags()[id as int],
    {
        &self.tag_list[id]
    }

    /// The number of tags.
    pub fn len(&self) -> (n: usize)
        ensures
            n == self.tags().len(),
    {
        self.tag_list.len()
    }
}

/// The tag count from which the matcher pre-filters with Aho-Corasick.
pub const AC_THRESHOLD: usize = 50;

/// The tags of the configuration that occur in `line`.
pub open spec fn tags_in_line(cfg: LogConfig, line: Seq<char>) -> Set<Seq<char>> {
    Set::new(|t: Seq<char>| all_tags(cfg).contains(t) && is_substring(t, line))
}

/// The automaton can be built over the sorted tags whenever the matcher needs it.
pub open spec fn ac_buildable(cfg: LogConfig) -> bool {
    all_tags(cfg).len() >= AC_THRESHOLD ==> forall|s: Seq<Seq<char>>|
        strictly_sorted(s) && s.to_set() == all_tags(cfg) ==> #[trigger] ac_builds(s)
}

/// A high-throughput log matcher.
pub struct LogMatcher {
    config: Arc<LogConfig>,
    /// tag -> positions (category, child) of the children with that tag
    tag_index: AHashMap<String, Vec<(usize, usize)>>,
    /// the automaton over the tags, present when there are many tags
    ac_automaton: Option<TagAutomaton>,
    use_aho_corasick: bool,
    /// pool of strings for reuse
    string_pool: StringPool,
    /// pool of detail vectors for reuse
    vec_pool: VecPool<MatchDetail>,
}

impl LogMatcher {
    #[verifier::type_invariant]
    spec fn inv(self) -> bool {
        &&& tag_index_contents(self.tag_index) == tag_index_of(*self.config)
        &&& self.use_aho_corasick == (all_tags(*self.config).len() >= AC_THRESHOLD)
        &&& match self.ac_automaton {
            Some(a) => self.use_aho_corasick && strictly_sorted(a.tags()) && a.tags().to_set()
                == all_tags(*self.config),
            None => !self.use_aho_corasick,
        }
    }

    /// The configuration the matcher was built from.
    pub closed spec fn config(&self) -> LogConfig {
        *self.config
    }

    /// Whether the tag pre-filter runs on the Aho-Corasick automaton.
    pub closed spec fn uses_ac(&self) -> bool {
        self.use_aho_corasick
    }

    /// The automaton's tags, in pattern order (empty without an automaton).
    pub closed spec fn tag_list(&self) -> Seq<Seq<char>> {
        match self.ac_automaton {
            Some(a) => a.tags(),
            None => Seq::empty(),
        }
    }

    /// The tags that the pre-filter finds in `line`: in both modes, every tag
    /// of the configuration that occurs in the line.
    pub open spec fn selected_tags(&self, line: Seq<char>) -> Set<Seq<char>> {
        tags_in_line(self.config(), line)
    }
}

// ---------------------------------------------------------------------------
// The tag index
// ---------------------------------------------------------------------------
/// The positions (category, child) of the first `i` categories, in reading order.
pub open spec fn positions_upto(cfg: LogConfig, i: int) -> Seq<(usize, usize)>
    decreases i,
{
    if i <= 0 {
        Seq::empty()
    } else {
        positions_upto(cfg, i - 1) + Seq::new(
            cfg.categories@[i - 1].children@.len(),
            |j: int| ((i - 1) as usize, j as usize),
        )
    }
}

/// The positions of all children, in reading order.
pub open spec fn all_positions(cfg: LogConfig) -> Seq<(usize, usize)> {
    positions_upto(cfg, cfg.categories@.len() as int)
}

/// The tag of the child at `p`.
pub open spec fn tag_at(cfg: LogConfig, p: (usize, usize)) -> Seq<char> {
    cfg.categories@[p.0 as int].children@[p.1 as int].tag@
}

/// The positions of the children that carry tag `t`, in reading order.
pub open spec fn tag_positions(cfg: LogConfig, t: Seq<char>) -> Seq<(usize, usize)> {
    all_positions(cfg).filter(|p: (usize, usize)| tag_at(cfg, p) == t)
}

/// The details that the children with tag `t` report for `line`.
pub open spec fn tag_details(cfg: LogConfig, t: Seq<char>, line: Seq<char>, compact: bool) -> Seq<MatchDetailView> {
    positions_details(cfg, tag_positions(cfg, t), line, compact)
}

/// The details reported for `line` when the tags are taken in the order `tags`.
pub open spec fn tags_details(cfg: LogConfig, tags: Seq<Seq<char>>, line: Seq<char>, compact: bool) -> Seq<
    MatchDetailView,
>
    decreases tags.len(),
{
    if tags.len() == 0 {
        Seq::empty()
    } else {
        tags_details(cfg, tags.drop_last(), line, compact) + tag_details(cfg, tags.last(), line, compact)
    }
}

/// The tag index of a configuration: each tag to the positions of its children.
pub open spec fn tag_index_of(cfg: LogConfig) -> Map<Seq<char>, Seq<(usize, usize)>> {
    Map::new(|t: Seq<char>| all_tags(cfg).contains(t), |t: Seq<char>| tag_positions(cfg, t))
}

/// What the tag index holds.
pub uninterp spec fn tag_index_contents(m: AHashMap<String, Vec<(usize, usize)>>) -> Map<
    Seq<char>,
    Seq<(usize, usize)>,
>;

/// `AHashMap::new`. Claims: the new map is empty.
#[verifier::external_body]
fn tag_index_new() -> (m: AHashMap<String, Vec<(usize, usize)>>)
    ensures
        tag_index_contents(m).dom() == Set::<Seq<char>>::empty(),
{
    AHashMap::new()
}

/// `AHashMap::remove`. Claims: the value held for the key, if any, is handed
/// out and the key is gone.
#[verifier::external_body]
fn tag_index_remove(m: &mut AHashMap<String, Vec<(usize, usize)>>, k: &str) -> (v: Option<
    Vec<(usize, usize)>,
>)
    ensures
        tag_index_contents(*final(m)) == tag_index_contents(*old(m)).remove(k@),
        v matches Some(x) ==> tag_index_contents(*old(m)).contains_key(k@) && x@
            == tag_index_contents(*old(m))[k@],
        v is None ==> !tag_index_contents(*old(m)).contains_key(k@),
{
    m.remove(k)
}

/// `AHashMap::insert`. Claims: the key now maps to the value, the rest is kept.
#[verifier::external_body]
fn tag_index_insert(m: &mut AHashMap<String, Vec<(usize, usize)>>, k: String, v: Vec<(usize, usize)>)
    ensures
        tag_index_contents(*final(m)) == tag_index_contents(*old(m)).insert(k@, v@),
{
    m.insert(k, v);
}

/// `AHashMap::get`. Claims: the value held for the key, if any.
#[verifier::external_body]
fn tag_index_get<'a>(m: &'a AHashMap<String, Vec<(usize, usize)>>, k: &str) -> (v: Option<
    &'a Vec<(usize, usize)>,
>)
    ensures
        v matches Some(x) ==> tag_index_contents(*m).contains_key(k@) && x@ == tag_index_contents(
            *m,
        )[k@],
        v is None ==> !tag_index_contents(*m).contains_key(k@),
{
    m.get(k)
}

/// `HashMap::len` on an `AHashMap`. Claims: the number of keys.
#[verifier::external_body]
fn tag_index_len(m: &AHashMap<String, Vec<(usize, usize)>>) -> (n: usize)
    ensures
        n == tag_index_contents(*m).dom().len(),
{
    m.len()
}

/// The keys, cloned in the order `HashMap::keys` walks them. Claims: each key
/// comes out once and the list holds exactly the keys; the order is left
/// unsaid, as the hasher is seeded per process.
#[verifier::external_body]
fn tag_index_keys(m: &AHashMap<String, Vec<(usize, usize)>>) -> (ks: Vec<String>)
    ensures
        strs_view(ks@).no_duplicates(),
        strs_view(ks@).to_set() == tag_index_contents(*m).dom(),
{
    m.keys().cloned().collect()
}

proof fn lemma_positions_upto_valid(cfg: LogConfig, i: int, k: int)
    requires
        0 <= i <= cfg.categories@.len(),
        0 <= k < positions_upto(cfg, i).len(),
    ensures
        (positions_upto(cfg, i)[k].0 as int) < i,
        (positions_upto(cfg, i)[k].1 as int) < cfg.categories@[positions_upto(
            cfg,
            i,
        )[k].0 as int].children@.len(),
    decreases i,
{
    if i > 0 {
        let prev = positions_upto(cfg, i - 1);
        if k < prev.len() {
            lemma_positions_upto_valid(cfg, i - 1, k);
        } else {
            assert(cfg.categories.len() == cfg.categories@.len());
            assert(cfg.categories@[i - 1].children.len() == cfg.categories@[i - 1].children@.len());
        }
    }
}

/// Every position of the configuration names a child.
pub proof fn lemma_all_positions_valid(cfg: LogConfig, k: int)
    requires
        0 <= k < all_positions(cfg).len(),
    ensures
        (all_positions(cfg)[k].0 as int) < cfg.categories@.len(),
        (all_positions(cfg)[k].1 as int) < cfg.categories@[all_positions(
            cfg,
        )[k].0 as int].children@.len(),
{
    lemma_positions_upto_valid(cfg, cfg.categories@.len() as int, k);
}

proof fn lemma_positions_upto_has(cfg: LogConfig, i: int, a: int, b: int)
    requires
        0 <= a < i <= cfg.categories@.len(),
        0 <= b < cfg.categories@[a].children@.len(),
    ensures
        positions_upto(cfg, i).contains((a as usize, b as usize)),
    decreases i,
{
    let prev = positions_upto(cfg, i - 1);
    assert(cfg.categories.len() == cfg.categories@.len());
    assert(cfg.categories@[a].children.len() == cfg.categories@[a].children@.len());
    if a < i - 1 {
        lemma_positions_upto_has(cfg, i - 1, a, b);
        let k = choose|k: int| 0 <= k < prev.len() && prev[k] == (a as usize, b as usize);
        assert(positions_upto(cfg, i)[k] == (a as usize, b as usize));
    } else {
        assert(positions_upto(cfg, i)[prev.len() + b] == (a as usize, b as usize));
    }
}

/// A tag belongs to the configuration exactly when some position carries it.
pub proof fn lemma_tag_positions_nonempty(cfg: LogConfig, t: Seq<char>)
    ensures
        all_tags(cfg).contains(t) <==> tag_positions(cfg, t).len() > 0,
{
    let pred = |p: (usize, usize)| tag_at(cfg, p) == t;
    let ps = all_positions(cfg);
    if has_tag(cfg, t) {
        let (i, j) = choose|i: int, j: int|
            0 <= i < cfg.categories@.len() && 0 <= j < cfg.categories@[i].children@.len()
                && (#[trigger] cfg.categories@[i].children@[j]).tag@ == t;
        lemma_positions_upto_has(cfg, cfg.categories@.len() as int, i, j);
        assert(cfg.categories.len() == cfg.categories@.len());
        assert(cfg.categories@[i].children.len() == cfg.categories@[i].children@.len());
        let k = choose|k: int| 0 <= k < ps.len() && ps[k] == (i as usize, j as usize);
        ps.lemma_filter_contains(pred, k);
    }
    if tag_positions(cfg, t).len() > 0 {
        let q = tag_positions(cfg, t)[0];
        ps.lemma_filter_pred(pred, 0);
        assert(ps.filter(pred).contains(q));
        ps.lemma_filter_contains_rev(pred, q);
        let k = choose|k: int| 0 <= k < ps.len() && ps[k] == q;
        lemma_all_positions_valid(cfg, k);
        assert(cfg.categories@[q.0 as int].children@[q.1 as int].tag@ == t);
    }
}

/// The index of the positions `ps`: each tag that some of them carry, to those
/// positions in order.
pub open spec fn prefix_index(cfg: LogConfig, ps: Seq<(usize, usize)>) -> Map<
    Seq<char>,
    Seq<(usize, usize)>,
> {
    Map::new(
        |t: Seq<char>| ps.filter(|p: (usize, usize)| tag_at(cfg, p) == t).len() > 0,
        |t: Seq<char>| ps.filter(|p: (usize, usize)| tag_at(cfg, p) == t),
    )
}

proof fn lemma_prefix_index_step(cfg: LogConfig, ps: Seq<(usize, usize)>, p: (usize, usize))
    ensures
        ({
            let old_m = prefix_index(cfg, ps);
            let t0 = tag_at(cfg, p);
            let prev = if old_m.contains_key(t0) {
                old_m[t0]
            } else {
                Seq::empty()
            };
            old_m.insert(t0, prev.push(p)) == prefix_index(cfg, ps.push(p))
        }),
{
    let old_m = prefix_index(cfg, ps);
    let t0 = tag_at(cfg, p);
    let prev = if old_m.contains_key(t0) {
        old_m[t0]
    } else {
        Seq::empty()
    };
    let new_m = prefix_index(cfg, ps.push(p));
    assert forall|t: Seq<char>| #[trigger] new_m.contains_key(t) == old_m.insert(t0, prev.push(p)).contains_key(t) && (new_m.contains_key(t) ==> new_m[t] == old_m.insert(t0, prev.push(p))[t]) by {
        let pred = |q: (usize, usize)| tag_at(cfg, q) == t;
        ps.lemma_filter_push(p, pred);
        if t == t0 {
            if !old_m.contains_key(t0) {
                assert(ps.filter(pred) =~= Seq::<(usize, usize)>::empty());
            }
        }
    }
    assert(new_m =~= old_m.insert(t0, prev.push(p)));
}

proof fn lemma_prefix_index_all(cfg: LogConfig)
    ensures
        prefix_index(cfg, all_positions(cfg)) == tag_index_of(cfg),
{
    let m = prefix_index(cfg, all_positions(cfg));
    assert forall|t: Seq<char>| #[trigger] m.contains_key(t) == tag_index_of(cfg).contains_key(t) by {
        lemma_tag_positions_nonempty(cfg, t);
    }
    assert(m =~= tag_index_of(cfg));
}

impl LogMatcher {
    /// Builds the tag index: each tag to the positions (category, child) that
    /// carry it, in reading order.
    fn build_tag_index(config: &LogConfig) -> (index: AHashMap<String, Vec<(usize, usize)>>)
        ensures
            tag_index_contents(index) == tag_index_of(*config),
    {
        let mut index = tag_index_new();
        let n = config.categories.len();
        let mut i: usize = 0;
        proof {
            assert(tag_index_contents(index) =~= prefix_index(*config, positions_upto(*config, 0)));
        }
        while i < n
            invariant
                n == config.categories@.len(),
                0 <= i <= n,
                tag_index_contents(index) == prefix_index(*config, positions_upto(*config, i as int)),
            decreases n - i,
        {
            let category = &config.categories[i];
            let m = category.children.len();
            let mut j: usize = 0;
            proof {
                assert(positions_upto(*config, i as int) + Seq::new(0, |k: int| (i, k as usize)) =~= positions_upto(*config, i as int));
            }
            while j < m
                invariant
                    n == config.categories@.len(),
                    0 <= i < n,
                    *category == config.categories@[i as int],
                    m == category.children@.len(),
                    0 <= j <= m,
                    tag_index_contents(index) == prefix_index(
                        *config,
                        positions_upto(*config, i as int) + Seq::new(j as nat, |k: int| (i, k as usize)),
                    ),
                decreases m - j,
            {
                let tag = &category.children[j].tag;
                let ghost ps = positions_upto(*config, i as int) + Seq::new(j as nat, |k: int| (i, k as usize));
                proof {
                    lemma_prefix_index_step(*config, ps, (i, j));
                    assert(ps.push((i, j)) =~= positions_upto(*config, i as int) + Seq::new((j + 1) as nat, |k: int| (i, k as usize)));
                }
                let mut positions = match tag_index_remove(&mut index, tag.as_str()) {
                    Some(v) => v,
                    None => Vec::new(),
                };
                positions.push((i, j));
                tag_index_insert(&mut index, tag.clone(), positions);
                j = j + 1;
            }
            proof {
                assert(positions_upto(*config, i as int) + Seq::new(m as nat, |k: int| (i, k as usize)) =~= positions_upto(*config, i + 1));
            }
            i = i + 1;
        }
        proof {
            lemma_prefix_index_all(*config);
        }
        index
    }
}

/// Whether every key occurs in the line.
fn all_keys_occur(keys: &Vec<String>, line: &str) -> (b: bool)
    ensures
        b == all_occur(strs_view(keys@), line@),
{
    let mut i: usize = 0;
    while i < keys.len()
        invariant
            0 <= i <= keys@.len(),
            forall|k: int| 0 <= k < i ==> is_substring(#[trigger] strs_view(keys@)[k], line@),
        decreases keys@.len() - i,
    {
        if !str_contains(line, keys[i].as_str()) {
            assert(!is_substring(strs_view(keys@)[i as int], line@));
            return false;
        }
        i = i + 1;
    }
    true
}

/// Whether some ignore word occurs in the line.
fn any_ignore_occurs(ignores: &Vec<String>, line: &str) -> (b: bool)
    ensures
        b == !none_occur(strs_view(ignores@), line@),
{
    let mut i: usize = 0;
    while i < ignores.len()
        invariant
            0 <= i <= ignores@.len(),
            forall|k: int| 0 <= k < i ==> !is_substring(#[trigger] strs_view(ignores@)[k], line@),
        decreases ignores@.len() - i,
    {
        if str_contains(line, ignores[i].as_str()) {
            assert(is_substring(strs_view(ignores@)[i as int], line@));
            return true;
        }
        i = i + 1;
    }
    false
}

/// The map of named captures: each group name paired with its group's text.
fn collect_named_captures(names: &Vec<Option<String>>, groups: &Vec<Option<String>>) -> (m: AHashMap<
    String,
    String,
>)
    ensures
        captures_contents(m) == named_captures(opt_strs_view(names@), opt_strs_view(groups@)),
{
    let mut m = captures_new();
    let ghost nv = opt_strs_view(names@);
    let ghost gv = opt_strs_view(groups@);
    proof {
        assert(captures_contents(m) =~= named_captures(nv.take(0), gv));
    }
    let mut i: usize = 0;
    while i < names.len()
        invariant
            0 <= i <= names@.len(),
            nv == opt_strs_view(names@),
            gv == opt_strs_view(groups@),
            captures_contents(m) == named_captures(nv.take(i as int), gv),
        decreases names@.len() - i,
    {
        proof {
            assert(nv.take(i + 1).drop_last() =~= nv.take(i as int));
        }
        if i < groups.len() {
            match (&names[i], &groups[i]) {
                (Some(name), Some(text)) => {
                    captures_insert(&mut m, name.clone(), text.clone());
                },
                _ => {},
            }
        }
        i = i + 1;
    }
    proof {
        assert(nv.take(names@.len() as int) =~= nv);
    }
    m
}

impl LogMatcher {
    /// Tests one rule against a line: by its compiled regex when it has one
    /// (with the named captures of the match), otherwise by its keys and ignores.
    fn match_rule(&self, line: &str, app: &str, child: &Child, rule: &MsgRule) -> (r: Option<
        MatchDetail,
    >)
        ensures
            r.is_some() == rule_hits(*rule, line@),
            r matches Some(d) ==> d@ == detail_of(app@, *child, *rule, line@, false),
    {
        match &rule.compiled_regex {
            Some(regex) => {
                match regex.captures(line) {
                    Some(groups) => {
                        let names = regex.capture_names();
                        let regex_captures = collect_named_captures(&names, &groups);
                        Some(
                            MatchDetail {
                                app: app.to_string(),
                                child_name: child.name.clone(),
                                tag: child.tag.clone(),
                                mean: rule.mean.clone(),
                                level: rule.level.clone(),
                                regex_captures: Some(regex_captures),
                            },
                        )
                    },
                    None => None,
                }
            },
            None => {
                let all_keys_match = rule.keys.len() == 0 || all_keys_occur(&rule.keys, line);
                let no_ignores_match = rule.ignores.len() == 0 || !any_ignore_occurs(
                    &rule.ignores,
                    line,
                );
                if all_keys_match && no_ignores_match {
                    Some(
                        MatchDetail {
                            app: app.to_string(),
                            child_name: child.name.clone(),
                            tag: child.tag.clone(),
                            mean: rule.mean.clone(),
                            level: rule.level.clone(),
                            regex_captures: None,
                        },
                    )
                } else {
                    None
                }
            },
        }
    }
}

/// What `LogMatcher::new` promises of the matcher it builds from `cfg`.
pub open spec fn built_from(m: LogMatcher, cfg: LogConfig) -> bool {
    &&& m.config() == cfg
    &&& m.uses_ac() == (all_tags(cfg).len() >= AC_THRESHOLD)
    &&& m.uses_ac() ==> strictly_sorted(m.tag_list()) && m.tag_list().to_set() == all_tags(cfg)
    &&& !m.uses_ac() ==> m.tag_list() == Seq::<Seq<char>>::empty()
}

impl LogMatcher {
    fn assemble(config: LogConfig) -> (r: Option<LogMatcher>)
        ensures
            r matches Some(m) ==> built_from(m, config),
            r is None ==> !ac_buildable(config),
    {
        let tag_index = Self::build_tag_index(&config);
        assert(tag_index_contents(tag_index).dom() =~= all_tags(config));
        let tag_count = tag_index_len(&tag_index);
        let use_aho_corasick = tag_count >= AC_THRESHOLD;
        if use_aho_corasick {
            let tags = sorted_unique(tag_index_keys(&tag_index));
            let ghost tv = strs_view(tags@);
            match TagAutomaton::build(tags) {
                Ok(ac) => {
                    Some(
                        LogMatcher {
                            config: Arc::new(config),
                            tag_index,
                            ac_automaton: Some(ac),
                            use_aho_corasick: true,
                            string_pool: StringPool::new(1000),
                            vec_pool: VecPool::new(500),
                        },
                    )
                },
                Err(_) => {
                    assert(!ac_builds(tv));
                    None
                },
            }
        } else {
            Some(
                LogMatcher {
                    config: Arc::new(config),
                    tag_index,
                    ac_automaton: None,
                    use_aho_corasick: false,
                    string_pool: StringPool::new(1000),
                    vec_pool: VecPool::new(500),
                },
            )
        }
    }

    /// Builds the matcher: the tag index of the configuration and, when there
    /// are at least `AC_THRESHOLD` distinct tags, the Aho-Corasick automaton
    /// over them (in sorted order).
    pub fn new(config: LogConfig) -> (m: Self)
        requires
            ac_buildable(config),
        ensures
            built_from(m, config),
    {
        match Self::assemble(config) {
            Some(m) => m,
            None => unreached(),
        }
    }

    /// Builds the matcher when the automaton it needs can be built, and gives
    /// `None` otherwise.
    pub fn try_new(config: LogConfig) -> (r: Option<Self>)
        ensures
            r is Some <==> ac_buildable(config),
            r matches Some(m) ==> built_from(m, config),
    {
        let tag_index = Self::build_tag_index(&config);
        assert(tag_index_contents(tag_index).dom() =~= all_tags(config));
        if tag_index_len(&tag_index) >= AC_THRESHOLD {
            let tags = sorted_unique(tag_index_keys(&tag_index));
            let ghost tv = strs_view(tags@);
            match TagAutomaton::build(tags) {
                Ok(_) => {
                    proof {
                        assert forall|s2: Seq<Seq<char>>|
                            strictly_sorted(s2) && s2.to_set() == all_tags(config) implies #[trigger] ac_builds(s2) by {
                            lemma_strictly_sorted_unique(s2, tv);
                        }
                    }
                },
                Err(_) => {
                    return None;
                },
            }
        }
        Some(Self::new(config))
    }

    /// The number of distinct tags.
    pub fn get_tag_count(&self) -> (n: usize)
        ensures
            n == all_tags(self.config()).len(),
    {
        proof {
            use_type_invariant(self);
            assert(tag_index_contents(self.tag_index).dom() =~= all_tags(*self.config));
        }
        tag_index_len(&self.tag_index)
    }

    /// Whether the tag pre-filter runs on the Aho-Corasick automaton.
    pub fn is_ac_enabled(&self) -> (b: bool)
        ensures
            b == self.uses_ac(),
    {
        self.use_aho_corasick
    }
}

/// Every position listed under a tag names a child that carries that tag.
pub proof fn lemma_tag_positions_valid(cfg: LogConfig, t: Seq<char>, k: int)
    requires
        0 <= k < tag_positions(cfg, t).len(),
    ensures
        (tag_positions(cfg, t)[k].0 as int) < cfg.categories@.len(),
        (tag_positions(cfg, t)[k].1 as int) < cfg.categories@[tag_positions(
            cfg,
            t,
        )[k].0 as int].children@.len(),
        tag_at(cfg, tag_positions(cfg, t)[k]) == t,
{
    let pred = |p: (usize, usize)| tag_at(cfg, p) == t;
    let ps = all_positions(cfg);
    let q = ps.filter(pred)[k];
    ps.lemma_filter_pred(pred, k);
    assert(ps.filter(pred).contains(q));
    ps.lemma_filter_contains_rev(pred, q);
    let i = choose|i: int| 0 <= i < ps.len() && ps[i] == q;
    lemma_all_positions_valid(cfg, i);
}

/// The positions all name children of the configuration.
pub open spec fn positions_valid(cfg: LogConfig, ps: Seq<(usize, usize)>) -> bool {
    forall|k: int|
        0 <= k < ps.len() ==> (#[trigger] ps[k].0 as int) < cfg.categories@.len() && (
        ps[k].1 as int) < cfg.categories@[ps[k].0 as int].children@.len()
}

impl LogMatcher {
    /// Appends the details that the children at `positions` report for `line`.
    fn match_positions(&self, line: &str, positions: &Vec<(usize, usize)>, matches: &mut Vec<MatchDetail>)
        requires
            positions_valid(self.config(), positions@),
        ensures
            details_view(final(matches)@) == details_view(old(matches)@) + positions_details(
                self.config(),
                positions@,
                line@,
                false,
            ),
    {
        let ghost cfg = self.config();
        let ghost base = details_view(matches@);
        let ghost ps = positions@;
        let mut k: usize = 0;
        proof {
            assert(ps.take(0) =~= Seq::<(usize, usize)>::empty());
            assert(details_view(matches@) =~= base + positions_details(cfg, ps.take(0), line@, false));
        }
        while k < positions.len()
            invariant
                cfg == self.config(),
                ps == positions@,
                positions_valid(cfg, ps),
                0 <= k <= ps.len(),
                details_view(matches@) == base + positions_details(cfg, ps.take(k as int), line@, false),
            decreases ps.len() - k,
        {
            let (ci, chi) = positions[k];
            let category = &self.config.categories[ci];
            let child = &category.children[chi];
            let ghost before = details_view(matches@);
            let mut r: usize = 0;
            proof {
                assert(before =~= before + rules_details(category.app@, *child, 0, line@, false));
            }
            while r < child.msgs.len()
                invariant
                    cfg == self.config(),
                    *category == cfg.categories@[ci as int],
                    *child == category.children@[chi as int],
                    0 <= r <= child.msgs@.len(),
                    details_view(matches@) == before + rules_details(category.app@, *child, r as int, line@, false),
                decreases child.msgs@.len() - r,
            {
                let rule = &child.msgs[r];
                let res = self.match_rule(line, category.app.as_str(), child, rule);
                let ghost prev = matches@;
                match res {
                    Some(detail) => {
                        matches.push(detail);
                        proof {
                            assert(details_view(matches@) =~= details_view(prev).push(detail@));
                        }
                    },
                    None => {},
                }
                proof {
                    assert(details_view(matches@) =~= before + rules_details(category.app@, *child, r + 1, line@, false));
                }
                r = r + 1;
            }
            proof {
                assert(ps.take(k + 1).drop_last() =~= ps.take(k as int));
                assert(ps.take(k + 1).last() == (ci, chi));
                assert(details_view(matches@) =~= base + positions_details(cfg, ps.take(k + 1), line@, false));
            }
            k = k + 1;
        }
        proof {
            assert(ps.take(ps.len() as int) =~= ps);
        }
    }

    /// The position lists of the tags that the pre-filter finds in `line`, with
    /// the order in which they were taken (the order the hash collections walk).
    fn select_tags<'a>(&'a self, line: &str) -> (r: (Vec<&'a Vec<(usize, usize)>>, Ghost<Seq<Seq<char>>>))
        ensures
            r.1@.no_duplicates(),
            r.1@.to_set() == self.selected_tags(line@),
            forall|t: Seq<char>| #[trigger] self.selected_tags(line@).contains(t) ==> is_substring(t, line@) && all_tags(self.config()).contains(t),
            r.0@.len() == r.1@.len(),
            forall|k: int| 0 <= k < r.1@.len() ==> (#[trigger] r.0@[k])@ == tag_positions(self.config(), r.1@[k]),
    {
        proof {
            use_type_invariant(self);
        }
        let ghost cfg = self.config();
        let mut selected: Vec<&'a Vec<(usize, usize)>> = Vec::new();
        let ghost mut order: Seq<Seq<char>> = Seq::empty();
        if self.use_aho_corasick {
            match &self.ac_automaton {
                Some(ac) => {
                    let ids = ac.find_pattern_ids(line);
                    let ghost tl = ac.tags();
                    let mut found = index_set_new();
                    let mut i: usize = 0;
                    while i < ids.len()
                        invariant
                            0 <= i <= ids@.len(),
                            index_set_contents(found) == ids@.take(i as int).to_set(),
                        decreases ids@.len() - i,
                    {
                        let id = ids[i];
                        index_set_insert(&mut found, id);
                        proof {
                            assert(id == ids@[i as int]);
                            assert(ids@.take(i + 1) =~= ids@.take(i as int) + seq![ids@[i as int]]);
                            Seq::<usize>::lemma_to_set_insert_commutes(ids@.take(i as int), ids@[i as int]);
                            assert(ids@.take(i + 1).to_set() == ids@.take(i as int).to_set().insert(id));
                            assert(index_set_contents(found) == ids@.take(i as int).to_set().insert(id));
                        }
                        i = i + 1;
                    }
                    proof {
                        assert(ids@.take(ids@.len() as int) =~= ids@);
                        lemma_strictly_sorted_no_duplicates(tl);
                    }
                    let elems = index_set_elements(&found);
                    proof {
                        assert forall|k: int| 0 <= k < elems@.len() implies (#[trigger] elems@[k] as int) < tl.len() by {
                            assert(elems@.to_set().contains(elems@[k]));
                            assert(ids@.to_set().contains(elems@[k]));
                            let k2 = choose|k2: int| 0 <= k2 < ids@.len() && ids@[k2] == elems@[k];
                            assert((ids@[k2] as int) < tl.len());
                        }
                    }
                    let n_tags = ac.len();
                    let mut e: usize = 0;
                    while e < elems.len()
                        invariant
                            tl.len() == n_tags,
                            cfg == self.config(),
                            tl == ac.tags(),
                            tl == self.tag_list(),
                            tl.no_duplicates(),
                            tl.to_set() == all_tags(cfg),
                            tag_index_contents(self.tag_index) == tag_index_of(cfg),
                            elems@.no_duplicates(),
                            elems@.to_set() == ids@.to_set(),
                            forall|i: int| 0 <= i < tl.len() ==> (ids@.contains(i as usize) <==> is_substring(#[trigger] tl[i], line@)),
                            forall|k: int| 0 <= k < ids@.len() ==> (#[trigger] ids@[k] as int) < tl.len(),
                            forall|k: int| 0 <= k < elems@.len() ==> (#[trigger] elems@[k] as int) < tl.len(),
                            0 <= e <= elems@.len(),
                            order.no_duplicates(),
                            forall|t: Seq<char>| order.contains(t) <==> exists|k: int| 0 <= k < e && tl[#[trigger] elems@[k] as int] == t,
                            selected@.len() == order.len(),
                            forall|k: int| 0 <= k < order.len() ==> (#[trigger] selected@[k])@ == tag_positions(cfg, order[k]),
                        decreases elems@.len() - e,
                    {
                        let id = elems[e];
                        proof {
                            assert(elems@.to_set().contains(id));
                            assert(ids@.to_set().contains(id));
                            let k = choose|k: int| 0 <= k < ids@.len() && ids@[k] == id;
                            assert((ids@[k] as int) < tl.len());
                        }
                        let tag = ac.tag(id);
                        proof {
                            assert(tl.to_set().contains(tl[id as int]));
                        }
                        match tag_index_get(&self.tag_index, tag.as_str()) {
                            Some(positions) => {
                                selected.push(positions);
                                proof {
                                    if order.contains(tag@) {
                                        let k = choose|k: int| 0 <= k < e && tl[#[trigger] elems@[k] as int] == tag@;
                                        assert(tl[elems@[k] as int] == tl[elems@[e as int] as int]);
                                        assert(elems@[k] == elems@[e as int]);
                                        assert(false);
                                    }
                                    let old_order = order;
                                    order = order.push(tag@);
                                    assert(order.drop_last() =~= old_order);
                                    lemma_push_no_duplicates(old_order, tag@);
                                    assert forall|t: Seq<char>| order.contains(t) <==> exists|k: int| 0 <= k < e + 1 && tl[#[trigger] elems@[k] as int] == t by {
                                        if order.contains(t) {
                                            let j = choose|j: int| 0 <= j < order.len() && order[j] == t;
                                            if j < old_order.len() {
                                                assert(old_order.contains(t));
                                            }
                                        }
                                        if exists|k: int| 0 <= k < e + 1 && tl[#[trigger] elems@[k] as int] == t {
                                            let k = choose|k: int| 0 <= k < e + 1 && tl[#[trigger] elems@[k] as int] == t;
                                            if k < e {
                                                assert(old_order.contains(t));
                                                let j = choose|j: int| 0 <= j < old_order.len() && old_order[j] == t;
                                                assert(order[j] == t);
                                            } else {
                                                assert(order[old_order.len() as int] == t);
                                            }
                                        }
                                    }
                                }
                            },
                            None => {
                                proof {
                                    assert(false);
                                }
                            },
                        }
                        e = e + 1;
                    }
                    proof {
                        assert forall|t: Seq<char>| order.to_set().contains(t) == self.selected_tags(line@).contains(t) by {
                            if order.contains(t) {
                                let k = choose|k: int| 0 <= k < e && tl[#[trigger] elems@[k] as int] == t;
                                let id = elems@[k];
                                assert(elems@.to_set().contains(id));
                                assert(ids@.to_set().contains(id));
                                assert(ids@.contains(id));
                                assert(is_substring(tl[id as int], line@));
                                assert(tl.to_set().contains(tl[id as int]));
                            }
                            if self.selected_tags(line@).contains(t) {
                                assert(all_tags(cfg).contains(t));
                                assert(tl.to_set().contains(t));
                                let i = choose|i: int| 0 <= i < tl.len() && tl[i] == t;
                                assert(is_substring(tl[i], line@));
                                assert(ids@.contains(i as usize));
                                assert(ids@.to_set().contains(i as usize));
                                assert(elems@.to_set().contains(i as usize));
                                let k = choose|k: int| 0 <= k < elems@.len() && elems@[k] == i as usize;
                                assert((i as usize) as int == i);
                                assert(tl[elems@[k] as int] == t);
                            }
                        }
                        assert(order.to_set() =~= self.selected_tags(line@));
                    }
                },
                None => {
                    proof {
                        assert(false);
                    }
                },
            }
        } else {
            let keys = tag_index_keys(&self.tag_index);
            let ghost kv = strs_view(keys@);
            let mut i: usize = 0;
            while i < keys.len()
                invariant
                    cfg == self.config(),
                    !self.uses_ac(),
                    kv == strs_view(keys@),
                    kv.no_duplicates(),
                    kv.to_set() == all_tags(cfg),
                    tag_index_contents(self.tag_index) == tag_index_of(cfg),
                    0 <= i <= keys@.len(),
                    order.no_duplicates(),
                    forall|t: Seq<char>| order.contains(t) <==> exists|k: int| 0 <= k < i && #[trigger] kv[k] == t && is_substring(t, line@),
                    selected@.len() == order.len(),
                            forall|k: int| 0 <= k < order.len() ==> (#[trigger] selected@[k])@ == tag_positions(cfg, order[k]),
                decreases keys@.len() - i,
            {
                let tag = &keys[i];
                if str_contains(line, tag.as_str()) {
                    proof {
                        assert(kv.to_set().contains(kv[i as int]));
                    }
                    match tag_index_get(&self.tag_index, tag.as_str()) {
                        Some(positions) => {
                            selected.push(positions);
                            proof {
                                if order.contains(tag@) {
                                    let k = choose|k: int| 0 <= k < i && #[trigger] kv[k] == tag@ && is_substring(tag@, line@);
                                    assert(kv[k] == kv[i as int]);
                                    assert(false);
                                }
                                let old_order = order;
                                order = order.push(tag@);
                                assert(order.drop_last() =~= old_order);
                                lemma_push_no_duplicates(old_order, tag@);
                                assert forall|t: Seq<char>| order.contains(t) <==> exists|k: int| 0 <= k < i + 1 && #[trigger] kv[k] == t && is_substring(t, line@) by {
                                    if order.contains(t) {
                                        let j = choose|j: int| 0 <= j < order.len() && order[j] == t;
                                        if j < old_order.len() {
                                            assert(old_order.contains(t));
                                        } else {
                                            assert(kv[i as int] == t);
                                        }
                                    }
                                    if exists|k: int| 0 <= k < i + 1 && #[trigger] kv[k] == t && is_substring(t, line@) {
                                        let k = choose|k: int| 0 <= k < i + 1 && #[trigger] kv[k] == t && is_substring(t, line@);
                                        if k < i {
                                            assert(old_order.contains(t));
                                            let j = choose|j: int| 0 <= j < old_order.len() && old_order[j] == t;
                                            assert(order[j] == t);
                                        } else {
                                            assert(order[old_order.len() as int] == t);
                                        }
                                    }
                                }
                            }
                        },
                        None => {
                            proof {
                                assert(false);
                            }
                        },
                    }
                } else {
                    proof {
                        assert forall|t: Seq<char>| order.contains(t) <==> exists|k: int| 0 <= k < i + 1 && #[trigger] kv[k] == t && is_substring(t, line@) by {
                            if exists|k: int| 0 <= k < i + 1 && #[trigger] kv[k] == t && is_substring(t, line@) {
                                let k = choose|k: int| 0 <= k < i + 1 && #[trigger] kv[k] == t && is_substring(t, line@);
                                assert(k < i);
                            }
                        }
                    }
                }
                i = i + 1;
            }
            proof {
                assert forall|t: Seq<char>| order.to_set().contains(t) == self.selected_tags(line@).contains(t) by {
                    if self.selected_tags(line@).contains(t) {
                        assert(kv.to_set().contains(t));
                        let k = choose|k: int| 0 <= k < kv.len() && kv[k] == t;
                    }
                }
                assert(order.to_set() =~= self.selected_tags(line@));
            }
        }
        (selected, Ghost(order))
    }

    /// Matches one line: the tags that the pre-filter finds in it select the
    /// children whose rules are tested; the result lists every rule that
    /// matched, or is `None` when none did. The tags are taken in the order the
    /// hash collections walk them, which is left open.
    pub fn match_line(&self, line: &str, line_number: usize) -> (r: Option<MatchResult>)
        ensures
            exists|order: Seq<Seq<char>>|
                {
                    &&& order.no_duplicates()
                    &&& order.to_set() == self.selected_tags(line@)
                    &&& #[trigger] matched_for(r, line@, line_number, tags_details(self.config(), order, line@, false))
                },
            forall|t: Seq<char>| #[trigger] self.selected_tags(line@).contains(t) ==> all_tags(self.config()).contains(t) && is_substring(t, line@),
            r matches Some(res) ==> forall|i: int| 0 <= i < res@.matches.len() ==> is_substring(#[trigger] res@.matches[i].tag, line@),
            (forall|t: Seq<char>| #[trigger] all_tags(self.config()).contains(t) ==> !is_substring(t, line@)) ==> r is None,
    {
        let ghost cfg = self.config();
        let (selected, Ghost(order)) = self.select_tags(line);
        let mut matches: Vec<MatchDetail> = Vec::new();
        let mut k: usize = 0;
        proof {
            assert(order.take(0) =~= Seq::<Seq<char>>::empty());
            assert(details_view(matches@) =~= tags_details(cfg, order.take(0), line@, false));
        }
        while k < selected.len()
            invariant
                cfg == self.config(),
                selected@.len() == order.len(),
                forall|j: int| 0 <= j < order.len() ==> (#[trigger] selected@[j])@ == tag_positions(cfg, order[j]),
                0 <= k <= order.len(),
                details_view(matches@) == tags_details(cfg, order.take(k as int), line@, false),
            decreases order.len() - k,
        {
            let positions = selected[k];
            proof {
                assert(positions@ == tag_positions(cfg, order[k as int]));
                assert forall|j: int| 0 <= j < positions@.len() implies (#[trigger] positions@[j].0 as int) < cfg.categories@.len() && (positions@[j].1 as int) < cfg.categories@[positions@[j].0 as int].children@.len() by {
                    lemma_tag_positions_valid(cfg, order[k as int], j);
                }
            }
            self.match_positions(line, positions, &mut matches);
            proof {
                assert(order.take(k + 1).drop_last() =~= order.take(k as int));
                assert(order.take(k + 1).last() == order[k as int]);
                assert(details_view(matches@) =~= tags_details(cfg, order.take(k + 1), line@, false));
            }
            k = k + 1;
        }
        proof {
            assert(order.take(order.len() as int) =~= order);
        }
        let r = if matches.len() == 0 {
            None
        } else {
            Some(MatchResult { line: line.to_string(), line_number, matches })
        };
        assert(matched_for(r, line@, line_number, tags_details(self.config(), order, line@, false)));
        proof {
            lemma_tags_details_tag(self.config(), order, line@, false);
            let ds = tags_details(self.config(), order, line@, false);
            assert forall|i: int| 0 <= i < ds.len() implies is_substring(#[trigger] ds[i].tag, line@) by {
                let j = choose|j: int| 0 <= j < order.len() && order[j] == ds[i].tag;
                assert(order.to_set().contains(order[j]));
            }
            if forall|t: Seq<char>| #[trigger] all_tags(self.config()).contains(t) ==> !is_substring(t, line@) {
                if order.len() > 0 {
                    assert(order.to_set().contains(order[0]));
                }
                assert(order.len() == 0);
            }
        }
        r
    }
}

proof fn lemma_push_no_duplicates<A>(s: Seq<A>, x: A)
    requires
        s.no_duplicates(),
        !s.contains(x),
    ensures
        s.push(x).no_duplicates(),
{
    let t = s.push(x);
    assert forall|i: int, j: int| 0 <= i < t.len() && 0 <= j < t.len() && i != j implies t[i] != t[j] by {
        if i == s.len() {
            assert(s[j] == t[j]);
        } else if j == s.len() {
            assert(s[i] == t[i]);
        }
    }
}

/// `r` is what matching a line reports when the selected children yield `details`.
pub open spec fn matched_for(r: Option<MatchResult>, line: Seq<char>, line_number: usize, details: Seq<MatchDetailView>) -> bool {
    match r {
        Some(res) => res@ == (MatchResultView { line: line, line_number: line_number, matches: details }) && details.len() > 0,
        None => details.len() == 0,
    }
}

/// `r` is what zero-copy matching of a line reports when the selected children yield `details`.
pub open spec fn matched_for_zero_copy<'a>(r: Option<MatchResultZeroCopy<'a>>, line: Seq<char>, line_number: usize, details: Seq<MatchDetailView>) -> bool {
    match r {
        Some(res) => res@ == (MatchResultView { line: line, line_number: line_number, matches: details }) && details.len() > 0,
        None => details.len() == 0,
    }
}

impl LogMatcher {
    /// Zero-copy form of the rule test: the detail borrows the rule's texts,
    /// and a regex rule reports its named captures only when there are some.
    fn match_rule_zero_copy<'a>(
        &self,
        line: &'a str,
        app: &'a str,
        child_name: &'a str,
        tag: &'a str,
        rule: &'a MsgRule,
    ) -> (r: Option<MatchDetailZeroCopy<'a>>)
        ensures
            r.is_some() == rule_hits(*rule, line@),
            r matches Some(d) ==> d@ == detail_fields(app@, child_name@, tag@, *rule, line@, true),
            r matches Some(d) ==> d.borrows_texts(),
    {
        match &rule.compiled_regex {
            Some(regex) => {
                if regex.is_match(line) {
                    let mut detail = MatchDetailZeroCopy::new(
                        app,
                        child_name,
                        tag,
                        rule.mean.as_str(),
                        rule.level.as_str(),
                    );
                    match regex.captures(line) {
                        Some(groups) => {
                            let names = regex.capture_names();
                            let regex_captures = collect_named_captures(&names, &groups);
                            if !captures_is_empty(&regex_captures) {
                                detail.regex_captures = Some(regex_captures);
                            }
                        },
                        None => {},
                    }
                    Some(detail)
                } else {
                    None
                }
            },
            None => {
                let all_keys_match = rule.keys.len() == 0 || all_keys_occur(&rule.keys, line);
                let no_ignores_match = rule.ignores.len() == 0 || !any_ignore_occurs(
                    &rule.ignores,
                    line,
                );
                if all_keys_match && no_ignores_match {
                    Some(
                        MatchDetailZeroCopy::new(
                            app,
                            child_name,
                            tag,
                            rule.mean.as_str(),
                            rule.level.as_str(),
                        ),
                    )
                } else {
                    None
                }
            },
        }
    }

    /// Appends to `result` the zero-copy details that the children at
    /// `positions` report for `line`.
    fn match_positions_zero_copy<'a>(
        &'a self,
        line: &'a str,
        positions: &Vec<(usize, usize)>,
        result: &mut MatchResultZeroCopy<'a>,
    )
        requires
            positions_valid(self.config(), positions@),
            old(result).details_borrowed(),
        ensures
            final(result)@ == (MatchResultView {
                line: old(result)@.line,
                line_number: old(result)@.line_number,
                matches: old(result)@.matches + positions_details(self.config(), positions@, line@, true),
            }),
            final(result).line == old(result).line,
            final(result).details_borrowed(),
    {
        let ghost cfg = self.config();
        let ghost start = result@;
        let ghost base = result@.matches;
        let ghost ps = positions@;
        let mut k: usize = 0;
        proof {
            assert(ps.take(0) =~= Seq::<(usize, usize)>::empty());
            assert(result@.matches =~= base + positions_details(cfg, ps.take(0), line@, true));
        }
        while k < positions.len()
            invariant
                cfg == self.config(),
                ps == positions@,
                positions_valid(cfg, ps),
                0 <= k <= ps.len(),
                result@.line == start.line,
                result@.line_number == start.line_number,
                result@.matches == base + positions_details(cfg, ps.take(k as int), line@, true),
                result.line == old(result).line,
                result.details_borrowed(),
            decreases ps.len() - k,
        {
            let (ci, chi) = positions[k];
            let category = &self.config.categories[ci];
            let child = &category.children[chi];
            let ghost before = result@.matches;
            let mut r: usize = 0;
            proof {
                assert(before =~= before + rules_details(category.app@, *child, 0, line@, true));
            }
            while r < child.msgs.len()
                invariant
                    cfg == self.config(),
                    *category == cfg.categories@[ci as int],
                    *child == category.children@[chi as int],
                    0 <= r <= child.msgs@.len(),
                    result@.line == start.line,
                    result@.line_number == start.line_number,
                    result@.matches == before + rules_details(category.app@, *child, r as int, line@, true),
                    result.line == old(result).line,
                    result.details_borrowed(),
                decreases child.msgs@.len() - r,
            {
                let rule = &child.msgs[r];
                let res = self.match_rule_zero_copy(
                    line,
                    category.app.as_str(),
                    child.name.as_str(),
                    child.tag.as_str(),
                    rule,
                );
                match res {
                    Some(detail) => {
                        result.add_match(detail);
                    },
                    None => {},
                }
                proof {
                    assert(result@.matches =~= before + rules_details(category.app@, *child, r + 1, line@, true));
                }
                r = r + 1;
            }
            proof {
                assert(ps.take(k + 1).drop_last() =~= ps.take(k as int));
                assert(ps.take(k + 1).last() == (ci, chi));
                assert(result@.matches =~= base + positions_details(cfg, ps.take(k + 1), line@, true));
            }
            k = k + 1;
        }
        proof {
            assert(ps.take(ps.len() as int) =~= ps);
        }
    }

    /// Zero-copy form of `match_line`: the result borrows the line and the
    /// rule texts, and regex rules report their named captures only when there
    /// are some.
    pub fn match_line_zero_copy<'a>(&'a self, line: &'a str, line_number: usize) -> (r: Option<
        MatchResultZeroCopy<'a>,
    >)
        ensures
            exists|order: Seq<Seq<char>>|
                {
                    &&& order.no_duplicates()
                    &&& order.to_set() == self.selected_tags(line@)
                    &&& #[trigger] matched_for_zero_copy(r, line@, line_number, tags_details(self.config(), order, line@, true))
                },
            forall|t: Seq<char>| #[trigger] self.selected_tags(line@).contains(t) ==> all_tags(self.config()).contains(t) && is_substring(t, line@),
            r matches Some(res) ==> forall|i: int| 0 <= i < res@.matches.len() ==> is_substring(#[trigger] res@.matches[i].tag, line@),
            (forall|t: Seq<char>| #[trigger] all_tags(self.config()).contains(t) ==> !is_substring(t, line@)) ==> r is None,
            r matches Some(res) ==> res.line == Cow::<'a, str>::Borrowed(line) && res.details_borrowed(),
    {
        let ghost cfg = self.config();
        let (selected, Ghost(order)) = self.select_tags(line);
        let mut result = MatchResultZeroCopy::new(line, line_number);
        let mut has_match = false;
        let mut k: usize = 0;
        proof {
            assert(order.take(0) =~= Seq::<Seq<char>>::empty());
            assert(result@.matches =~= tags_details(cfg, order.take(0), line@, true));
        }
        while k < selected.len()
            invariant
                cfg == self.config(),
                selected@.len() == order.len(),
                forall|j: int| 0 <= j < order.len() ==> (#[trigger] selected@[j])@ == tag_positions(cfg, order[j]),
                0 <= k <= order.len(),
                result@.line == line@,
                result@.line_number == line_number,
                result@.matches == tags_details(cfg, order.take(k as int), line@, true),
                result.line == Cow::<'a, str>::Borrowed(line),
                result.details_borrowed(),
                has_match == (result@.matches.len() > 0),
            decreases order.len() - k,
        {
            let positions = selected[k];
            proof {
                assert(positions@ == tag_positions(cfg, order[k as int]));
                assert forall|j: int| 0 <= j < positions@.len() implies (#[trigger] positions@[j].0 as int) < cfg.categories@.len() && (positions@[j].1 as int) < cfg.categories@[positions@[j].0 as int].children@.len() by {
                    lemma_tag_positions_valid(cfg, order[k as int], j);
                }
            }
            self.match_positions_zero_copy(line, positions, &mut result);
            if result.matches.len() > 0 {
                has_match = true;
            }
            proof {
                assert(order.take(k + 1).drop_last() =~= order.take(k as int));
                assert(order.take(k + 1).last() == order[k as int]);
                assert(result@.matches =~= tags_details(cfg, order.take(k + 1), line@, true));
            }
            k = k + 1;
        }
        proof {
            assert(order.take(order.len() as int) =~= order);
        }
        let r = if has_match {
            Some(result)
        } else {
            None
        };
        assert(matched_for_zero_copy(r, line@, line_number, tags_details(self.config(), order, line@, true)));
        proof {
            lemma_tags_details_tag(self.config(), order, line@, true);
            let ds = tags_details(self.config(), order, line@, true);
            assert forall|i: int| 0 <= i < ds.len() implies is_substring(#[trigger] ds[i].tag, line@) by {
                let j = choose|j: int| 0 <= j < order.len() && order[j] == ds[i].tag;
                assert(order.to_set().contains(order[j]));
            }
            if forall|t: Seq<char>| #[trigger] all_tags(self.config()).contains(t) ==> !is_substring(t, line@) {
                if order.len() > 0 {
                    assert(order.to_set().contains(order[0]));
                }
                assert(order.len() == 0);
            }
        }
        r
    }
}

// ---------------------------------------------------------------------------
// Statistics
// ---------------------------------------------------------------------------
/// Counters of a matching run.
#[derive(Debug)]
pub struct MatchStats {
    pub total_lines: usize,
    pub matched_lines: usize,
    pub total_matches: usize,
    pub processing_time_ms: u128,
    pub tag_matching_time_ms: u128,
    pub rule_matching_time_ms: u128,
    pub io_time_ms: u128,
    pub ac_enabled: bool,
    pub tag_count: usize,
}

/// All counters are zero and the automaton is not recorded as enabled.
pub open spec fn stats_zero(s: MatchStats) -> bool {
    &&& s.total_lines == 0
    &&& s.matched_lines == 0
    &&& s.total_matches == 0
    &&& s.processing_time_ms == 0
    &&& s.tag_matching_time_ms == 0
    &&& s.rule_matching_time_ms == 0
    &&& s.io_time_ms == 0
    &&& !s.ac_enabled
    &&& s.tag_count == 0
}

impl MatchStats {
    /// Fresh counters.
    pub fn new() -> (s: Self)
        ensures
            stats_zero(s),
    {
        MatchStats {
            total_lines: 0,
            matched_lines: 0,
            total_matches: 0,
            processing_time_ms: 0,
            tag_matching_time_ms: 0,
            rule_matching_time_ms: 0,
            io_time_ms: 0,
            ac_enabled: false,
            tag_count: 0,
        }
    }

    /// Counts one matched line and its details.
    pub fn add_match(&mut self, result: &MatchResult)
        requires
            old(self).matched_lines < usize::MAX,
            old(self).total_matches + result.matches@.len() <= usize::MAX,
        ensures
            final(self).matched_lines == old(self).matched_lines + 1,
            final(self).total_matches == old(self).total_matches + result.matches@.len(),
            final(self).total_lines == old(self).total_lines,
            final(self).processing_time_ms == old(self).processing_time_ms,
            final(self).tag_matching_time_ms == old(self).tag_matching_time_ms,
            final(self).rule_matching_time_ms == old(self).rule_matching_time_ms,
            final(self).io_time_ms == old(self).io_time_ms,
            final(self).ac_enabled == old(self).ac_enabled,
            final(self).tag_count == old(self).tag_count,
    {
        self.matched_lines = self.matched_lines + 1;
        self.total_matches = self.total_matches + result.matches.len();
    }
}

impl Default for MatchStats {
    fn default() -> (s: Self)
        ensures
            stats_zero(s),
    {
        MatchStats::new()
    }
}

/// Every detail a child reports carries the child's tag and category.
pub proof fn lemma_rules_details_tag(app: Seq<char>, child: Child, n: int, line: Seq<char>, compact: bool)
    ensures
        forall|i: int| 0 <= i < rules_details(app, child, n, line, compact).len() ==> (#[trigger] rules_details(app, child, n, line, compact)[i]).tag == child.tag@
            && rules_details(app, child, n, line, compact)[i].app == app,
    decreases n,
{
    if n > 0 {
        lemma_rules_details_tag(app, child, n - 1, line, compact);
    }
}

/// The details reported by children that all carry tag `t` carry `t`.
pub proof fn lemma_positions_details_tag(cfg: LogConfig, ps: Seq<(usize, usize)>, t: Seq<char>, line: Seq<char>, compact: bool)
    requires
        forall|k: int| 0 <= k < ps.len() ==> tag_at(cfg, #[trigger] ps[k]) == t,
    ensures
        forall|i: int| 0 <= i < positions_details(cfg, ps, line, compact).len() ==> (#[trigger] positions_details(cfg, ps, line, compact)[i]).tag == t,
    decreases ps.len(),
{
    if ps.len() > 0 {
        lemma_positions_details_tag(cfg, ps.drop_last(), t, line, compact);
        let p = ps.last();
        let cat = cfg.categories@[p.0 as int];
        let child = cat.children@[p.1 as int];
        lemma_rules_details_tag(cat.app@, child, child.msgs@.len() as int, line, compact);
        let a = positions_details(cfg, ps.drop_last(), line, compact);
        let b = child_details(cfg, p, line, compact);
        assert forall|i: int| 0 <= i < (a + b).len() implies #[trigger] (a + b)[i].tag == t by {
            if i >= a.len() {
                assert((a + b)[i] == b[i - a.len()]);
            }
        }
    }
}

/// Every detail reported for the tags `order` carries one of them.
pub proof fn lemma_tags_details_tag(cfg: LogConfig, order: Seq<Seq<char>>, line: Seq<char>, compact: bool)
    ensures
        forall|i: int| 0 <= i < tags_details(cfg, order, line, compact).len() ==> order.contains(#[trigger] tags_details(cfg, order, line, compact)[i].tag),
    decreases order.len(),
{
    if order.len() > 0 {
        lemma_tags_details_tag(cfg, order.drop_last(), line, compact);
        let t = order.last();
        assert forall|k: int| 0 <= k < tag_positions(cfg, t).len() implies tag_at(cfg, #[trigger] tag_positions(cfg, t)[k]) == t by {
            lemma_tag_positions_valid(cfg, t, k);
        }
        lemma_positions_details_tag(cfg, tag_positions(cfg, t), t, line, compact);
        let a = tags_details(cfg, order.drop_last(), line, compact);
        let b = tag_details(cfg, t, line, compact);
        assert forall|i: int| 0 <= i < (a + b).len() implies order.contains(#[trigger] (a + b)[i].tag) by {
            if i >= a.len() {
                assert((a + b)[i] == b[i - a.len()]);
                assert(order[order.len() - 1] == t);
            } else {
                assert(order.drop_last().contains(a[i].tag));
                let j = choose|j: int| 0 <= j < order.drop_last().len() && order.drop_last()[j] == a[i].tag;
                assert(order[j] == a[i].tag);
            }
        }
    }
}

/// A detail with an empty map of captures left out.
pub open spec fn compact_view(d: MatchDetailView) -> MatchDetailView {
    MatchDetailView {
        regex_captures: match d.regex_captures {
            Some(m) => if m.dom() == Set::<Seq<char>>::empty() {
                None
            } else {
                Some(m)
            },
            None => None,
        },
        ..d
    }
}

pub open spec fn compact_all(ds: Seq<MatchDetailView>) -> Seq<MatchDetailView> {
    ds.map_values(|d: MatchDetailView| compact_view(d))
}

proof fn lemma_compact_concat(a: Seq<MatchDetailView>, b: Seq<MatchDetailView>)
    ensures
        compact_all(a + b) == compact_all(a) + compact_all(b),
{
    assert(compact_all(a + b) =~= compact_all(a) + compact_all(b));
}

proof fn lemma_rules_details_compact(app: Seq<char>, child: Child, n: int, line: Seq<char>)
    ensures
        rules_details(app, child, n, line, true) == compact_all(rules_details(app, child, n, line, false)),
    decreases n,
{
    if n > 0 {
        lemma_rules_details_compact(app, child, n - 1, line);
        let rest = rules_details(app, child, n - 1, line, false);
        let rule = child.msgs@[n - 1];
        if rule_hits(rule, line) {
            lemma_compact_concat(rest, seq![detail_of(app, child, rule, line, false)]);
            assert(rest.push(detail_of(app, child, rule, line, false)) =~= rest + seq![detail_of(app, child, rule, line, false)]);
            assert(compact_all(seq![detail_of(app, child, rule, line, false)]) =~= seq![detail_of(app, child, rule, line, true)]);
            assert(compact_all(rest).push(detail_of(app, child, rule, line, true)) =~= compact_all(rest) + seq![detail_of(app, child, rule, line, true)]);
        }
    } else {
        assert(compact_all(Seq::empty()) =~= Seq::<MatchDetailView>::empty());
    }
}

proof fn lemma_positions_details_compact(cfg: LogConfig, ps: Seq<(usize, usize)>, line: Seq<char>)
    ensures
        positions_details(cfg, ps, line, true) == compact_all(positions_details(cfg, ps, line, false)),
    decreases ps.len(),
{
    if ps.len() > 0 {
        lemma_positions_details_compact(cfg, ps.drop_last(), line);
        let p = ps.last();
        let cat = cfg.categories@[p.0 as int];
        let child = cat.children@[p.1 as int];
        lemma_rules_details_compact(cat.app@, child, child.msgs@.len() as int, line);
        lemma_compact_concat(positions_details(cfg, ps.drop_last(), line, false), child_details(cfg, p, line, false));
    } else {
        assert(compact_all(Seq::empty()) =~= Seq::<MatchDetailView>::empty());
    }
}

/// Law: for any order of the tags, zero-copy matching reports the same details
/// as plain matching, except that a regex rule's empty map of captures is left out.
pub proof fn law_zero_copy_matches_plain(cfg: LogConfig, order: Seq<Seq<char>>, line: Seq<char>)
    ensures
        tags_details(cfg, order, line, true) == compact_all(tags_details(cfg, order, line, false)),
    decreases order.len(),
{
    if order.len() > 0 {
        law_zero_copy_matches_plain(cfg, order.drop_last(), line);
        lemma_positions_details_compact(cfg, tag_positions(cfg, order.last()), line);
        lemma_compact_concat(tags_details(cfg, order.drop_last(), line, false), tag_details(cfg, order.last(), line, false));
    } else {
        assert(compact_all(Seq::empty()) =~= Seq::<MatchDetailView>::empty());
    }
}


/// The details of two lists of tags, one after the other, are those of the
/// joined list.
proof fn lemma_tags_details_append(cfg: LogConfig, a: Seq<Seq<char>>, b: Seq<Seq<char>>, line: Seq<char>, compact: bool)
    ensures
        tags_details(cfg, a + b, line, compact) == tags_details(cfg, a, line, compact) + tags_details(cfg, b, line, compact),
    decreases b.len(),
{
    if b.len() == 0 {
        assert(a + b =~= a);
        assert(tags_details(cfg, a, line, compact) + Seq::<MatchDetailView>::empty() =~= tags_details(cfg, a, line, compact));
    } else {
        lemma_tags_details_append(cfg, a, b.drop_last(), line, compact);
        assert((a + b).drop_last() =~= a + b.drop_last());
        assert((a + b).last() == b.last());
        let x = tags_details(cfg, a, line, compact);
        let y = tags_details(cfg, b.drop_last(), line, compact);
        let z = tag_details(cfg, b.last(), line, compact);
        assert((x + y) + z =~= x + (y + z));
    }
}

/// Removing one element from a duplicate-free list removes it from its set.
proof fn lemma_remove_one_set(s: Seq<Seq<char>>, k: int)
    requires
        s.no_duplicates(),
        0 <= k < s.len(),
    ensures
        (s.take(k) + s.skip(k + 1)).no_duplicates(),
        (s.take(k) + s.skip(k + 1)).to_set() == s.to_set().remove(s[k]),
        s == s.take(k) + seq![s[k]] + s.skip(k + 1),
{
    let r = s.take(k) + s.skip(k + 1);
    assert(s =~= s.take(k) + seq![s[k]] + s.skip(k + 1));
    assert forall|i: int| 0 <= i < r.len() implies #[trigger] r[i] == s[if i < k { i } else { i + 1 }] by {}
    assert forall|i: int, j: int| 0 <= i < r.len() && 0 <= j < r.len() && i != j implies r[i] != r[j] by {
        let si = if i < k { i } else { i + 1 };
        let sj = if j < k { j } else { j + 1 };
        assert(r[i] == s[si]);
        assert(r[j] == s[sj]);
    }
    assert forall|x: Seq<char>| r.to_set().contains(x) <==> s.to_set().remove(s[k]).contains(x) by {
        if r.to_set().contains(x) {
            let i = choose|i: int| 0 <= i < r.len() && r[i] == x;
            let si = if i < k { i } else { i + 1 };
            assert(r[i] == s[si]);
            assert(s.contains(x));
        }
        if s.to_set().remove(s[k]).contains(x) {
            let j = choose|j: int| 0 <= j < s.len() && s[j] == x;
            assert(j != k);
            let i = if j < k { j } else { j - 1 };
            assert(r[i] == s[j]);
            assert(r.contains(x));
        }
    }
    assert(r.to_set() =~= s.to_set().remove(s[k]));
}

/// Law: the tags may be taken in any order: two duplicate-free orders of the
/// same tags give the same details, counted with their repetitions.
pub proof fn law_tag_order_irrelevant(cfg: LogConfig, o1: Seq<Seq<char>>, o2: Seq<Seq<char>>, line: Seq<char>, compact: bool)
    requires
        o1.no_duplicates(),
        o2.no_duplicates(),
        o1.to_set() == o2.to_set(),
    ensures
        tags_details(cfg, o1, line, compact).to_multiset() == tags_details(cfg, o2, line, compact).to_multiset(),
    decreases o1.len(),
{
    broadcast use vstd::seq_lib::lemma_multiset_commutative;
    if o1.len() == 0 {
        if o2.len() > 0 {
            assert(o2.to_set().contains(o2[0]));
            assert(o1.to_set().contains(o2[0]));
        }
        assert(o2.len() == 0);
    } else {
        let t = o1.last();
        let o1r = o1.drop_last();
        assert(o1.to_set().contains(t));
        assert(o2.to_set().contains(t));
        let k = choose|k: int| 0 <= k < o2.len() && o2[k] == t;
        lemma_remove_one_set(o2, k);
        lemma_remove_one_set(o1, o1.len() - 1);
        assert(o1.take(o1.len() - 1) + o1.skip(o1.len() as int) =~= o1r);
        let a = o2.take(k);
        let b = o2.skip(k + 1);
        law_tag_order_irrelevant(cfg, o1r, a + b, line, compact);
        lemma_tags_details_append(cfg, a, b, line, compact);
        lemma_tags_details_append(cfg, a + seq![t], b, line, compact);
        lemma_tags_details_append(cfg, a, seq![t], line, compact);
        assert(seq![t].drop_last() =~= Seq::<Seq<char>>::empty());
        let da = tags_details(cfg, a, line, compact);
        let db = tags_details(cfg, b, line, compact);
        let dt = tag_details(cfg, t, line, compact);
        assert(seq![t].last() == t);
        assert(tags_details(cfg, Seq::<Seq<char>>::empty(), line, compact) == Seq::<MatchDetailView>::empty());
        assert(tags_details(cfg, seq![t], line, compact) == tags_details(cfg, seq![t].drop_last(), line, compact) + dt);
        assert(Seq::<MatchDetailView>::empty() + dt =~= dt);
        assert(tags_details(cfg, seq![t], line, compact) =~= dt);
        assert(tags_details(cfg, o2, line, compact) == (da + dt) + db);
        assert(tags_details(cfg, o1, line, compact) == tags_details(cfg, o1r, line, compact) + dt);
        assert((da + dt + db).to_multiset() =~= (da + db).to_multiset().add(dt.to_multiset()));
    }
}

/// Law: zero-copy matching and plain matching of one line report the same
/// details, counted with their repetitions, whatever order each takes the
/// selected tags in, once a regex rule's empty map of captures is left out
/// of the plain details.
pub proof fn law_zero_copy_agrees_in_any_order(cfg: LogConfig, o1: Seq<Seq<char>>, o2: Seq<Seq<char>>, line: Seq<char>)
    requires
        o1.no_duplicates(),
        o2.no_duplicates(),
        o1.to_set() == o2.to_set(),
    ensures
        tags_details(cfg, o1, line, true).to_multiset() == compact_all(tags_details(cfg, o2, line, false)).to_multiset(),
{
    law_zero_copy_matches_plain(cfg, o2, line);
    law_tag_order_irrelevant(cfg, o1, o2, line, true);
}


/// Rule `k` of child `chi` of category `ci` passes its test on `line`,
/// written out over the line itself: a rule with a compiled regex by that
/// regex; any other rule when every one of its keys occurs in the line and
/// none of its ignore words does. And `d` is the detail that rule reports.
pub open spec fn reported_by(cfg: LogConfig, ci: int, chi: int, k: int, line: Seq<char>, compact: bool, d: MatchDetailView) -> bool {
    &&& 0 <= ci < cfg.categories@.len()
    &&& 0 <= chi < cfg.categories@[ci].children@.len()
    &&& 0 <= k < cfg.categories@[ci].children@[chi].msgs@.len()
    &&& d == detail_of(
        cfg.categories@[ci].app@,
        cfg.categories@[ci].children@[chi],
        cfg.categories@[ci].children@[chi].msgs@[k],
        line,
        compact,
    )
    &&& match cfg.categories@[ci].children@[chi].msgs@[k].compiled_regex {
        Some(re) => regex_is_match(re.pattern(), line),
        None => {
            &&& forall|m: int|
                0 <= m < cfg.categories@[ci].children@[chi].msgs@[k].keys@.len() ==> is_substring(
                    #[trigger] cfg.categories@[ci].children@[chi].msgs@[k].keys@[m]@,
                    line,
                )
            &&& forall|m: int|
                0 <= m < cfg.categories@[ci].children@[chi].msgs@[k].ignores@.len() ==> !is_substring(
                    #[trigger] cfg.categories@[ci].children@[chi].msgs@[k].ignores@[m]@,
                    line,
                )
        },
    }
}

/// `d` is reported by some rule of child `chi` of category `ci` that passes its test.
pub open spec fn reported_in_child(cfg: LogConfig, ci: int, chi: int, line: Seq<char>, compact: bool, d: MatchDetailView) -> bool {
    exists|k: int| #[trigger] reported_by(cfg, ci, chi, k, line, compact, d)
}

/// `d` is reported by some rule of the configuration that passes its test.
pub open spec fn reported_in_config(cfg: LogConfig, line: Seq<char>, compact: bool, d: MatchDetailView) -> bool {
    exists|ci: int, chi: int, k: int| #[trigger] reported_by(cfg, ci, chi, k, line, compact, d)
}

proof fn lemma_rules_reported(cfg: LogConfig, ci: int, chi: int, n: int, line: Seq<char>, compact: bool)
    requires
        0 <= ci < cfg.categories@.len(),
        0 <= chi < cfg.categories@[ci].children@.len(),
        0 <= n <= cfg.categories@[ci].children@[chi].msgs@.len(),
    ensures
        forall|i: int| 0 <= i < rules_details(cfg.categories@[ci].app@, cfg.categories@[ci].children@[chi], n, line, compact).len()
            ==> reported_in_child(cfg, ci, chi, line, compact, #[trigger] rules_details(cfg.categories@[ci].app@, cfg.categories@[ci].children@[chi], n, line, compact)[i]),
    decreases n,
{
    let cat = cfg.categories@[ci];
    let child = cat.children@[chi];
    if n > 0 {
        lemma_rules_reported(cfg, ci, chi, n - 1, line, compact);
        let rest = rules_details(cat.app@, child, n - 1, line, compact);
        let rule = child.msgs@[n - 1];
        let rd = rules_details(cat.app@, child, n, line, compact);
        if rule_hits(rule, line) {
            assert(rd == rest.push(detail_of(cat.app@, child, rule, line, compact)));
            match rule.compiled_regex {
                Some(re) => {},
                None => {
                    assert forall|m: int| 0 <= m < rule.keys@.len() implies is_substring(#[trigger] rule.keys@[m]@, line) by {
                        assert(strs_view(rule.keys@)[m] == rule.keys@[m]@);
                    }
                    assert forall|m: int| 0 <= m < rule.ignores@.len() implies !is_substring(#[trigger] rule.ignores@[m]@, line) by {
                        assert(strs_view(rule.ignores@)[m] == rule.ignores@[m]@);
                    }
                },
            }
            assert(reported_by(cfg, ci, chi, n - 1, line, compact, rd[rd.len() - 1]));
            assert forall|i: int| 0 <= i < rd.len() implies reported_in_child(cfg, ci, chi, line, compact, #[trigger] rd[i]) by {
                if i < rest.len() {
                    assert(rd[i] == rest[i]);
                }
            }
        } else {
            assert(rd == rest);
        }
    }
}

proof fn lemma_positions_reported(cfg: LogConfig, ps: Seq<(usize, usize)>, line: Seq<char>, compact: bool)
    requires
        positions_valid(cfg, ps),
    ensures
        forall|i: int| 0 <= i < positions_details(cfg, ps, line, compact).len()
            ==> reported_in_config(cfg, line, compact, #[trigger] positions_details(cfg, ps, line, compact)[i]),
    decreases ps.len(),
{
    if ps.len() > 0 {
        let init = ps.drop_last();
        assert forall|k: int| 0 <= k < init.len() implies (#[trigger] init[k].0 as int) < cfg.categories@.len() && (
            init[k].1 as int) < cfg.categories@[init[k].0 as int].children@.len() by {
            assert(init[k] == ps[k]);
        }
        lemma_positions_reported(cfg, init, line, compact);
        let p = ps.last();
        assert(ps[ps.len() - 1] == p);
        let ci = p.0 as int;
        let chi = p.1 as int;
        let cat = cfg.categories@[ci];
        let child = cat.children@[chi];
        lemma_rules_reported(cfg, ci, chi, child.msgs@.len() as int, line, compact);
        let a = positions_details(cfg, init, line, compact);
        let b = child_details(cfg, p, line, compact);
        assert(positions_details(cfg, ps, line, compact) == a + b);
        assert forall|i: int| 0 <= i < (a + b).len() implies reported_in_config(cfg, line, compact, #[trigger] (a + b)[i]) by {
            if i < a.len() {
                assert((a + b)[i] == a[i]);
            } else {
                assert((a + b)[i] == b[i - a.len()]);
                assert(reported_in_child(cfg, ci, chi, line, compact, b[i - a.len()]));
                let k = choose|k: int| #[trigger] reported_by(cfg, ci, chi, k, line, compact, b[i - a.len()]);
                assert(reported_by(cfg, ci, chi, k, line, compact, (a + b)[i]));
            }
        }
    }
}

/// Law: every detail reported for a line comes from a rule of the
/// configuration that passes its test on that line, the test written out:
/// a rule with a compiled regex matches by that regex, and any other rule
/// only when every one of its keys occurs in the line and none of its ignore
/// words does. `match_line` and `match_line_zero_copy` report exactly such
/// details (`tags_details` for the tags the line contains).
pub proof fn law_reported_details_pass_their_rules(cfg: LogConfig, order: Seq<Seq<char>>, line: Seq<char>, compact: bool)
    ensures
        forall|i: int| 0 <= i < tags_details(cfg, order, line, compact).len()
            ==> reported_in_config(cfg, line, compact, #[trigger] tags_details(cfg, order, line, compact)[i]),
    decreases order.len(),
{
    if order.len() > 0 {
        law_reported_details_pass_their_rules(cfg, order.drop_last(), line, compact);
        let t = order.last();
        assert forall|k: int| 0 <= k < tag_positions(cfg, t).len() implies (#[trigger] tag_positions(cfg, t)[k].0 as int) < cfg.categories@.len() && (
            tag_positions(cfg, t)[k].1 as int) < cfg.categories@[tag_positions(cfg, t)[k].0 as int].children@.len() by {
            lemma_tag_positions_valid(cfg, t, k);
        }
        lemma_positions_reported(cfg, tag_positions(cfg, t), line, compact);
        let a = tags_details(cfg, order.drop_last(), line, compact);
        let b = tag_details(cfg, t, line, compact);
        assert(tags_details(cfg, order, line, compact) == a + b);
        assert forall|i: int| 0 <= i < (a + b).len() implies reported_in_config(cfg, line, compact, #[trigger] (a + b)[i]) by {
            if i < a.len() {
                assert((a + b)[i] == a[i]);
            } else {
                assert((a + b)[i] == b[i - a.len()]);
            }
        }
    }
}

} // verus!
