//! Grouping of match results by category (`app`), by child (`app`, child
//! name) and by tag, next to the list of all results and the unmatched lines.
use vstd::prelude::*;
use ahash::{AHashMap, AHashSet};
use crate::matcher::{
    MatchResult, MatchResultView, MatchDetail, MatchDetailView, results_view, details_view,
    clone_opt_captures, captures_contents, captures_keys, captures_get,
};
use crate::render::{decimal, repeat, sorted_listing, lemma_sorted_listing, lemma_sorted_listing_exists, push_decimal, push_repeat};
use vstd::string::StringExecFns;
use crate::zero_copy::{MatchResultZeroCopy, MatchResultOwned, owned_details_view};
use crate::text::{strictly_sorted, strs_view, sorted_unique};

verus! {

// ---------------------------------------------------------------------------
// What a result is filed under
// ---------------------------------------------------------------------------
/// Some detail of the result belongs to category `a`.
pub open spec fn has_app(r: MatchResultView, a: Seq<char>) -> bool {
    exists|i: int| 0 <= i < r.matches.len() && (#[trigger] r.matches[i]).app == a
}

/// Some detail of the result belongs to child `k.1` of category `k.0`.
pub open spec fn has_child(r: MatchResultView, k: (Seq<char>, Seq<char>)) -> bool {
    exists|i: int|
        0 <= i < r.matches.len() && (#[trigger] r.matches[i]).app == k.0 && r.matches[i].child_name
            == k.1
}

/// Some detail of the result carries tag `t`.
pub open spec fn has_result_tag(r: MatchResultView, t: Seq<char>) -> bool {
    exists|i: int| 0 <= i < r.matches.len() && (#[trigger] r.matches[i]).tag == t
}

/// The results filed under key `k`, in the order they were added.
pub open spec fn filed_under<K>(all: Seq<MatchResultView>, filed: spec_fn(MatchResultView, K) -> bool, k: K) -> Seq<MatchResultView> {
    all.filter(|r: MatchResultView| filed(r, k))
}

/// A grouping of `all`: each key under which some result is filed, to those results.
pub open spec fn groups_of<K>(all: Seq<MatchResultView>, filed: spec_fn(MatchResultView, K) -> bool) -> Map<K, Seq<MatchResultView>> {
    Map::new(|k: K| filed_under(all, filed, k).len() > 0, |k: K| filed_under(all, filed, k))
}

/// `groups_of(all.push(r))` computed for the keys in `done`, `groups_of(all)` elsewhere.
pub open spec fn groups_partly_added<K>(
    all: Seq<MatchResultView>,
    filed: spec_fn(MatchResultView, K) -> bool,
    r: MatchResultView,
    done: Set<K>,
) -> Map<K, Seq<MatchResultView>> {
    Map::new(
        |k: K| if done.contains(k) {
            filed_under(all.push(r), filed, k).len() > 0
        } else {
            filed_under(all, filed, k).len() > 0
        },
        |k: K| if done.contains(k) {
            filed_under(all.push(r), filed, k)
        } else {
            filed_under(all, filed, k)
        },
    )
}

proof fn lemma_filed_under_push<K>(all: Seq<MatchResultView>, filed: spec_fn(MatchResultView, K) -> bool, r: MatchResultView, k: K)
    ensures
        filed_under(all.push(r), filed, k) == if filed(r, k) {
            filed_under(all, filed, k).push(r)
        } else {
            filed_under(all, filed, k)
        },
{
    all.lemma_filter_push(r, |x: MatchResultView| filed(x, k));
}

proof fn lemma_groups_step<K>(
    all: Seq<MatchResultView>,
    filed: spec_fn(MatchResultView, K) -> bool,
    r: MatchResultView,
    done: Set<K>,
    k: K,
)
    requires
        filed(r, k),
    ensures
        ({
            let m = groups_partly_added(all, filed, r, done);
            let prev = if m.contains_key(k) { m[k] } else { Seq::empty() };
            !done.contains(k) ==> m.insert(k, prev.push(r)) == groups_partly_added(all, filed, r, done.insert(k))
        }),
{
    let m = groups_partly_added(all, filed, r, done);
    let prev = if m.contains_key(k) { m[k] } else { Seq::empty() };
    if !done.contains(k) {
        lemma_filed_under_push(all, filed, r, k);
        if !m.contains_key(k) {
            assert(filed_under(all, filed, k) =~= Seq::<MatchResultView>::empty());
        }
        assert(m.insert(k, prev.push(r)) =~= groups_partly_added(all, filed, r, done.insert(k)));
    }
}

proof fn lemma_groups_done<K>(
    all: Seq<MatchResultView>,
    filed: spec_fn(MatchResultView, K) -> bool,
    r: MatchResultView,
    done: Set<K>,
)
    requires
        forall|k: K| done.contains(k) <==> filed(r, k),
    ensures
        groups_partly_added(all, filed, r, done) == groups_of(all.push(r), filed),
{
    assert forall|k: K| #[trigger] groups_partly_added(all, filed, r, done).contains_key(k) == groups_of(all.push(r), filed).contains_key(k)
        && (groups_of(all.push(r), filed).contains_key(k) ==> groups_partly_added(all, filed, r, done)[k] == groups_of(all.push(r), filed)[k]) by {
        lemma_filed_under_push(all, filed, r, k);
    }
    assert(groups_partly_added(all, filed, r, done) =~= groups_of(all.push(r), filed));
}

proof fn lemma_groups_start<K>(all: Seq<MatchResultView>, filed: spec_fn(MatchResultView, K) -> bool, r: MatchResultView)
    ensures
        groups_partly_added(all, filed, r, Set::empty()) == groups_of(all, filed),
{
    assert(groups_partly_added(all, filed, r, Set::empty()) =~= groups_of(all, filed));
}

// ---------------------------------------------------------------------------
// Hash collections of the grouper
// ---------------------------------------------------------------------------
/// What a grouping keyed by one string holds.
pub uninterp spec fn name_groups_contents(m: AHashMap<String, Vec<MatchResult>>) -> Map<Seq<char>, Seq<MatchResultView>>;

/// What a grouping keyed by a pair of strings holds.
pub uninterp spec fn pair_groups_contents(m: AHashMap<(String, String), Vec<MatchResult>>) -> Map<(Seq<char>, Seq<char>), Seq<MatchResultView>>;

/// What a set of strings holds.
pub uninterp spec fn name_set_contents(s: AHashSet<String>) -> Set<Seq<char>>;

/// What a set of string pairs holds.
pub uninterp spec fn pair_set_contents(s: AHashSet<(String, String)>) -> Set<(Seq<char>, Seq<char>)>;

pub open spec fn pair_view(p: (String, String)) -> (Seq<char>, Seq<char>) {
    (p.0@, p.1@)
}

pub open spec fn pairs_view(v: Seq<(String, String)>) -> Seq<(Seq<char>, Seq<char>)> {
    v.map_values(|p: (String, String)| pair_view(p))
}

/// `AHashMap::new`. Claims: the new map is empty.
#[verifier::external_body]
fn name_groups_new() -> (m: AHashMap<String, Vec<MatchResult>>)
    ensures
        name_groups_contents(m).dom() == Set::<Seq<char>>::empty(),
{
    AHashMap::new()
}

/// `AHashMap::remove`. Claims: the value held for the key, if any, is handed out and the key is gone.
#[verifier::external_body]
fn name_groups_remove(m: &mut AHashMap<String, Vec<MatchResult>>, k: &str) -> (v: Option<Vec<MatchResult>>)
    ensures
        name_groups_contents(*final(m)) == name_groups_contents(*old(m)).remove(k@),
        v matches Some(x) ==> name_groups_contents(*old(m)).contains_key(k@) && results_view(x@) == name_groups_contents(*old(m))[k@],
        v is None ==> !name_groups_contents(*old(m)).contains_key(k@),
{
    m.remove(k)
}

/// `AHashMap::insert`. Claims: the key now maps to the value, the rest is kept.
#[verifier::external_body]
fn name_groups_insert(m: &mut AHashMap<String, Vec<MatchResult>>, k: String, v: Vec<MatchResult>)
    ensures
        name_groups_contents(*final(m)) == name_groups_contents(*old(m)).insert(k@, results_view(v@)),
{
    m.insert(k, v);
}

/// `AHashMap::get`. Claims: the value held for the key, if any.
#[verifier::external_body]
fn name_groups_get<'a>(m: &'a AHashMap<String, Vec<MatchResult>>, k: &str) -> (v: Option<&'a Vec<MatchResult>>)
    ensures
        v matches Some(x) ==> name_groups_contents(*m).contains_key(k@) && results_view(x@) == name_groups_contents(*m)[k@],
        v is None ==> !name_groups_contents(*m).contains_key(k@),
{
    m.get(k)
}

/// The keys, cloned in the order `HashMap::keys` walks them. Claims: each key
/// comes out once and the list holds exactly the keys; the order is left unsaid.
#[verifier::external_body]
fn name_groups_keys(m: &AHashMap<String, Vec<MatchResult>>) -> (ks: Vec<String>)
    ensures
        strs_view(ks@).no_duplicates(),
        strs_view(ks@).to_set() == name_groups_contents(*m).dom(),
{
    m.keys().cloned().collect()
}

/// `HashMap::len` on an `AHashMap`. Claims: the number of keys.
#[verifier::external_body]
fn name_groups_len(m: &AHashMap<String, Vec<MatchResult>>) -> (n: usize)
    ensures
        n == name_groups_contents(*m).dom().len(),
{
    m.len()
}

/// `AHashMap::new`. Claims: the new map is empty.
#[verifier::external_body]
fn pair_groups_new() -> (m: AHashMap<(String, String), Vec<MatchResult>>)
    ensures
        pair_groups_contents(m).dom() == Set::<(Seq<char>, Seq<char>)>::empty(),
{
    AHashMap::new()
}

/// `AHashMap::remove`. Claims: the value held for the key, if any, is handed out and the key is gone.
#[verifier::external_body]
fn pair_groups_remove(m: &mut AHashMap<(String, String), Vec<MatchResult>>, k: &(String, String)) -> (v: Option<Vec<MatchResult>>)
    ensures
        pair_groups_contents(*final(m)) == pair_groups_contents(*old(m)).remove(pair_view(*k)),
        v matches Some(x) ==> pair_groups_contents(*old(m)).contains_key(pair_view(*k)) && results_view(x@) == pair_groups_contents(*old(m))[pair_view(*k)],
        v is None ==> !pair_groups_contents(*old(m)).contains_key(pair_view(*k)),
{
    m.remove(k)
}

/// `AHashMap::insert`. Claims: the key now maps to the value, the rest is kept.
#[verifier::external_body]
fn pair_groups_insert(m: &mut AHashMap<(String, String), Vec<MatchResult>>, k: (String, String), v: Vec<MatchResult>)
    ensures
        pair_groups_contents(*final(m)) == pair_groups_contents(*old(m)).insert(pair_view(k), results_view(v@)),
{
    m.insert(k, v);
}

/// `AHashMap::get`. Claims: the value held for the key, if any.
#[verifier::external_body]
fn pair_groups_get<'a>(m: &'a AHashMap<(String, String), Vec<MatchResult>>, k: &(String, String)) -> (v: Option<&'a Vec<MatchResult>>)
    ensures
        v matches Some(x) ==> pair_groups_contents(*m).contains_key(pair_view(*k)) && results_view(x@) == pair_groups_contents(*m)[pair_view(*k)],
        v is None ==> !pair_groups_contents(*m).contains_key(pair_view(*k)),
{
    m.get(k)
}

/// The keys, cloned in the order `HashMap::keys` walks them. Claims: each key
/// comes out once and the list holds exactly the keys; the order is left unsaid.
#[verifier::external_body]
fn pair_groups_keys(m: &AHashMap<(String, String), Vec<MatchResult>>) -> (ks: Vec<(String, String)>)
    ensures
        pairs_view(ks@).no_duplicates(),
        pairs_view(ks@).to_set() == pair_groups_contents(*m).dom(),
{
    m.keys().cloned().collect()
}

/// `HashMap::len` on an `AHashMap`. Claims: the number of keys.
#[verifier::external_body]
fn pair_groups_len(m: &AHashMap<(String, String), Vec<MatchResult>>) -> (n: usize)
    ensures
        n == pair_groups_contents(*m).dom().len(),
{
    m.len()
}

/// `AHashSet::new`. Claims: the new set is empty.
#[verifier::external_body]
fn name_set_new() -> (s: AHashSet<String>)
    ensures
        name_set_contents(s) == Set::<Seq<char>>::empty(),
{
    AHashSet::new()
}

/// `HashSet::insert` on an `AHashSet`. Claims: the string is added to the contents.
#[verifier::external_body]
fn name_set_insert(s: &mut AHashSet<String>, x: String)
    ensures
        name_set_contents(*final(s)) == name_set_contents(*old(s)).insert(x@),
{
    s.insert(x);
}

/// The elements, moved out in the order `HashSet::into_iter` walks them.
/// Claims: each comes out once and the list holds exactly the contents; the
/// order is left unsaid.
#[verifier::external_body]
fn name_set_into_vec(s: AHashSet<String>) -> (v: Vec<String>)
    ensures
        strs_view(v@).no_duplicates(),
        strs_view(v@).to_set() == name_set_contents(s),
{
    s.into_iter().collect()
}

/// `AHashSet::new`. Claims: the new set is empty.
#[verifier::external_body]
fn pair_set_new() -> (s: AHashSet<(String, String)>)
    ensures
        pair_set_contents(s) == Set::<(Seq<char>, Seq<char>)>::empty(),
{
    AHashSet::new()
}

/// `HashSet::insert` on an `AHashSet`. Claims: the pair is added to the contents.
#[verifier::external_body]
fn pair_set_insert(s: &mut AHashSet<(String, String)>, x: (String, String))
    ensures
        pair_set_contents(*final(s)) == pair_set_contents(*old(s)).insert(pair_view(x)),
{
    s.insert(x);
}

/// The elements, moved out in the order `HashSet::into_iter` walks them.
/// Claims: each comes out once and the list holds exactly the contents; the
/// order is left unsaid.
#[verifier::external_body]
fn pair_set_into_vec(s: AHashSet<(String, String)>) -> (v: Vec<(String, String)>)
    ensures
        pairs_view(v@).no_duplicates(),
        pairs_view(v@).to_set() == pair_set_contents(s),
{
    s.into_iter().collect()
}

// ---------------------------------------------------------------------------
// The grouper
// ---------------------------------------------------------------------------
/// Groups match results by category, by child and by tag.
pub struct ResultGrouper {
    by_app: AHashMap<String, Vec<MatchResult>>,
    by_child: AHashMap<(String, String), Vec<MatchResult>>,
    by_tag: AHashMap<String, Vec<MatchResult>>,
    all_results: Vec<MatchResult>,
    unmatched_lines: Vec<(usize, String)>,
    zero_copy_mode: bool,
    matched_count: usize,
}

pub open spec fn app_filed() -> spec_fn(MatchResultView, Seq<char>) -> bool {
    |r: MatchResultView, a: Seq<char>| has_app(r, a)
}

pub open spec fn child_filed() -> spec_fn(MatchResultView, (Seq<char>, Seq<char>)) -> bool {
    |r: MatchResultView, k: (Seq<char>, Seq<char>)| has_child(r, k)
}

pub open spec fn tag_filed() -> spec_fn(MatchResultView, Seq<char>) -> bool {
    |r: MatchResultView, t: Seq<char>| has_result_tag(r, t)
}

pub open spec fn unmatched_view(v: Seq<(usize, String)>) -> Seq<(usize, Seq<char>)> {
    v.map_values(|p: (usize, String)| (p.0, p.1@))
}

impl ResultGrouper {
    /// The three groupings file exactly the results of `all`; a zero-copy
    /// grouper keeps no result, and any other counts exactly those it keeps.
    pub closed spec fn wf(&self) -> bool {
        &&& name_groups_contents(self.by_app) == groups_of(results_view(self.all_results@), app_filed())
        &&& pair_groups_contents(self.by_child) == groups_of(results_view(self.all_results@), child_filed())
        &&& name_groups_contents(self.by_tag) == groups_of(results_view(self.all_results@), tag_filed())
        &&& self.zero_copy_mode ==> self.all_results@.len() == 0
        &&& !self.zero_copy_mode ==> self.matched_count == self.all_results@.len()
    }

    /// The number of results added so far, kept or not.
    pub closed spec fn counted(&self) -> nat {
        self.matched_count as nat
    }

    /// All results, in the order they were added.
    pub closed spec fn all(&self) -> Seq<MatchResultView> {
        results_view(self.all_results@)
    }

    /// The unmatched lines, in the order they were added.
    pub closed spec fn unmatched(&self) -> Seq<(usize, Seq<char>)> {
        unmatched_view(self.unmatched_lines@)
    }

    /// Whether the grouper was made for zero-copy results.
    pub closed spec fn is_zero_copy(&self) -> bool {
        self.zero_copy_mode
    }

    /// An empty grouper.
    pub fn new() -> (g: Self)
        ensures
            g.wf(),
            g.all() == Seq::<MatchResultView>::empty(),
            g.unmatched() == Seq::<(usize, Seq<char>)>::empty(),
            g.counted() == 0,
            !g.is_zero_copy(),
    {
        Self::empty(false)
    }

    /// An empty grouper in zero-copy mode: it keeps no results and only
    /// counts them.
    pub fn new_zero_copy() -> (g: Self)
        ensures
            g.wf(),
            g.all() == Seq::<MatchResultView>::empty(),
            g.unmatched() == Seq::<(usize, Seq<char>)>::empty(),
            g.counted() == 0,
            g.is_zero_copy(),
    {
        Self::empty(true)
    }

    fn empty(zero_copy_mode: bool) -> (g: Self)
        ensures
            g.wf(),
            g.all() == Seq::<MatchResultView>::empty(),
            g.unmatched() == Seq::<(usize, Seq<char>)>::empty(),
            g.counted() == 0,
            g.is_zero_copy() == zero_copy_mode,
    {
        let by_app = name_groups_new();
        let by_child = pair_groups_new();
        let by_tag = name_groups_new();
        let all_results: Vec<MatchResult> = Vec::new();
        let unmatched_lines: Vec<(usize, String)> = Vec::new();
        proof {
            let e = results_view(all_results@);
            assert(e =~= Seq::<MatchResultView>::empty());
            assert(name_groups_contents(by_app) =~= groups_of(e, app_filed()));
            assert(pair_groups_contents(by_child) =~= groups_of(e, child_filed()));
            assert(name_groups_contents(by_tag) =~= groups_of(e, tag_filed()));
            assert(unmatched_view(unmatched_lines@) =~= Seq::<(usize, Seq<char>)>::empty());
        }
        ResultGrouper { by_app, by_child, by_tag, all_results, unmatched_lines, zero_copy_mode, matched_count: 0 }
    }
}

impl Default for ResultGrouper {
    /// An empty grouper.
    fn default() -> (g: Self)
        ensures
            g.wf(),
            g.all() == Seq::<MatchResultView>::empty(),
            g.unmatched() == Seq::<(usize, Seq<char>)>::empty(),
            g.counted() == 0,
            !g.is_zero_copy(),
    {
        ResultGrouper::new()
    }
}

/// Files `result` under each of `keys` in a grouping keyed by strings.
fn file_under_names(
    m: &mut AHashMap<String, Vec<MatchResult>>,
    keys: &Vec<String>,
    result: &MatchResult,
    Ghost(all): Ghost<Seq<MatchResultView>>,
    Ghost(filed): Ghost<spec_fn(MatchResultView, Seq<char>) -> bool>,
)
    requires
        name_groups_contents(*old(m)) == groups_of(all, filed),
        strs_view(keys@).no_duplicates(),
        forall|k: Seq<char>| strs_view(keys@).contains(k) <==> filed(result@, k),
    ensures
        name_groups_contents(*final(m)) == groups_of(all.push(result@), filed),
{
    let ghost kv = strs_view(keys@);
    proof {
        lemma_groups_start(all, filed, result@);
        assert(kv.take(0).to_set() =~= Set::<Seq<char>>::empty());
    }
    let mut i: usize = 0;
    while i < keys.len()
        invariant
            kv == strs_view(keys@),
            kv.no_duplicates(),
            forall|k: Seq<char>| kv.contains(k) <==> filed(result@, k),
            0 <= i <= keys@.len(),
            name_groups_contents(*m) == groups_partly_added(all, filed, result@, kv.take(i as int).to_set()),
        decreases keys@.len() - i,
    {
        let key = &keys[i];
        proof {
            assert(kv.contains(kv[i as int]));
            if kv.take(i as int).to_set().contains(key@) {
                let j = choose|j: int| 0 <= j < i && kv.take(i as int)[j] == key@;
                assert(kv[j] == kv[i as int]);
            }
            lemma_groups_step(all, filed, result@, kv.take(i as int).to_set(), key@);
            assert(kv.take(i + 1) =~= kv.take(i as int) + seq![kv[i as int]]);
            Seq::<Seq<char>>::lemma_to_set_insert_commutes(kv.take(i as int), kv[i as int]);
        }
        let ghost m0 = name_groups_contents(*m);
        let ghost prev = if m0.contains_key(key@) { m0[key@] } else { Seq::empty() };
        let mut group = match name_groups_remove(m, key.as_str()) {
            Some(v) => v,
            None => Vec::new(),
        };
        let ghost before = group@;
        group.push(result.duplicate());
        proof {
            assert(results_view(group@) =~= results_view(before).push(result@));
        }
        name_groups_insert(m, key.clone(), group);
        proof {
            assert(results_view(before) == prev);
            assert(name_groups_contents(*m) =~= m0.insert(key@, prev.push(result@)));
            assert(name_groups_contents(*m) =~= groups_partly_added(all, filed, result@, kv.take(i + 1).to_set()));
        }
        i = i + 1;
    }
    proof {
        assert(kv.take(keys@.len() as int) =~= kv);
        lemma_groups_done(all, filed, result@, kv.to_set());
    }
}

/// Files `result` under each of `keys` in a grouping keyed by string pairs.
fn file_under_pairs(
    m: &mut AHashMap<(String, String), Vec<MatchResult>>,
    keys: &Vec<(String, String)>,
    result: &MatchResult,
    Ghost(all): Ghost<Seq<MatchResultView>>,
    Ghost(filed): Ghost<spec_fn(MatchResultView, (Seq<char>, Seq<char>)) -> bool>,
)
    requires
        pair_groups_contents(*old(m)) == groups_of(all, filed),
        pairs_view(keys@).no_duplicates(),
        forall|k: (Seq<char>, Seq<char>)| pairs_view(keys@).contains(k) <==> filed(result@, k),
    ensures
        pair_groups_contents(*final(m)) == groups_of(all.push(result@), filed),
{
    let ghost kv = pairs_view(keys@);
    proof {
        lemma_groups_start(all, filed, result@);
        assert(kv.take(0).to_set() =~= Set::<(Seq<char>, Seq<char>)>::empty());
    }
    let mut i: usize = 0;
    while i < keys.len()
        invariant
            kv == pairs_view(keys@),
            kv.no_duplicates(),
            forall|k: (Seq<char>, Seq<char>)| kv.contains(k) <==> filed(result@, k),
            0 <= i <= keys@.len(),
            pair_groups_contents(*m) == groups_partly_added(all, filed, result@, kv.take(i as int).to_set()),
        decreases keys@.len() - i,
    {
        let key = &keys[i];
        proof {
            assert(kv.contains(kv[i as int]));
            assert(kv[i as int] == pair_view(*key));
            if kv.take(i as int).to_set().contains(pair_view(*key)) {
                let j = choose|j: int| 0 <= j < i && kv.take(i as int)[j] == pair_view(*key);
                assert(kv[j] == kv[i as int]);
            }
            lemma_groups_step(all, filed, result@, kv.take(i as int).to_set(), pair_view(*key));
            assert(kv.take(i + 1) =~= kv.take(i as int) + seq![kv[i as int]]);
            Seq::<(Seq<char>, Seq<char>)>::lemma_to_set_insert_commutes(kv.take(i as int), kv[i as int]);
        }
        let ghost m0 = pair_groups_contents(*m);
        let ghost prev = if m0.contains_key(pair_view(*key)) { m0[pair_view(*key)] } else { Seq::empty() };
        let mut group = match pair_groups_remove(m, key) {
            Some(v) => v,
            None => Vec::new(),
        };
        let ghost before = group@;
        group.push(result.duplicate());
        proof {
            assert(results_view(group@) =~= results_view(before).push(result@));
        }
        let k2 = (key.0.clone(), key.1.clone());
        assert(pair_view(k2) == pair_view(*key));
        pair_groups_insert(m, k2, group);
        proof {
            assert(results_view(before) == prev);
            assert(pair_groups_contents(*m) =~= m0.insert(pair_view(*key), prev.push(result@)));
            assert(pair_groups_contents(*m) =~= groups_partly_added(all, filed, result@, kv.take(i + 1).to_set()));
        }
        i = i + 1;
    }
    proof {
        assert(kv.take(keys@.len() as int) =~= kv);
        lemma_groups_done(all, filed, result@, kv.to_set());
    }
}

/// The distinct categories, children and tags of a result's details.
fn result_keys(result: &MatchResult) -> (r: (Vec<String>, Vec<(String, String)>, Vec<String>))
    ensures
        strs_view(r.0@).no_duplicates(),
        forall|a: Seq<char>| strs_view(r.0@).contains(a) <==> has_app(result@, a),
        pairs_view(r.1@).no_duplicates(),
        forall|k: (Seq<char>, Seq<char>)| pairs_view(r.1@).contains(k) <==> has_child(result@, k),
        strs_view(r.2@).no_duplicates(),
        forall|t: Seq<char>| strs_view(r.2@).contains(t) <==> has_result_tag(result@, t),
{
    let ghost ds = details_view(result.matches@);
    let mut apps = name_set_new();
    let mut children = pair_set_new();
    let mut tags = name_set_new();
    let mut i: usize = 0;
    while i < result.matches.len()
        invariant
            ds == details_view(result.matches@),
            0 <= i <= result.matches@.len(),
            forall|a: Seq<char>| name_set_contents(apps).contains(a) <==> exists|j: int| 0 <= j < i && (#[trigger] ds[j]).app == a,
            forall|k: (Seq<char>, Seq<char>)| pair_set_contents(children).contains(k) <==> exists|j: int| 0 <= j < i && (#[trigger] ds[j]).app == k.0 && ds[j].child_name == k.1,
            forall|t: Seq<char>| name_set_contents(tags).contains(t) <==> exists|j: int| 0 <= j < i && (#[trigger] ds[j]).tag == t,
        decreases result.matches@.len() - i,
    {
        let d = &result.matches[i];
        assert(ds[i as int] == d@);
        name_set_insert(&mut apps, d.app.clone());
        pair_set_insert(&mut children, (d.app.clone(), d.child_name.clone()));
        name_set_insert(&mut tags, d.tag.clone());
        proof {
            assert forall|a: Seq<char>| name_set_contents(apps).contains(a) <==> exists|j: int| 0 <= j < i + 1 && (#[trigger] ds[j]).app == a by {
                if a == d.app@ {
                    assert(ds[i as int].app == a);
                }
            }
            assert forall|k: (Seq<char>, Seq<char>)| pair_set_contents(children).contains(k) <==> exists|j: int| 0 <= j < i + 1 && (#[trigger] ds[j]).app == k.0 && ds[j].child_name == k.1 by {
                if k == (d.app@, d.child_name@) {
                    assert(ds[i as int].app == k.0 && ds[i as int].child_name == k.1);
                }
            }
            assert forall|t: Seq<char>| name_set_contents(tags).contains(t) <==> exists|j: int| 0 <= j < i + 1 && (#[trigger] ds[j]).tag == t by {
                if t == d.tag@ {
                    assert(ds[i as int].tag == t);
                }
            }
        }
        i = i + 1;
    }
    let av = name_set_into_vec(apps);
    let cv = pair_set_into_vec(children);
    let tv = name_set_into_vec(tags);
    proof {
        assert forall|a: Seq<char>| strs_view(av@).contains(a) <==> has_app(result@, a) by {
            assert(strs_view(av@).contains(a) == strs_view(av@).to_set().contains(a));
        }
        assert forall|k: (Seq<char>, Seq<char>)| pairs_view(cv@).contains(k) <==> has_child(result@, k) by {
            assert(pairs_view(cv@).contains(k) == pairs_view(cv@).to_set().contains(k));
        }
        assert forall|t: Seq<char>| strs_view(tv@).contains(t) <==> has_result_tag(result@, t) by {
            assert(strs_view(tv@).contains(t) == strs_view(tv@).to_set().contains(t));
        }
    }
    (av, cv, tv)
}

impl ResultGrouper {
    /// Adds a result and counts it. A zero-copy grouper keeps nothing more;
    /// any other files the result once under each of its categories, each of
    /// its children and each of its tags, and appends it to the list of all
    /// results.
    pub fn add_result(&mut self, result: MatchResult)
        requires
            old(self).wf(),
            old(self).is_zero_copy() ==> old(self).counted() < usize::MAX,
        ensures
            final(self).wf(),
            !old(self).is_zero_copy() ==> final(self).all() == old(self).all().push(result@),
            old(self).is_zero_copy() ==> final(self).all() == old(self).all(),
            final(self).counted() == old(self).counted() + 1,
            final(self).unmatched() == old(self).unmatched(),
            final(self).is_zero_copy() == old(self).is_zero_copy(),
    {
        if self.zero_copy_mode {
            self.matched_count = self.matched_count + 1;
            return;
        }
        let ghost all = results_view(self.all_results@);
        let (apps, children, tags) = result_keys(&result);
        file_under_names(&mut self.by_app, &apps, &result, Ghost(all), Ghost(app_filed()));
        file_under_pairs(&mut self.by_child, &children, &result, Ghost(all), Ghost(child_filed()));
        file_under_names(&mut self.by_tag, &tags, &result, Ghost(all), Ghost(tag_filed()));
        let ghost rv = result@;
        self.all_results.push(result);
        self.matched_count = self.all_results.len();
        assert(results_view(self.all_results@) =~= all.push(rv));
    }

    /// The number of results added so far, kept or not.
    pub fn matched_count(&self) -> (n: usize)
        ensures
            n == self.counted(),
    {
        self.matched_count
    }

    /// Records a line that matched no rule.
    pub fn add_unmatched(&mut self, line_number: usize, line: String)
        requires
            old(self).wf(),
        ensures
            final(self).wf(),
            final(self).all() == old(self).all(),
            final(self).unmatched() == old(self).unmatched().push((line_number, line@)),
            final(self).counted() == old(self).counted(),
            final(self).is_zero_copy() == old(self).is_zero_copy(),
    {
        let ghost lv = line@;
        self.unmatched_lines.push((line_number, line));
        assert(unmatched_view(self.unmatched_lines@) =~= unmatched_view(old(self).unmatched_lines@).push((line_number, lv)));
    }

    /// The number of unmatched lines recorded.
    pub fn unmatched_count(&self) -> (n: usize)
        ensures
            n == self.unmatched().len(),
    {
        self.unmatched_lines.len()
    }
}

/// The keys under which some result of `all` is filed.
pub open spec fn keys_filed<K>(all: Seq<MatchResultView>, filed: spec_fn(MatchResultView, K) -> bool) -> Set<K> {
    Set::new(|k: K| exists|i: int| 0 <= i < all.len() && filed(#[trigger] all[i], k))
}

/// Some result is filed under `k` exactly when the results filed under `k` are not none.
pub proof fn lemma_filed_nonempty<K>(all: Seq<MatchResultView>, filed: spec_fn(MatchResultView, K) -> bool, k: K)
    ensures
        filed_under(all, filed, k).len() > 0 <==> keys_filed(all, filed).contains(k),
{
    let pred = |r: MatchResultView| filed(r, k);
    if filed_under(all, filed, k).len() > 0 {
        let q = all.filter(pred)[0];
        all.lemma_filter_pred(pred, 0);
        assert(all.filter(pred).contains(q));
        all.lemma_filter_contains_rev(pred, q);
        let i = choose|i: int| 0 <= i < all.len() && all[i] == q;
        assert(filed(all[i], k));
    }
    if keys_filed(all, filed).contains(k) {
        let i = choose|i: int| 0 <= i < all.len() && filed(#[trigger] all[i], k);
        all.lemma_filter_contains(pred, i);
    }
}

/// The children (by name) of category `app` under which some result of `all` is filed.
pub open spec fn children_filed(all: Seq<MatchResultView>, app: Seq<char>) -> Set<Seq<char>> {
    Set::new(|c: Seq<char>| keys_filed(all, child_filed()).contains((app, c)))
}

impl ResultGrouper {
    /// All results, in the order they were added.
    pub fn get_all(&self) -> (s: &[MatchResult])
        ensures
            results_view(s@) == self.all(),
    {
        self.all_results.as_slice()
    }

    /// The results with a detail of category `app`, in the order they were added.
    pub fn get_by_app(&self, app: &str) -> (r: Option<&[MatchResult]>)
        requires
            self.wf(),
        ensures
            match r {
                Some(s) => results_view(s@) == filed_under(self.all(), app_filed(), app@) && s@.len() > 0,
                None => filed_under(self.all(), app_filed(), app@).len() == 0,
            },
    {
        match name_groups_get(&self.by_app, app) {
            Some(v) => Some(v.as_slice()),
            None => None,
        }
    }

    /// The results with a detail of child `child_name` of category `app`, in
    /// the order they were added.
    pub fn get_by_child(&self, app: &str, child_name: &str) -> (r: Option<&[MatchResult]>)
        requires
            self.wf(),
        ensures
            match r {
                Some(s) => results_view(s@) == filed_under(self.all(), child_filed(), (app@, child_name@)) && s@.len() > 0,
                None => filed_under(self.all(), child_filed(), (app@, child_name@)).len() == 0,
            },
    {
        let key = (app.to_string(), child_name.to_string());
        match pair_groups_get(&self.by_child, &key) {
            Some(v) => Some(v.as_slice()),
            None => None,
        }
    }

    /// The results with a detail carrying `tag`, in the order they were added.
    pub fn get_by_tag(&self, tag: &str) -> (r: Option<&[MatchResult]>)
        requires
            self.wf(),
        ensures
            match r {
                Some(s) => results_view(s@) == filed_under(self.all(), tag_filed(), tag@) && s@.len() > 0,
                None => filed_under(self.all(), tag_filed(), tag@).len() == 0,
            },
    {
        match name_groups_get(&self.by_tag, tag) {
            Some(v) => Some(v.as_slice()),
            None => None,
        }
    }

    /// The categories of all results, sorted, each once.
    pub fn get_all_apps(&self) -> (apps: Vec<String>)
        requires
            self.wf(),
        ensures
            strictly_sorted(strs_view(apps@)),
            strs_view(apps@).to_set() == keys_filed(self.all(), app_filed()),
    {
        let keys = name_groups_keys(&self.by_app);
        let apps = sorted_unique(keys);
        proof {
            assert forall|a: Seq<char>| #[trigger] strs_view(apps@).to_set().contains(a) == keys_filed(self.all(), app_filed()).contains(a) by {
                lemma_filed_nonempty(self.all(), app_filed(), a);
            }
            assert(strs_view(apps@).to_set() =~= keys_filed(self.all(), app_filed()));
        }
        apps
    }

    /// The children of category `app` among all results, sorted, each once.
    pub fn get_children_of_app(&self, app: &str) -> (children: Vec<String>)
        requires
            self.wf(),
        ensures
            strictly_sorted(strs_view(children@)),
            strs_view(children@).to_set() == children_filed(self.all(), app@),
    {
        let app_name = app.to_string();
        let keys = pair_groups_keys(&self.by_child);
        let ghost kv = pairs_view(keys@);
        let mut found: Vec<String> = Vec::new();
        let mut i: usize = 0;
        while i < keys.len()
            invariant
                kv == pairs_view(keys@),
                app_name@ == app@,
                0 <= i <= keys@.len(),
                forall|c: Seq<char>| strs_view(found@).contains(c) <==> exists|j: int| 0 <= j < i && #[trigger] kv[j] == (app@, c),
            decreases keys@.len() - i,
        {
            let (a, c) = &keys[i];
            assert(kv[i as int] == (a@, c@));
            if *a == app_name {
                let ghost prev = strs_view(found@);
                found.push(c.clone());
                proof {
                    assert(strs_view(found@) =~= prev.push(c@));
                    assert forall|c2: Seq<char>| strs_view(found@).contains(c2) <==> exists|j: int| 0 <= j < i + 1 && #[trigger] kv[j] == (app@, c2) by {
                        if strs_view(found@).contains(c2) {
                            let k = choose|k: int| 0 <= k < strs_view(found@).len() && strs_view(found@)[k] == c2;
                            if k < prev.len() {
                                assert(prev.contains(c2));
                            }
                        }
                        if exists|j: int| 0 <= j < i + 1 && #[trigger] kv[j] == (app@, c2) {
                            let j = choose|j: int| 0 <= j < i + 1 && #[trigger] kv[j] == (app@, c2);
                            if j < i {
                                assert(prev.contains(c2));
                                let k = choose|k: int| 0 <= k < prev.len() && prev[k] == c2;
                                assert(strs_view(found@)[k] == c2);
                            } else {
                                assert(strs_view(found@)[prev.len() as int] == c2);
                            }
                        }
                    }
                }
            } else {
                proof {
                    assert forall|c2: Seq<char>| strs_view(found@).contains(c2) <==> exists|j: int| 0 <= j < i + 1 && #[trigger] kv[j] == (app@, c2) by {
                        if exists|j: int| 0 <= j < i + 1 && #[trigger] kv[j] == (app@, c2) {
                            let j = choose|j: int| 0 <= j < i + 1 && #[trigger] kv[j] == (app@, c2);
                            assert(j < i);
                        }
                    }
                }
            }
            i = i + 1;
        }
        let ghost collected = strs_view(found@);
        let children = sorted_unique(found);
        proof {
            assert forall|c: Seq<char>| #[trigger] strs_view(children@).to_set().contains(c) == children_filed(self.all(), app@).contains(c) by {
                lemma_filed_nonempty(self.all(), child_filed(), (app@, c));
                assert(strs_view(children@).to_set().contains(c) == collected.contains(c));
                if collected.contains(c) {
                    let j = choose|j: int| 0 <= j < i && #[trigger] kv[j] == (app@, c);
                    assert(kv.to_set().contains(kv[j]));
                }
                if children_filed(self.all(), app@).contains(c) {
                    assert(kv.to_set().contains((app@, c)));
                    let j = choose|j: int| 0 <= j < kv.len() && kv[j] == (app@, c);
                }
            }
            assert(strs_view(children@).to_set() =~= children_filed(self.all(), app@));
        }
        children
    }

    /// Adds a zero-copy result, turned into an owned one first, as
    /// `add_result` adds it.
    pub fn add_result_zero_copy(&mut self, result: MatchResultZeroCopy)
        requires
            old(self).wf(),
            old(self).is_zero_copy() ==> old(self).counted() < usize::MAX,
        ensures
            final(self).wf(),
            !old(self).is_zero_copy() ==> final(self).all() == old(self).all().push(result@),
            old(self).is_zero_copy() ==> final(self).all() == old(self).all(),
            final(self).counted() == old(self).counted() + 1,
            final(self).unmatched() == old(self).unmatched(),
            final(self).is_zero_copy() == old(self).is_zero_copy(),
    {
        let owned = result.into_owned();
        self.add_result_owned(owned);
    }

    /// Adds an owned result, turned into a `MatchResult` first.
    fn add_result_owned(&mut self, result: MatchResultOwned)
        requires
            old(self).wf(),
            old(self).is_zero_copy() ==> old(self).counted() < usize::MAX,
        ensures
            final(self).wf(),
            !old(self).is_zero_copy() ==> final(self).all() == old(self).all().push(result@),
            old(self).is_zero_copy() ==> final(self).all() == old(self).all(),
            final(self).counted() == old(self).counted() + 1,
            final(self).unmatched() == old(self).unmatched(),
            final(self).is_zero_copy() == old(self).is_zero_copy(),
    {
        let mut matches: Vec<MatchDetail> = Vec::new();
        let mut i: usize = 0;
        while i < result.matches.len()
            invariant
                0 <= i <= result.matches@.len(),
                matches@.len() == i,
                details_view(matches@) == owned_details_view(result.matches@).take(i as int),
            decreases result.matches@.len() - i,
        {
            let m = &result.matches[i];
            let d = MatchDetail {
                app: m.app.clone(),
                child_name: m.child_name.clone(),
                tag: m.tag.clone(),
                mean: m.mean.clone(),
                level: m.level.clone(),
                regex_captures: clone_opt_captures(&m.regex_captures),
            };
            let ghost prev = matches@;
            matches.push(d);
            proof {
                assert(owned_details_view(result.matches@)[i as int] == m@);
                assert(details_view(matches@) =~= owned_details_view(result.matches@).take(i + 1));
            }
            i = i + 1;
        }
        assert(owned_details_view(result.matches@).take(i as int) =~= owned_details_view(result.matches@));
        let match_result = MatchResult { line: result.line.clone(), line_number: result.line_number, matches };
        self.add_result(match_result);
    }
}

// ---------------------------------------------------------------------------
// The report tree (what the JSON output lays out)
// ---------------------------------------------------------------------------
/// One child of a category in the report: its name, how many results are
/// filed under it, and those results.
pub struct ChildReport<'a> {
    pub name: String,
    pub match_count: usize,
    pub matches: &'a [MatchResult],
}

/// One category in the report, with its children in name order.
pub struct CategoryReport<'a> {
    pub app: String,
    pub children: Vec<ChildReport<'a>>,
}

/// The whole report: the number of results and of unmatched lines, and the
/// categories in name order.
pub struct ResultReport<'a> {
    pub total_matches: usize,
    pub unmatched_count: usize,
    pub categories: Vec<CategoryReport<'a>>,
}

/// `c` reports child `name` of category `app` among the results `all`.
pub open spec fn child_report_ok(all: Seq<MatchResultView>, app: Seq<char>, name: Seq<char>, c: ChildReport) -> bool {
    &&& c.name@ == name
    &&& results_view(c.matches@) == filed_under(all, child_filed(), (app, name))
    &&& c.match_count == c.matches@.len()
}

/// `c` reports category `app`: its children under which some result is
/// filed, in name order.
pub open spec fn category_report_ok(all: Seq<MatchResultView>, app: Seq<char>, c: CategoryReport) -> bool {
    let names = sorted_listing(children_filed(all, app));
    &&& c.app@ == app
    &&& c.children@.len() == names.len()
    &&& forall|j: int| 0 <= j < names.len() ==> child_report_ok(all, app, names[j], #[trigger] c.children@[j])
}

/// `r` reports the results `all` and `unmatched` unmatched lines: the
/// categories under which some result is filed, in name order.
pub open spec fn report_tree_ok(all: Seq<MatchResultView>, unmatched: nat, r: ResultReport) -> bool {
    let apps = sorted_listing(keys_filed(all, app_filed()));
    &&& r.total_matches == all.len()
    &&& r.unmatched_count == unmatched
    &&& r.categories@.len() == apps.len()
    &&& forall|i: int| 0 <= i < apps.len() ==> category_report_ok(all, apps[i], #[trigger] r.categories@[i])
}

impl ResultGrouper {
    /// The report tree of the results: the categories in name order, each
    /// with its children in name order, each with the results filed under it.
    pub fn report_tree(&self) -> (r: ResultReport<'_>)
        requires
            self.wf(),
        ensures
            report_tree_ok(self.all(), self.unmatched().len(), r),
    {
        let ghost all = self.all();
        let apps = self.get_all_apps();
        let ghost av = strs_view(apps@);
        proof {
            lemma_sorted_listing(av);
        }
        let mut categories: Vec<CategoryReport<'_>> = Vec::new();
        let mut i: usize = 0;
        while i < apps.len()
            invariant
                self.wf(),
                all == self.all(),
                av == strs_view(apps@),
                av == sorted_listing(keys_filed(all, app_filed())),
                0 <= i <= apps@.len(),
                categories@.len() == i,
                forall|i2: int| 0 <= i2 < i ==> category_report_ok(all, av[i2], #[trigger] categories@[i2]),
            decreases apps@.len() - i,
        {
            let app = &apps[i];
            let children = self.get_children_of_app(app.as_str());
            let ghost cv = strs_view(children@);
            proof {
                lemma_sorted_listing(cv);
            }
            let mut kids: Vec<ChildReport<'_>> = Vec::new();
            let mut j: usize = 0;
            while j < children.len()
                invariant
                    self.wf(),
                    all == self.all(),
                    cv == strs_view(children@),
                    cv == sorted_listing(children_filed(all, app@)),
                    cv.to_set() == children_filed(all, app@),
                    0 <= j <= children@.len(),
                    kids@.len() == j,
                    forall|j2: int| 0 <= j2 < j ==> child_report_ok(all, app@, cv[j2], #[trigger] kids@[j2]),
                decreases children@.len() - j,
            {
                let name = &children[j];
                proof {
                    assert(cv[j as int] == name@);
                    assert(cv.to_set().contains(name@));
                    lemma_filed_nonempty(all, child_filed(), (app@, name@));
                }
                match self.get_by_child(app.as_str(), name.as_str()) {
                    Some(rs) => {
                        kids.push(ChildReport { name: name.clone(), match_count: rs.len(), matches: rs });
                    },
                    None => {
                        proof {
                            assert(false);
                        }
                    },
                }
                j = j + 1;
            }
            categories.push(CategoryReport { app: app.clone(), children: kids });
            proof {
                assert(category_report_ok(all, av[i as int], categories@[i as int]));
            }
            i = i + 1;
        }
        ResultReport { total_matches: self.all_results.len(), unmatched_count: self.unmatched_count(), categories }
    }
}

// ---------------------------------------------------------------------------
// The text report
// ---------------------------------------------------------------------------
/// The lines of the named captures, name by name in the order `keys`.
pub open spec fn capture_lines(m: Map<Seq<char>, Seq<char>>, keys: Seq<Seq<char>>) -> Seq<Seq<char>>
    decreases keys.len(),
{
    if keys.len() == 0 {
        Seq::empty()
    } else {
        capture_lines(m, keys.drop_last()).push("       "@ + keys.last() + ": "@ + m[keys.last()])
    }
}

/// The lines of one detail: its level, meaning and tag, then its named
/// captures in name order.
pub open spec fn detail_lines(d: MatchDetailView) -> Seq<Seq<char>> {
    seq!["    -> ["@ + d.level + "] "@ + d.mean + " (标签: "@ + d.tag + ")"@] + match d.regex_captures {
        Some(m) => capture_lines(m, sorted_listing(m.dom())),
        None => Seq::empty(),
    }
}

/// The lines of the details of child `child` of category `app`.
pub open spec fn details_lines(ds: Seq<MatchDetailView>, app: Seq<char>, child: Seq<char>) -> Seq<Seq<char>>
    decreases ds.len(),
{
    if ds.len() == 0 {
        Seq::empty()
    } else {
        details_lines(ds.drop_last(), app, child) + if ds.last().app == app && ds.last().child_name == child {
            detail_lines(ds.last())
        } else {
            Seq::empty()
        }
    }
}

/// The lines of one result under child `child` of category `app`.
pub open spec fn result_lines(r: MatchResultView, app: Seq<char>, child: Seq<char>) -> Seq<Seq<char>> {
    seq!["  [行号 "@ + decimal(r.line_number as nat) + "] "@ + r.line] + details_lines(r.matches, app, child) + seq![Seq::<char>::empty()]
}

pub open spec fn results_lines(rs: Seq<MatchResultView>, app: Seq<char>, child: Seq<char>) -> Seq<Seq<char>>
    decreases rs.len(),
{
    if rs.len() == 0 {
        Seq::empty()
    } else {
        results_lines(rs.drop_last(), app, child) + result_lines(rs.last(), app, child)
    }
}

/// The section of child `child` of category `app`.
pub open spec fn child_section(all: Seq<MatchResultView>, app: Seq<char>, child: Seq<char>) -> Seq<Seq<char>> {
    let rs = filed_under(all, child_filed(), (app, child));
    if rs.len() > 0 {
        seq![Seq::<char>::empty(), "  【子类】"@ + child, "  "@ + repeat('-', 58)] + results_lines(rs, app, child)
    } else {
        Seq::empty()
    }
}

pub open spec fn children_sections(all: Seq<MatchResultView>, app: Seq<char>, children: Seq<Seq<char>>) -> Seq<Seq<char>>
    decreases children.len(),
{
    if children.len() == 0 {
        Seq::empty()
    } else {
        children_sections(all, app, children.drop_last()) + child_section(all, app, children.last())
    }
}

/// The section of category `app`: its children in name order.
pub open spec fn app_section(all: Seq<MatchResultView>, app: Seq<char>) -> Seq<Seq<char>> {
    seq![Seq::<char>::empty(), "【大类】"@ + app, repeat('=', 60)] + children_sections(all, app, sorted_listing(children_filed(all, app)))
}

pub open spec fn apps_sections(all: Seq<MatchResultView>, apps: Seq<Seq<char>>) -> Seq<Seq<char>>
    decreases apps.len(),
{
    if apps.len() == 0 {
        Seq::empty()
    } else {
        apps_sections(all, apps.drop_last()) + app_section(all, apps.last())
    }
}

/// The text report of the results: a header with the number of results, then
/// the categories in name order, each with its children in name order, each
/// with its results in the order they were added.
pub open spec fn report_lines(all: Seq<MatchResultView>) -> Seq<Seq<char>> {
    seq!["===== 日志解析结果 ====="@, "总匹配行数: "@ + decimal(all.len()), Seq::<char>::empty()] + apps_sections(all, sorted_listing(keys_filed(all, app_filed())))
}

fn push_line(lines: &mut Vec<String>, line: String)
    ensures
        strs_view(final(lines)@) == strs_view(old(lines)@).push(line@),
{
    lines.push(line);
    assert(strs_view(lines@) =~= strs_view(old(lines)@).push(line@));
}

/// Appends the lines of one detail.
fn render_detail(d: &MatchDetail, lines: &mut Vec<String>)
    ensures
        strs_view(final(lines)@) == strs_view(old(lines)@) + detail_lines(d@),
{
    let mut head = "    -> [".to_string();
    head.append(d.level.as_str());
    head.append("] ");
    head.append(d.mean.as_str());
    head.append(" (标签: ");
    head.append(d.tag.as_str());
    head.append(")");
    push_line(lines, head);
    let ghost after_head = strs_view(lines@);
    match &d.regex_captures {
        Some(m) => {
            let keys = sorted_unique(captures_keys(m));
            let ghost cm = captures_contents(*m);
            let ghost kv = strs_view(keys@);
            proof {
                lemma_sorted_listing(kv);
                assert(kv.to_set() == cm.dom());
                assert(capture_lines(cm, kv.take(0)) =~= Seq::<Seq<char>>::empty());
                assert(after_head =~= after_head + capture_lines(cm, kv.take(0)));
            }
            let mut i: usize = 0;
            while i < keys.len()
                invariant
                    kv == strs_view(keys@),
                    kv.to_set() == cm.dom(),
                    cm == captures_contents(*m),
                    0 <= i <= keys@.len(),
                    strs_view(lines@) == after_head + capture_lines(cm, kv.take(i as int)),
                decreases keys@.len() - i,
            {
                let key = &keys[i];
                proof {
                    assert(kv.to_set().contains(kv[i as int]));
                }
                match captures_get(m, key.as_str()) {
                    Some(value) => {
                        let mut line = "       ".to_string();
                        line.append(key.as_str());
                        line.append(": ");
                        line.append(value.as_str());
                        push_line(lines, line);
                    },
                    None => {},
                }
                proof {
                    assert(kv.take(i + 1).drop_last() =~= kv.take(i as int));
                    assert(kv.take(i + 1).last() == kv[i as int]);
                    assert(strs_view(lines@) =~= after_head + capture_lines(cm, kv.take(i + 1)));
                }
                i = i + 1;
            }
            assert(kv.take(keys@.len() as int) =~= kv);
        },
        None => {},
    }
    assert(strs_view(lines@) =~= strs_view(old(lines)@) + detail_lines(d@));
}

/// Appends the lines of one result under child `child` of category `app`.
fn render_result(r: &MatchResult, app: &String, child: &String, lines: &mut Vec<String>)
    ensures
        strs_view(final(lines)@) == strs_view(old(lines)@) + result_lines(r@, app@, child@),
{
    let mut head = "  [行号 ".to_string();
    push_decimal(&mut head, r.line_number);
    head.append("] ");
    head.append(r.line.as_str());
    push_line(lines, head);
    let ghost base = strs_view(lines@);
    let ghost ds = details_view(r.matches@);
    let mut i: usize = 0;
    assert(ds.take(0) =~= Seq::<MatchDetailView>::empty());
    assert(base =~= base + details_lines(ds.take(0), app@, child@));
    while i < r.matches.len()
        invariant
            ds == details_view(r.matches@),
            0 <= i <= r.matches@.len(),
            strs_view(lines@) == base + details_lines(ds.take(i as int), app@, child@),
        decreases r.matches@.len() - i,
    {
        let d = &r.matches[i];
        let ghost before = strs_view(lines@);
        if d.app == *app && d.child_name == *child {
            render_detail(d, lines);
        }
        proof {
            assert(ds.take(i + 1).drop_last() =~= ds.take(i as int));
            assert(ds.take(i + 1).last() == d@);
            assert(strs_view(lines@) =~= base + details_lines(ds.take(i + 1), app@, child@));
        }
        i = i + 1;
    }
    assert(ds.take(r.matches@.len() as int) =~= ds);
    push_line(lines, String::new());
    assert(strs_view(lines@) =~= strs_view(old(lines)@) + result_lines(r@, app@, child@));
}

impl ResultGrouper {
    /// Appends the section of child `child` of category `app`.
    fn render_child(&self, app: &String, child: &String, lines: &mut Vec<String>)
        requires
            self.wf(),
        ensures
            strs_view(final(lines)@) == strs_view(old(lines)@) + child_section(self.all(), app@, child@),
    {
        match self.get_by_child(app.as_str(), child.as_str()) {
            Some(results) => {
                push_line(lines, String::new());
                let mut head = "  【子类】".to_string();
                head.append(child.as_str());
                push_line(lines, head);
                let mut rule = "  ".to_string();
                push_repeat(&mut rule, '-', 58);
                push_line(lines, rule);
                let ghost base = strs_view(lines@);
                let ghost rs = results_view(results@);
                let mut i: usize = 0;
                assert(rs.take(0) =~= Seq::<MatchResultView>::empty());
                assert(base =~= base + results_lines(rs.take(0), app@, child@));
                while i < results.len()
                    invariant
                        rs == results_view(results@),
                        0 <= i <= results@.len(),
                        strs_view(lines@) == base + results_lines(rs.take(i as int), app@, child@),
                    decreases results@.len() - i,
                {
                    render_result(&results[i], app, child, lines);
                    proof {
                        assert(rs.take(i + 1).drop_last() =~= rs.take(i as int));
                        assert(rs.take(i + 1).last() == results@[i as int]@);
                        assert(strs_view(lines@) =~= base + results_lines(rs.take(i + 1), app@, child@));
                    }
                    i = i + 1;
                }
                assert(rs.take(results@.len() as int) =~= rs);
                assert(strs_view(lines@) =~= strs_view(old(lines)@) + child_section(self.all(), app@, child@));
            },
            None => {
                assert(strs_view(lines@) =~= strs_view(old(lines)@) + child_section(self.all(), app@, child@));
            },
        }
    }

    /// Appends the section of category `app`.
    fn render_app(&self, app: &String, lines: &mut Vec<String>)
        requires
            self.wf(),
        ensures
            strs_view(final(lines)@) == strs_view(old(lines)@) + app_section(self.all(), app@),
    {
        push_line(lines, String::new());
        let mut head = "【大类】".to_string();
        head.append(app.as_str());
        push_line(lines, head);
        let mut rule = String::new();
        push_repeat(&mut rule, '=', 60);
        push_line(lines, rule);
        let children = self.get_children_of_app(app.as_str());
        let ghost cv = strs_view(children@);
        proof {
            lemma_sorted_listing(cv);
        }
        let ghost base = strs_view(lines@);
        let mut i: usize = 0;
        assert(cv.take(0) =~= Seq::<Seq<char>>::empty());
        assert(base =~= base + children_sections(self.all(), app@, cv.take(0)));
        while i < children.len()
            invariant
                self.wf(),
                cv == strs_view(children@),
                0 <= i <= children@.len(),
                strs_view(lines@) == base + children_sections(self.all(), app@, cv.take(i as int)),
            decreases children@.len() - i,
        {
            self.render_child(app, &children[i], lines);
            proof {
                assert(cv.take(i + 1).drop_last() =~= cv.take(i as int));
                assert(cv.take(i + 1).last() == cv[i as int]);
                assert(strs_view(lines@) =~= base + children_sections(self.all(), app@, cv.take(i + 1)));
            }
            i = i + 1;
        }
        assert(cv.take(children@.len() as int) =~= cv);
        assert(strs_view(lines@) =~= strs_view(old(lines)@) + app_section(self.all(), app@));
    }

    /// The lines of the text report (what `output_to_file` writes): a header
    /// with the number of results, then each category in name order, with its
    /// children in name order, with their results in the order they were added.
    pub fn report_lines(&self) -> (lines: Vec<String>)
        requires
            self.wf(),
        ensures
            strs_view(lines@) == report_lines(self.all()),
    {
        let mut lines: Vec<String> = Vec::new();
        push_line(&mut lines, "===== 日志解析结果 =====".to_string());
        let mut count = "总匹配行数: ".to_string();
        push_decimal(&mut count, self.all_results.len());
        push_line(&mut lines, count);
        push_line(&mut lines, String::new());
        let apps = self.get_all_apps();
        let ghost av = strs_view(apps@);
        proof {
            lemma_sorted_listing(av);
        }
        let ghost base = strs_view(lines@);
        let mut i: usize = 0;
        assert(av.take(0) =~= Seq::<Seq<char>>::empty());
        assert(base =~= base + apps_sections(self.all(), av.take(0)));
        while i < apps.len()
            invariant
                self.wf(),
                av == strs_view(apps@),
                0 <= i <= apps@.len(),
                strs_view(lines@) == base + apps_sections(self.all(), av.take(i as int)),
            decreases apps@.len() - i,
        {
            self.render_app(&apps[i], &mut lines);
            proof {
                assert(av.take(i + 1).drop_last() =~= av.take(i as int));
                assert(av.take(i + 1).last() == av[i as int]);
                assert(strs_view(lines@) =~= base + apps_sections(self.all(), av.take(i + 1)));
            }
            i = i + 1;
        }
        assert(av.take(apps@.len() as int) =~= av);
        assert(strs_view(lines@) =~= report_lines(self.all()));
        lines
    }
}

// ---------------------------------------------------------------------------
// The summary
// ---------------------------------------------------------------------------
pub open spec fn summary_child(all: Seq<MatchResultView>, app: Seq<char>, child: Seq<char>) -> Seq<Seq<char>> {
    let rs = filed_under(all, child_filed(), (app, child));
    if rs.len() > 0 {
        seq!["    └─ "@ + child + ": "@ + decimal(rs.len()) + " 行"@]
    } else {
        Seq::empty()
    }
}

pub open spec fn summary_children(all: Seq<MatchResultView>, app: Seq<char>, children: Seq<Seq<char>>) -> Seq<Seq<char>>
    decreases children.len(),
{
    if children.len() == 0 {
        Seq::empty()
    } else {
        summary_children(all, app, children.drop_last()) + summary_child(all, app, children.last())
    }
}

/// The summary of category `app`: its number of results, then each child's.
pub open spec fn summary_app(all: Seq<MatchResultView>, app: Seq<char>) -> Seq<Seq<char>> {
    let rs = filed_under(all, app_filed(), app);
    if rs.len() > 0 {
        seq!["  "@ + app + ": "@ + decimal(rs.len()) + " 行"@] + summary_children(all, app, sorted_listing(children_filed(all, app)))
    } else {
        Seq::empty()
    }
}

pub open spec fn summary_apps(all: Seq<MatchResultView>, apps: Seq<Seq<char>>) -> Seq<Seq<char>>
    decreases apps.len(),
{
    if apps.len() == 0 {
        Seq::empty()
    } else {
        summary_apps(all, apps.drop_last()) + summary_app(all, apps.last())
    }
}

/// The summary: the numbers of results, categories, children and tags, each
/// category's and child's number of results in name order, and the number of
/// unmatched lines when there are some.
pub open spec fn summary_lines(all: Seq<MatchResultView>, unmatched: nat) -> Seq<Seq<char>> {
    seq![
        Seq::<char>::empty(),
        "===== 结果摘要 ====="@,
        "总匹配行数: "@ + decimal(all.len()),
        "大类数量: "@ + decimal(keys_filed(all, app_filed()).len()),
        "子类数量: "@ + decimal(keys_filed(all, child_filed()).len()),
        "标签数量: "@ + decimal(keys_filed(all, tag_filed()).len()),
        Seq::<char>::empty(),
        "各大类匹配统计:"@,
    ] + summary_apps(all, sorted_listing(keys_filed(all, app_filed()))) + if unmatched > 0 {
        seq![Seq::<char>::empty(), "未匹配行数: "@ + decimal(unmatched)]
    } else {
        Seq::empty()
    }
}

/// The text `prefix`, then `n` in decimal, then `suffix`.
fn count_line(prefix: &str, n: usize, suffix: &str) -> (s: String)
    ensures
        s@ == prefix@ + decimal(n as nat) + suffix@,
{
    let mut s = prefix.to_string();
    push_decimal(&mut s, n);
    s.append(suffix);
    s
}

impl ResultGrouper {
    fn summarize_app(&self, app: &String, lines: &mut Vec<String>)
        requires
            self.wf(),
        ensures
            strs_view(final(lines)@) == strs_view(old(lines)@) + summary_app(self.all(), app@),
    {
        match name_groups_get(&self.by_app, app.as_str()) {
            Some(results) => {
                let mut head = "  ".to_string();
                head.append(app.as_str());
                head.append(": ");
                let head = count_line(head.as_str(), results.len(), " 行");
                push_line(lines, head);
                let children = self.get_children_of_app(app.as_str());
                let ghost cv = strs_view(children@);
                proof {
                    lemma_sorted_listing(cv);
                }
                let ghost base = strs_view(lines@);
                let mut i: usize = 0;
                assert(cv.take(0) =~= Seq::<Seq<char>>::empty());
                assert(base =~= base + summary_children(self.all(), app@, cv.take(0)));
                while i < children.len()
                    invariant
                        self.wf(),
                        cv == strs_view(children@),
                        0 <= i <= children@.len(),
                        strs_view(lines@) == base + summary_children(self.all(), app@, cv.take(i as int)),
                    decreases children@.len() - i,
                {
                    let child = &children[i];
                    match self.get_by_child(app.as_str(), child.as_str()) {
                        Some(child_results) => {
                            let mut line = "    └─ ".to_string();
                            line.append(child.as_str());
                            line.append(": ");
                            let line = count_line(line.as_str(), child_results.len(), " 行");
                            push_line(lines, line);
                        },
                        None => {},
                    }
                    proof {
                        assert(cv.take(i + 1).drop_last() =~= cv.take(i as int));
                        assert(cv.take(i + 1).last() == cv[i as int]);
                        assert(strs_view(lines@) =~= base + summary_children(self.all(), app@, cv.take(i + 1)));
                    }
                    i = i + 1;
                }
                assert(cv.take(children@.len() as int) =~= cv);
                assert(strs_view(lines@) =~= strs_view(old(lines)@) + summary_app(self.all(), app@));
            },
            None => {
                assert(strs_view(lines@) =~= strs_view(old(lines)@) + summary_app(self.all(), app@));
            },
        }
    }

    /// The lines of the summary (what `print_summary` prints).
    pub fn summary_lines(&self) -> (lines: Vec<String>)
        requires
            self.wf(),
        ensures
            strs_view(lines@) == summary_lines(self.all(), self.unmatched().len()),
    {
        let mut lines: Vec<String> = Vec::new();
        push_line(&mut lines, String::new());
        push_line(&mut lines, "===== 结果摘要 =====".to_string());
        push_line(&mut lines, count_line("总匹配行数: ", self.all_results.len(), ""));
        let napps = name_groups_len(&self.by_app);
        let nchildren = pair_groups_len(&self.by_child);
        let ntags = name_groups_len(&self.by_tag);
        proof {
            let all = self.all();
            assert forall|k: Seq<char>| #[trigger] groups_of(all, app_filed()).dom().contains(k) == keys_filed(all, app_filed()).contains(k) by {
                lemma_filed_nonempty(all, app_filed(), k);
            }
            assert(groups_of(all, app_filed()).dom() =~= keys_filed(all, app_filed()));
            assert forall|k: (Seq<char>, Seq<char>)| #[trigger] groups_of(all, child_filed()).dom().contains(k) == keys_filed(all, child_filed()).contains(k) by {
                lemma_filed_nonempty(all, child_filed(), k);
            }
            assert(groups_of(all, child_filed()).dom() =~= keys_filed(all, child_filed()));
            assert forall|k: Seq<char>| #[trigger] groups_of(all, tag_filed()).dom().contains(k) == keys_filed(all, tag_filed()).contains(k) by {
                lemma_filed_nonempty(all, tag_filed(), k);
            }
            assert(groups_of(all, tag_filed()).dom() =~= keys_filed(all, tag_filed()));
            reveal_strlit("");
        }
        push_line(&mut lines, count_line("大类数量: ", napps, ""));
        push_line(&mut lines, count_line("子类数量: ", nchildren, ""));
        push_line(&mut lines, count_line("标签数量: ", ntags, ""));
        push_line(&mut lines, String::new());
        push_line(&mut lines, "各大类匹配统计:".to_string());
        let apps = self.get_all_apps();
        let ghost av = strs_view(apps@);
        proof {
            lemma_sorted_listing(av);
        }
        let ghost base = strs_view(lines@);
        let mut i: usize = 0;
        assert(av.take(0) =~= Seq::<Seq<char>>::empty());
        assert(base =~= base + summary_apps(self.all(), av.take(0)));
        while i < apps.len()
            invariant
                self.wf(),
                av == strs_view(apps@),
                0 <= i <= apps@.len(),
                strs_view(lines@) == base + summary_apps(self.all(), av.take(i as int)),
            decreases apps@.len() - i,
        {
            self.summarize_app(&apps[i], &mut lines);
            proof {
                assert(av.take(i + 1).drop_last() =~= av.take(i as int));
                assert(av.take(i + 1).last() == av[i as int]);
                assert(strs_view(lines@) =~= base + summary_apps(self.all(), av.take(i + 1)));
            }
            i = i + 1;
        }
        assert(av.take(apps@.len() as int) =~= av);
        let ghost before_tail = strs_view(lines@);
        if self.unmatched_lines.len() > 0 {
            push_line(&mut lines, String::new());
            push_line(&mut lines, count_line("未匹配行数: ", self.unmatched_lines.len(), ""));
        }
        proof {
            assert(self.unmatched().len() == self.unmatched_lines@.len());
        }
        assert(strs_view(lines@) =~= summary_lines(self.all(), self.unmatched().len()));
        lines
    }
}

// ---------------------------------------------------------------------------
// Streaming zero-copy results
// ---------------------------------------------------------------------------
/// Counters of results handled as a stream, without storing them.
pub struct ResultGrouperZeroCopy {
    pub matched_count: usize,
    pub unmatched_count: usize,
}

/// The lines written for a streamed result: the line with its number, then
/// one line per detail with its level, meaning, category and child, then an
/// empty line.
pub open spec fn stream_lines(r: MatchResultView) -> Seq<Seq<char>> {
    seq!["[行号 "@ + decimal(r.line_number as nat) + "] "@ + r.line] + stream_detail_lines(r.matches) + seq![Seq::<char>::empty()]
}

pub open spec fn stream_detail_lines(ds: Seq<MatchDetailView>) -> Seq<Seq<char>>
    decreases ds.len(),
{
    if ds.len() == 0 {
        Seq::empty()
    } else {
        stream_detail_lines(ds.drop_last()).push(
            "  -> ["@ + ds.last().level + "] "@ + ds.last().mean + " (app: "@ + ds.last().app + ", child: "@ + ds.last().child_name + ")"@,
        )
    }
}

impl ResultGrouperZeroCopy {
    /// Zero counters.
    pub fn new() -> (g: Self)
        ensures
            g.matched_count == 0,
            g.unmatched_count == 0,
    {
        ResultGrouperZeroCopy { matched_count: 0, unmatched_count: 0 }
    }

    /// Counts a streamed result and gives the lines to write for it.
    pub fn process_result(&mut self, result: &MatchResultZeroCopy) -> (lines: Vec<String>)
        requires
            old(self).matched_count < usize::MAX,
        ensures
            final(self).matched_count == old(self).matched_count + 1,
            final(self).unmatched_count == old(self).unmatched_count,
            strs_view(lines@) == stream_lines(result@),
    {
        self.matched_count = self.matched_count + 1;
        let mut lines: Vec<String> = Vec::new();
        let mut head = "[行号 ".to_string();
        push_decimal(&mut head, result.line_number);
        head.append("] ");
        match &result.line {
            std::borrow::Cow::Borrowed(l) => head.append(l),
            std::borrow::Cow::Owned(l) => head.append(l.as_str()),
        }
        push_line(&mut lines, head);
        let ghost base = strs_view(lines@);
        let ghost ds = result@.matches;
        let mut i: usize = 0;
        assert(ds.take(0) =~= Seq::<MatchDetailView>::empty());
        assert(base =~= base + stream_detail_lines(ds.take(0)));
        while i < result.matches.len()
            invariant
                ds == result@.matches,
                0 <= i <= result.matches@.len(),
                strs_view(lines@) == base + stream_detail_lines(ds.take(i as int)),
            decreases result.matches@.len() - i,
        {
            let m = &result.matches[i];
            let mut line = "  -> [".to_string();
            line.append(cow_str(&m.level));
            line.append("] ");
            line.append(cow_str(&m.mean));
            line.append(" (app: ");
            line.append(cow_str(&m.app));
            line.append(", child: ");
            line.append(cow_str(&m.child_name));
            line.append(")");
            push_line(&mut lines, line);
            proof {
                assert(ds[i as int] == m@);
                assert(ds.take(i + 1).drop_last() =~= ds.take(i as int));
                assert(strs_view(lines@) =~= base + stream_detail_lines(ds.take(i + 1)));
            }
            i = i + 1;
        }
        assert(ds.take(result.matches@.len() as int) =~= ds);
        push_line(&mut lines, String::new());
        assert(strs_view(lines@) =~= stream_lines(result@));
        lines
    }
}

/// The text of a borrowed-or-owned string.
fn cow_str<'b>(c: &'b std::borrow::Cow<'_, str>) -> (s: &'b str)
    ensures
        s@ == c@,
{
    match c {
        std::borrow::Cow::Borrowed(b) => b,
        std::borrow::Cow::Owned(o) => o.as_str(),
    }
}

/// Law: adding a result appends it, once, to the group of every key it is
/// filed under (however many of its details share that key), and leaves every
/// other group as it was.
pub proof fn law_add_files_once<K>(all: Seq<MatchResultView>, filed: spec_fn(MatchResultView, K) -> bool, r: MatchResultView, k: K)
    ensures
        filed_under(all.push(r), filed, k) == if filed(r, k) {
            filed_under(all, filed, k).push(r)
        } else {
            filed_under(all, filed, k)
        },
{
    lemma_filed_under_push(all, filed, r, k);
}

/// Law: every result filed under child `c` of category `a` is also filed under
/// category `a`.
pub proof fn law_child_group_within_app(all: Seq<MatchResultView>, a: Seq<char>, c: Seq<char>, r: MatchResultView)
    requires
        filed_under(all, child_filed(), (a, c)).contains(r),
    ensures
        filed_under(all, app_filed(), a).contains(r),
{
    let pc = |x: MatchResultView| child_filed()(x, (a, c));
    let pa = |x: MatchResultView| app_filed()(x, a);
    all.lemma_filter_contains_rev(pc, r);
    let j = choose|j: int| 0 <= j < all.filter(pc).len() && all.filter(pc)[j] == r;
    all.lemma_filter_pred(pc, j);
    let i = choose|i: int| 0 <= i < all.len() && all[i] == r;
    let k = choose|k: int| 0 <= k < r.matches.len() && (#[trigger] r.matches[k]).app == a && r.matches[k].child_name == c;
    assert(has_app(r, a));
    all.lemma_filter_contains(pa, i);
}


/// Law: adding a result files it under the category, the child and the tag
/// of every one of its details: each of those groups gains the result at its
/// end.
pub proof fn law_result_filed_under_each_detail(all: Seq<MatchResultView>, r: MatchResultView, i: int)
    requires
        0 <= i < r.matches.len(),
    ensures
        filed_under(all.push(r), app_filed(), r.matches[i].app) == filed_under(all, app_filed(), r.matches[i].app).push(r),
        filed_under(all.push(r), child_filed(), (r.matches[i].app, r.matches[i].child_name))
            == filed_under(all, child_filed(), (r.matches[i].app, r.matches[i].child_name)).push(r),
        filed_under(all.push(r), tag_filed(), r.matches[i].tag) == filed_under(all, tag_filed(), r.matches[i].tag).push(r),
{
    let d = r.matches[i];
    assert(has_app(r, d.app));
    assert(has_child(r, (d.app, d.child_name)));
    assert(has_result_tag(r, d.tag));
    lemma_filed_under_push(all, app_filed(), r, d.app);
    lemma_filed_under_push(all, child_filed(), r, (d.app, d.child_name));
    lemma_filed_under_push(all, tag_filed(), r, d.tag);
}

// ---------------------------------------------------------------------------
// What the report and the summary contain
// ---------------------------------------------------------------------------
proof fn lemma_concat_has(a: Seq<Seq<char>>, b: Seq<Seq<char>>, x: Seq<char>)
    requires
        a.contains(x) || b.contains(x),
    ensures
        (a + b).contains(x),
{
    if a.contains(x) {
        let i = choose|i: int| 0 <= i < a.len() && a[i] == x;
        assert((a + b)[i] == x);
    } else {
        let i = choose|i: int| 0 <= i < b.len() && b[i] == x;
        assert((a + b)[a.len() + i] == x);
    }
}

/// The categories of the results of `all` are finitely many.
proof fn lemma_apps_finite(all: Seq<MatchResultView>)
    ensures
        keys_filed(all, app_filed()).finite(),
    decreases all.len(),
{
    if all.len() == 0 {
        assert(keys_filed(all, app_filed()) =~= Set::<Seq<char>>::empty());
    } else {
        let init = all.drop_last();
        let r = all.last();
        lemma_apps_finite(init);
        let own = r.matches.map_values(|d: MatchDetailView| d.app).to_set();
        assert forall|a: Seq<char>| keys_filed(all, app_filed()).contains(a) implies #[trigger] keys_filed(init, app_filed()).union(own).contains(a) by {
            let i = choose|i: int| 0 <= i < all.len() && app_filed()(#[trigger] all[i], a);
            if i < init.len() {
                assert(init[i] == all[i]);
            } else {
                let j = choose|j: int| 0 <= j < r.matches.len() && (#[trigger] r.matches[j]).app == a;
                assert(r.matches.map_values(|d: MatchDetailView| d.app)[j] == a);
            }
        }
        assert(keys_filed(all, app_filed()).subset_of(keys_filed(init, app_filed()).union(own)));
        vstd::set_lib::lemma_set_subset_finite(keys_filed(init, app_filed()).union(own), keys_filed(all, app_filed()));
    }
}

/// The children of category `a` among the results of `all` are finitely many.
proof fn lemma_children_finite(all: Seq<MatchResultView>, a: Seq<char>)
    ensures
        children_filed(all, a).finite(),
    decreases all.len(),
{
    if all.len() == 0 {
        assert(children_filed(all, a) =~= Set::<Seq<char>>::empty());
    } else {
        let init = all.drop_last();
        let r = all.last();
        lemma_children_finite(init, a);
        let own = r.matches.map_values(|d: MatchDetailView| d.child_name).to_set();
        assert forall|c: Seq<char>| children_filed(all, a).contains(c) implies #[trigger] children_filed(init, a).union(own).contains(c) by {
            assert(keys_filed(all, child_filed()).contains((a, c)));
            let i = choose|i: int| 0 <= i < all.len() && child_filed()(#[trigger] all[i], (a, c));
            if i < init.len() {
                assert(init[i] == all[i]);
                assert(keys_filed(init, child_filed()).contains((a, c)));
            } else {
                let j = choose|j: int| 0 <= j < r.matches.len() && (#[trigger] r.matches[j]).app == a && r.matches[j].child_name == c;
                assert(r.matches.map_values(|d: MatchDetailView| d.child_name)[j] == c);
            }
        }
        assert(children_filed(all, a).subset_of(children_filed(init, a).union(own)));
        vstd::set_lib::lemma_set_subset_finite(children_filed(init, a).union(own), children_filed(all, a));
    }
}

/// A result filed under child `c` of category `a` puts `a` among the
/// categories and `c` among the children of `a`, both with results.
proof fn lemma_child_keys(all: Seq<MatchResultView>, a: Seq<char>, c: Seq<char>)
    requires
        filed_under(all, child_filed(), (a, c)).len() > 0,
    ensures
        keys_filed(all, app_filed()).contains(a),
        children_filed(all, a).contains(c),
        filed_under(all, app_filed(), a).len() > 0,
{
    lemma_filed_nonempty(all, child_filed(), (a, c));
    let i = choose|i: int| 0 <= i < all.len() && child_filed()(#[trigger] all[i], (a, c));
    let j = choose|j: int| 0 <= j < all[i].matches.len() && (#[trigger] all[i].matches[j]).app == a && all[i].matches[j].child_name == c;
    assert(has_app(all[i], a));
    assert(app_filed()(all[i], a));
    lemma_filed_nonempty(all, app_filed(), a);
}

proof fn lemma_summary_children_has(all: Seq<MatchResultView>, a: Seq<char>, cl: Seq<Seq<char>>, j: int, x: Seq<char>)
    requires
        0 <= j < cl.len(),
        summary_child(all, a, cl[j]).contains(x),
    ensures
        summary_children(all, a, cl).contains(x),
    decreases cl.len(),
{
    if j == cl.len() - 1 {
        lemma_concat_has(summary_children(all, a, cl.drop_last()), summary_child(all, a, cl.last()), x);
    } else {
        assert(cl.drop_last()[j] == cl[j]);
        lemma_summary_children_has(all, a, cl.drop_last(), j, x);
        lemma_concat_has(summary_children(all, a, cl.drop_last()), summary_child(all, a, cl.last()), x);
    }
}

proof fn lemma_summary_apps_has(all: Seq<MatchResultView>, apps: Seq<Seq<char>>, i: int, x: Seq<char>)
    requires
        0 <= i < apps.len(),
        summary_app(all, apps[i]).contains(x),
    ensures
        summary_apps(all, apps).contains(x),
    decreases apps.len(),
{
    if i == apps.len() - 1 {
        lemma_concat_has(summary_apps(all, apps.drop_last()), summary_app(all, apps.last()), x);
    } else {
        assert(apps.drop_last()[i] == apps[i]);
        lemma_summary_apps_has(all, apps.drop_last(), i, x);
        lemma_concat_has(summary_apps(all, apps.drop_last()), summary_app(all, apps.last()), x);
    }
}

/// Law: for every child `c` of a category `a` with results, the summary has
/// the line giving the number of results filed under that child.
pub proof fn law_summary_counts_each_child(all: Seq<MatchResultView>, unmatched: nat, a: Seq<char>, c: Seq<char>)
    requires
        filed_under(all, child_filed(), (a, c)).len() > 0,
    ensures
        summary_lines(all, unmatched).contains(
            "    └─ "@ + c + ": "@ + decimal(filed_under(all, child_filed(), (a, c)).len()) + " 行"@,
        ),
{
    let x = "    └─ "@ + c + ": "@ + decimal(filed_under(all, child_filed(), (a, c)).len()) + " 行"@;
    lemma_child_keys(all, a, c);
    lemma_apps_finite(all);
    lemma_sorted_listing_exists(keys_filed(all, app_filed()));
    let apps = sorted_listing(keys_filed(all, app_filed()));
    assert(apps.to_set().contains(a));
    let ia = choose|ia: int| 0 <= ia < apps.len() && apps[ia] == a;
    lemma_children_finite(all, a);
    lemma_sorted_listing_exists(children_filed(all, a));
    let cl = sorted_listing(children_filed(all, a));
    assert(cl.to_set().contains(c));
    let jc = choose|jc: int| 0 <= jc < cl.len() && cl[jc] == c;
    assert(summary_child(all, a, cl[jc]) == seq![x]);
    assert(seq![x][0] == x);
    lemma_summary_children_has(all, a, cl, jc, x);
    let head = seq!["  "@ + a + ": "@ + decimal(filed_under(all, app_filed(), a).len()) + " 行"@];
    lemma_concat_has(head, summary_children(all, a, cl), x);
    assert(summary_app(all, apps[ia]) == head + summary_children(all, a, cl));
    lemma_summary_apps_has(all, apps, ia, x);
    let top = seq![
        Seq::<char>::empty(),
        "===== 结果摘要 ====="@,
        "总匹配行数: "@ + decimal(all.len()),
        "大类数量: "@ + decimal(keys_filed(all, app_filed()).len()),
        "子类数量: "@ + decimal(keys_filed(all, child_filed()).len()),
        "标签数量: "@ + decimal(keys_filed(all, tag_filed()).len()),
        Seq::<char>::empty(),
        "各大类匹配统计:"@,
    ];
    let tail = if unmatched > 0 {
        seq![Seq::<char>::empty(), "未匹配行数: "@ + decimal(unmatched)]
    } else {
        Seq::<Seq<char>>::empty()
    };
    lemma_concat_has(top, summary_apps(all, apps), x);
    lemma_concat_has(top + summary_apps(all, apps), tail, x);
    assert(summary_lines(all, unmatched) == top + summary_apps(all, apps) + tail);
}

proof fn lemma_capture_lines_has(m: Map<Seq<char>, Seq<char>>, keys: Seq<Seq<char>>, p: int)
    requires
        0 <= p < keys.len(),
    ensures
        capture_lines(m, keys).contains("       "@ + keys[p] + ": "@ + m[keys[p]]),
    decreases keys.len(),
{
    let x = "       "@ + keys[p] + ": "@ + m[keys[p]];
    let c = capture_lines(m, keys);
    if p == keys.len() - 1 {
        assert(c[c.len() - 1] == x);
    } else {
        assert(keys.drop_last()[p] == keys[p]);
        lemma_capture_lines_has(m, keys.drop_last(), p);
        let prev = capture_lines(m, keys.drop_last());
        let i = choose|i: int| 0 <= i < prev.len() && prev[i] == x;
        assert(c[i] == x);
    }
}

proof fn lemma_details_lines_has(ds: Seq<MatchDetailView>, a: Seq<char>, c: Seq<char>, j: int, x: Seq<char>)
    requires
        0 <= j < ds.len(),
        ds[j].app == a,
        ds[j].child_name == c,
        detail_lines(ds[j]).contains(x),
    ensures
        details_lines(ds, a, c).contains(x),
    decreases ds.len(),
{
    if j == ds.len() - 1 {
        lemma_concat_has(details_lines(ds.drop_last(), a, c), detail_lines(ds.last()), x);
    } else {
        assert(ds.drop_last()[j] == ds[j]);
        lemma_details_lines_has(ds.drop_last(), a, c, j, x);
        let tail = if ds.last().app == a && ds.last().child_name == c {
            detail_lines(ds.last())
        } else {
            Seq::empty()
        };
        lemma_concat_has(details_lines(ds.drop_last(), a, c), tail, x);
    }
}

proof fn lemma_results_lines_has(rs: Seq<MatchResultView>, a: Seq<char>, c: Seq<char>, q: int, x: Seq<char>)
    requires
        0 <= q < rs.len(),
        result_lines(rs[q], a, c).contains(x),
    ensures
        results_lines(rs, a, c).contains(x),
    decreases rs.len(),
{
    if q == rs.len() - 1 {
        lemma_concat_has(results_lines(rs.drop_last(), a, c), result_lines(rs.last(), a, c), x);
    } else {
        assert(rs.drop_last()[q] == rs[q]);
        lemma_results_lines_has(rs.drop_last(), a, c, q, x);
        lemma_concat_has(results_lines(rs.drop_last(), a, c), result_lines(rs.last(), a, c), x);
    }
}

proof fn lemma_children_sections_has(all: Seq<MatchResultView>, a: Seq<char>, cl: Seq<Seq<char>>, j: int, x: Seq<char>)
    requires
        0 <= j < cl.len(),
        child_section(all, a, cl[j]).contains(x),
    ensures
        children_sections(all, a, cl).contains(x),
    decreases cl.len(),
{
    if j == cl.len() - 1 {
        lemma_concat_has(children_sections(all, a, cl.drop_last()), child_section(all, a, cl.last()), x);
    } else {
        assert(cl.drop_last()[j] == cl[j]);
        lemma_children_sections_has(all, a, cl.drop_last(), j, x);
        lemma_concat_has(children_sections(all, a, cl.drop_last()), child_section(all, a, cl.last()), x);
    }
}

proof fn lemma_apps_sections_has(all: Seq<MatchResultView>, apps: Seq<Seq<char>>, i: int, x: Seq<char>)
    requires
        0 <= i < apps.len(),
        app_section(all, apps[i]).contains(x),
    ensures
        apps_sections(all, apps).contains(x),
    decreases apps.len(),
{
    if i == apps.len() - 1 {
        lemma_concat_has(apps_sections(all, apps.drop_last()), app_section(all, apps.last()), x);
    } else {
        assert(apps.drop_last()[i] == apps[i]);
        lemma_apps_sections_has(all, apps.drop_last(), i, x);
        lemma_concat_has(apps_sections(all, apps.drop_last()), app_section(all, apps.last()), x);
    }
}

/// Law: for every detail of every result that has named captures, the text
/// report has, for each captured name, the line giving that name and its
/// captured text (a map of captures, like every hash map, has finitely many
/// names).
pub proof fn law_report_shows_every_capture(all: Seq<MatchResultView>, i: int, j: int, k: Seq<char>)
    requires
        0 <= i < all.len(),
        0 <= j < all[i].matches.len(),
        all[i].matches[j].regex_captures is Some,
        all[i].matches[j].regex_captures->Some_0.dom().finite(),
        all[i].matches[j].regex_captures->Some_0.dom().contains(k),
    ensures
        report_lines(all).contains("       "@ + k + ": "@ + all[i].matches[j].regex_captures->Some_0[k]),
{
    let r = all[i];
    let d = r.matches[j];
    let m = d.regex_captures->Some_0;
    let a = d.app;
    let c = d.child_name;
    let x = "       "@ + k + ": "@ + m[k];
    // the capture line is in the detail's lines
    lemma_sorted_listing_exists(m.dom());
    let kl = sorted_listing(m.dom());
    assert(kl.to_set().contains(k));
    let p = choose|p: int| 0 <= p < kl.len() && kl[p] == k;
    lemma_capture_lines_has(m, kl, p);
    let dhead = seq!["    -> ["@ + d.level + "] "@ + d.mean + " (标签: "@ + d.tag + ")"@];
    lemma_concat_has(dhead, capture_lines(m, kl), x);
    assert(detail_lines(d) == dhead + capture_lines(m, kl));
    // in the result's lines under its child
    lemma_details_lines_has(r.matches, a, c, j, x);
    let rhead = seq!["  [行号 "@ + decimal(r.line_number as nat) + "] "@ + r.line];
    lemma_concat_has(rhead, details_lines(r.matches, a, c), x);
    lemma_concat_has(rhead + details_lines(r.matches, a, c), seq![Seq::<char>::empty()], x);
    assert(result_lines(r, a, c) == rhead + details_lines(r.matches, a, c) + seq![Seq::<char>::empty()]);
    // the result is filed under its child
    let pc = |y: MatchResultView| child_filed()(y, (a, c));
    assert(has_child(r, (a, c)));
    all.lemma_filter_contains(pc, i);
    let rs = filed_under(all, child_filed(), (a, c));
    assert(rs == all.filter(pc));
    let q = choose|q: int| 0 <= q < rs.len() && rs[q] == r;
    lemma_results_lines_has(rs, a, c, q, x);
    let chead = seq![Seq::<char>::empty(), "  【子类】"@ + c, "  "@ + repeat('-', 58)];
    lemma_concat_has(chead, results_lines(rs, a, c), x);
    assert(child_section(all, a, c) == chead + results_lines(rs, a, c));
    // the child is listed in its category's section
    lemma_child_keys(all, a, c);
    lemma_children_finite(all, a);
    lemma_sorted_listing_exists(children_filed(all, a));
    let cl = sorted_listing(children_filed(all, a));
    assert(cl.to_set().contains(c));
    let jc = choose|jc: int| 0 <= jc < cl.len() && cl[jc] == c;
    lemma_children_sections_has(all, a, cl, jc, x);
    let ahead = seq![Seq::<char>::empty(), "【大类】"@ + a, repeat('=', 60)];
    lemma_concat_has(ahead, children_sections(all, a, cl), x);
    assert(app_section(all, a) == ahead + children_sections(all, a, cl));
    // and the category in the report
    lemma_apps_finite(all);
    lemma_sorted_listing_exists(keys_filed(all, app_filed()));
    let apps = sorted_listing(keys_filed(all, app_filed()));
    assert(apps.to_set().contains(a));
    let ia = choose|ia: int| 0 <= ia < apps.len() && apps[ia] == a;
    lemma_apps_sections_has(all, apps, ia, x);
    let top = seq!["===== 日志解析结果 ====="@, "总匹配行数: "@ + decimal(all.len()), Seq::<char>::empty()];
    lemma_concat_has(top, apps_sections(all, apps), x);
    assert(report_lines(all) == top + apps_sections(all, apps));
}

} // verus!
