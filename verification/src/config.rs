//! The rule configuration: categories (`app`), their children (each with the
//! `tag` that pre-filters lines) and the message rules of each child.
use vstd::prelude::*;
use crate::pattern::{CompiledRegex, regex_compiles};
use crate::text::{strictly_sorted, strs_view, sorted_unique};

verus! {

/// The configuration root.
#[derive(Debug, Clone)]
pub struct LogConfig {
    pub categories: Vec<Category>,
    /// The configuration text the rules were read from.
    pub raw_content: String,
}

/// A category of rules (`app`).
#[derive(Debug, Clone)]
pub struct Category {
    pub app: String,
    pub children: Vec<Child>,
}

/// A child of a category, with the tag that a line must contain.
#[derive(Debug, Clone)]
pub struct Child {
    pub name: String,
    pub tag: String,
    pub msgs: Vec<MsgRule>,
}

/// A message rule: a regex, or else keys that must all occur and ignores that
/// must not occur.
#[derive(Debug, Clone)]
pub struct MsgRule {
    pub keys: Vec<String>,
    pub ignores: Vec<String>,
    pub mean: String,
    pub regex: Option<String>,
    pub level: String,
    /// The regex compiled from `regex`, filled by `LogConfig::compile_regexes`.
    pub compiled_regex: Option<CompiledRegex>,
}

/// Why a configuration could not be prepared.
pub enum ConfigError {
    /// The rule's regex (given here) is not accepted by the regex crate.
    InvalidRegex(String),
}

/// A rule's regex, if it has one, compiles.
pub open spec fn rule_ok(r: MsgRule) -> bool {
    r.regex matches Some(p) ==> regex_compiles(p@)
}

pub open spec fn child_ok(c: Child) -> bool {
    forall|k: int| 0 <= k < c.msgs@.len() ==> rule_ok(#[trigger] c.msgs@[k])
}

pub open spec fn category_ok(cat: Category) -> bool {
    forall|j: int| 0 <= j < cat.children@.len() ==> child_ok(#[trigger] cat.children@[j])
}

/// Every regex of the configuration compiles.
pub open spec fn config_ok(cfg: LogConfig) -> bool {
    forall|i: int| 0 <= i < cfg.categories@.len() ==> category_ok(#[trigger] cfg.categories@[i])
}

/// The text of an optional regex (meaningful when there is one).
pub open spec fn s_of(o: Option<String>) -> String {
    o->Some_0
}

/// `p` is the first regex of the child, in rule order, that does not compile.
pub open spec fn child_first_bad(c: Child, p: Seq<char>) -> bool {
    exists|k: int|
        {
            &&& 0 <= k < c.msgs@.len()
            &&& (#[trigger] c.msgs@[k]).regex == Some(s_of(c.msgs@[k].regex))
            &&& s_of(c.msgs@[k].regex)@ == p
            &&& !regex_compiles(p)
            &&& forall|k2: int| 0 <= k2 < k ==> rule_ok(#[trigger] c.msgs@[k2])
        }
}

pub open spec fn category_first_bad(cat: Category, p: Seq<char>) -> bool {
    exists|j: int|
        0 <= j < cat.children@.len() && child_first_bad(#[trigger] cat.children@[j], p) && forall|
            j2: int,
        | 0 <= j2 < j ==> child_ok(#[trigger] cat.children@[j2])
}

/// `p` is the first regex of the configuration, in reading order, that does not compile.
pub open spec fn config_first_bad(cfg: LogConfig, p: Seq<char>) -> bool {
    exists|i: int|
        0 <= i < cfg.categories@.len() && category_first_bad(#[trigger] cfg.categories@[i], p)
            && forall|i2: int| 0 <= i2 < i ==> category_ok(#[trigger] cfg.categories@[i2])
}

/// `new` is `old` with nothing changed but the compiled regex.
pub open spec fn rule_same_text(new: MsgRule, old: MsgRule) -> bool {
    &&& new.keys == old.keys
    &&& new.ignores == old.ignores
    &&& new.mean == old.mean
    &&& new.regex == old.regex
    &&& new.level == old.level
}

/// `new` is `old` with its regex, if it has one, compiled.
pub open spec fn rule_compiled_from(new: MsgRule, old: MsgRule) -> bool {
    &&& rule_same_text(new, old)
    &&& match old.regex {
        Some(p) => new.compiled_regex matches Some(c) && c.pattern() == p@,
        None => new.compiled_regex == old.compiled_regex,
    }
}

pub open spec fn child_same_text(new: Child, old: Child) -> bool {
    &&& new.name == old.name
    &&& new.tag == old.tag
    &&& new.msgs@.len() == old.msgs@.len()
    &&& forall|k: int|
        0 <= k < new.msgs@.len() ==> rule_same_text(#[trigger] new.msgs@[k], old.msgs@[k])
}

pub open spec fn child_compiled_from(new: Child, old: Child) -> bool {
    &&& child_same_text(new, old)
    &&& forall|k: int|
        0 <= k < new.msgs@.len() ==> rule_compiled_from(#[trigger] new.msgs@[k], old.msgs@[k])
}

pub open spec fn category_same_text(new: Category, old: Category) -> bool {
    &&& new.app == old.app
    &&& new.children@.len() == old.children@.len()
    &&& forall|j: int|
        0 <= j < new.children@.len() ==> child_same_text(
            #[trigger] new.children@[j],
            old.children@[j],
        )
}

pub open spec fn category_compiled_from(new: Category, old: Category) -> bool {
    &&& category_same_text(new, old)
    &&& forall|j: int|
        0 <= j < new.children@.len() ==> child_compiled_from(
            #[trigger] new.children@[j],
            old.children@[j],
        )
}

/// `new` holds the same rules as `old`; only compiled regexes may differ.
pub open spec fn config_same_text(new: LogConfig, old: LogConfig) -> bool {
    &&& new.raw_content == old.raw_content
    &&& new.categories@.len() == old.categories@.len()
    &&& forall|i: int|
        0 <= i < new.categories@.len() ==> category_same_text(
            #[trigger] new.categories@[i],
            old.categories@[i],
        )
}

/// `new` is `old` with every regex compiled.
pub open spec fn config_compiled_from(new: LogConfig, old: LogConfig) -> bool {
    &&& config_same_text(new, old)
    &&& forall|i: int|
        0 <= i < new.categories@.len() ==> category_compiled_from(
            #[trigger] new.categories@[i],
            old.categories@[i],
        )
}

/// `new` is `old` stopped at its rule `k`, the first whose regex does not
/// compile: the rules before it compiled, it and the later ones unchanged.
pub open spec fn child_stopped_at(new: Child, old: Child, k: int) -> bool {
    &&& child_same_text(new, old)
    &&& 0 <= k < old.msgs@.len()
    &&& !rule_ok(old.msgs@[k])
    &&& forall|k2: int| 0 <= k2 < k ==> rule_ok(#[trigger] old.msgs@[k2])
    &&& forall|k2: int| 0 <= k2 < k ==> rule_compiled_from(#[trigger] new.msgs@[k2], old.msgs@[k2])
    &&& forall|k2: int| k <= k2 < old.msgs@.len() ==> #[trigger] new.msgs@[k2] == old.msgs@[k2]
}

/// `new` is `old` stopped at a regex that does not compile.
pub open spec fn child_stopped(new: Child, old: Child) -> bool {
    exists|k: int| child_stopped_at(new, old, k)
}

/// `new` is `old` stopped inside its child `j`: the children before it
/// compiled, child `j` stopped, the later ones unchanged.
pub open spec fn category_stopped_at(new: Category, old: Category, j: int) -> bool {
    &&& category_same_text(new, old)
    &&& 0 <= j < old.children@.len()
    &&& child_stopped(new.children@[j], old.children@[j])
    &&& forall|j2: int| 0 <= j2 < j ==> child_ok(#[trigger] old.children@[j2])
    &&& forall|j2: int| 0 <= j2 < j ==> child_compiled_from(#[trigger] new.children@[j2], old.children@[j2])
    &&& forall|j2: int| j < j2 < old.children@.len() ==> #[trigger] new.children@[j2] == old.children@[j2]
}

pub open spec fn category_stopped(new: Category, old: Category) -> bool {
    exists|j: int| category_stopped_at(new, old, j)
}

/// `new` is `old` stopped at its first regex that does not compile, in
/// reading order: every rule before it compiled, it and every later rule
/// unchanged.
pub open spec fn config_stopped(new: LogConfig, old: LogConfig) -> bool {
    exists|i: int|
        {
            &&& config_same_text(new, old)
            &&& 0 <= i < old.categories@.len()
            &&& category_stopped(#[trigger] new.categories@[i], old.categories@[i])
            &&& forall|i2: int| 0 <= i2 < i ==> category_ok(#[trigger] old.categories@[i2])
            &&& forall|i2: int|
                0 <= i2 < i ==> category_compiled_from(#[trigger] new.categories@[i2], old.categories@[i2])
            &&& forall|i2: int|
                i < i2 < old.categories@.len() ==> #[trigger] new.categories@[i2] == old.categories@[i2]
        }
}

/// `t` is the tag of some child of the configuration.
pub open spec fn has_tag(cfg: LogConfig, t: Seq<char>) -> bool {
    exists|i: int, j: int|
        0 <= i < cfg.categories@.len() && 0 <= j < cfg.categories@[i].children@.len()
            && (#[trigger] cfg.categories@[i].children@[j]).tag@ == t
}

/// The set of tags of the configuration.
pub open spec fn all_tags(cfg: LogConfig) -> Set<Seq<char>> {
    Set::new(|t: Seq<char>| has_tag(cfg, t))
}

impl MsgRule {
    /// Compiles the rule's regex, if it has one.
    fn compile_regex(&mut self) -> (r: Result<(), ConfigError>)
        ensures
            r.is_ok() == rule_ok(*old(self)),
            r is Ok ==> rule_compiled_from(*final(self), *old(self)),
            rule_same_text(*final(self), *old(self)),
            r matches Err(ConfigError::InvalidRegex(p)) ==> old(self).regex matches Some(s) && s@
                == p@ && !regex_compiles(p@),
            r is Err ==> *final(self) == *old(self),
    {
        match &self.regex {
            Some(pattern) => {
                match CompiledRegex::new(pattern.as_str()) {
                    Ok(compiled) => {
                        self.compiled_regex = Some(compiled);
                        Ok(())
                    },
                    Err(_) => Err(ConfigError::InvalidRegex(pattern.clone())),
                }
            },
            None => Ok(()),
        }
    }
}

impl Child {
    fn compile_regexes(&mut self) -> (r: Result<(), ConfigError>)
        ensures
            r.is_ok() == child_ok(*old(self)),
            r is Ok ==> child_compiled_from(*final(self), *old(self)),
            child_same_text(*final(self), *old(self)),
            r matches Err(ConfigError::InvalidRegex(p)) ==> child_first_bad(*old(self), p@),
            r is Err ==> child_stopped(*final(self), *old(self)),
    {
        let ghost orig = *self;
        let n = self.msgs.len();
        let mut k: usize = 0;
        while k < n
            invariant
                n == orig.msgs@.len(),
                orig == *old(self),
                0 <= k <= n,
                child_same_text(*self, orig),
                forall|k2: int|
                    0 <= k2 < k ==> rule_compiled_from(#[trigger] self.msgs@[k2], orig.msgs@[k2]),
                forall|k2: int| k <= k2 < n ==> #[trigger] self.msgs@[k2] == orig.msgs@[k2],
                forall|k2: int| 0 <= k2 < k ==> rule_ok(#[trigger] orig.msgs@[k2]),
            decreases n - k,
        {
            let ghost before = *self;
            let res = self.msgs[k].compile_regex();
            match res {
                Ok(()) => {},
                Err(e) => {
                    proof {
                        assert(orig.msgs@[k as int] == before.msgs@[k as int]);
                        assert(!rule_ok(orig.msgs@[k as int]));
                        assert(rule_same_text(self.msgs@[k as int], orig.msgs@[k as int]));
                        assert(child_same_text(*self, orig));
                        let ConfigError::InvalidRegex(p) = e;
                        assert(child_first_bad(orig, p@));
                        assert(child_stopped_at(*self, orig, k as int));
                    }
                    return Err(e);
                },
            }
            k = k + 1;
        }
        Ok(())
    }
}

impl Category {
    fn compile_regexes(&mut self) -> (r: Result<(), ConfigError>)
        ensures
            r.is_ok() == category_ok(*old(self)),
            r is Ok ==> category_compiled_from(*final(self), *old(self)),
            category_same_text(*final(self), *old(self)),
            r matches Err(ConfigError::InvalidRegex(p)) ==> category_first_bad(*old(self), p@),
            r is Err ==> category_stopped(*final(self), *old(self)),
    {
        let ghost orig = *self;
        let n = self.children.len();
        let mut j: usize = 0;
        while j < n
            invariant
                n == orig.children@.len(),
                orig == *old(self),
                0 <= j <= n,
                category_same_text(*self, orig),
                forall|j2: int|
                    0 <= j2 < j ==> child_compiled_from(
                        #[trigger] self.children@[j2],
                        orig.children@[j2],
                    ),
                forall|j2: int| j <= j2 < n ==> #[trigger] self.children@[j2] == orig.children@[j2],
                forall|j2: int| 0 <= j2 < j ==> child_ok(#[trigger] orig.children@[j2]),
            decreases n - j,
        {
            let res = self.children[j].compile_regexes();
            match res {
                Ok(()) => {},
                Err(e) => {
                    proof {
                        assert(category_stopped_at(*self, orig, j as int));
                    }
                    return Err(e);
                },
            }
            j = j + 1;
        }
        Ok(())
    }
}

impl LogConfig {
    /// Compiles every regex of the rules, in reading order. Fails on the first
    /// regex that does not compile, and names it; the rules before it keep
    /// their compiled regexes, and it and the later rules are left as they
    /// were. The rules' texts are never changed.
    pub fn compile_regexes(&mut self) -> (r: Result<(), ConfigError>)
        ensures
            r.is_ok() == config_ok(*old(self)),
            r is Ok ==> config_compiled_from(*final(self), *old(self)),
            config_same_text(*final(self), *old(self)),
            r matches Err(ConfigError::InvalidRegex(p)) ==> config_first_bad(*old(self), p@),
            r is Err ==> config_stopped(*final(self), *old(self)),
    {
        let ghost orig = *self;
        let n = self.categories.len();
        let mut i: usize = 0;
        while i < n
            invariant
                n == orig.categories@.len(),
                orig == *old(self),
                0 <= i <= n,
                config_same_text(*self, orig),
                forall|i2: int|
                    0 <= i2 < i ==> category_compiled_from(
                        #[trigger] self.categories@[i2],
                        orig.categories@[i2],
                    ),
                forall|i2: int|
                    i <= i2 < n ==> #[trigger] self.categories@[i2] == orig.categories@[i2],
                forall|i2: int| 0 <= i2 < i ==> category_ok(#[trigger] orig.categories@[i2]),
            decreases n - i,
        {
            let res = self.categories[i].compile_regexes();
            match res {
                Ok(()) => {},
                Err(e) => {
                    proof {
                        assert(category_stopped(self.categories@[i as int], orig.categories@[i as int]));
                    }
                    return Err(e);
                },
            }
            i = i + 1;
        }
        Ok(())
    }

    /// The tags of all children, sorted, each once.
    pub fn get_all_tags(&self) -> (tags: Vec<String>)
        ensures
            strictly_sorted(strs_view(tags@)),
            strs_view(tags@).to_set() == all_tags(*self),
    {
        let mut tags: Vec<String> = Vec::new();
        let n = self.categories.len();
        let mut i: usize = 0;
        while i < n
            invariant
                n == self.categories@.len(),
                0 <= i <= n,
                forall|t: Seq<char>|
                    strs_view(tags@).contains(t) <==> exists|i2: int, j: int|
                        0 <= i2 < i && 0 <= j < self.categories@[i2].children@.len()
                            && (#[trigger] self.categories@[i2].children@[j]).tag@ == t,
            decreases n - i,
        {
            let category = &self.categories[i];
            let m = category.children.len();
            let mut j: usize = 0;
            while j < m
                invariant
                    n == self.categories@.len(),
                    0 <= i < n,
                    *category == self.categories@[i as int],
                    m == category.children@.len(),
                    0 <= j <= m,
                    forall|t: Seq<char>|
                        strs_view(tags@).contains(t) <==> (exists|i2: int, j2: int|
                            0 <= i2 < i && 0 <= j2 < self.categories@[i2].children@.len()
                                && (#[trigger] self.categories@[i2].children@[j2]).tag@ == t)
                            || (exists|j2: int|
                            0 <= j2 < j && (#[trigger] category.children@[j2]).tag@ == t),
                decreases m - j,
            {
                let ghost before = strs_view(tags@);
                tags.push(category.children[j].tag.clone());
                proof {
                    let t_new = category.children@[j as int].tag@;
                    assert(strs_view(tags@) =~= before.push(t_new));
                    assert forall|t: Seq<char>| strs_view(tags@).contains(t) <==> (exists|
                        i2: int,
                        j2: int,
                    |
                        0 <= i2 < i && 0 <= j2 < self.categories@[i2].children@.len()
                            && (#[trigger] self.categories@[i2].children@[j2]).tag@ == t) || (exists|
                        j2: int,
                    | 0 <= j2 < j + 1 && (#[trigger] category.children@[j2]).tag@ == t) by {
                        if strs_view(tags@).contains(t) {
                            let k = choose|k: int|
                                0 <= k < strs_view(tags@).len() && strs_view(tags@)[k] == t;
                            if k == before.len() {
                                assert(category.children@[j as int].tag@ == t);
                            } else {
                                assert(before[k] == t);
                                assert(before.contains(t));
                            }
                        }
                        if exists|j2: int| 0 <= j2 < j + 1 && (#[trigger] category.children@[j2]).tag@
                            == t {
                            let j2 = choose|j2: int|
                                0 <= j2 < j + 1 && (#[trigger] category.children@[j2]).tag@ == t;
                            if j2 == j {
                                assert(strs_view(tags@)[before.len() as int] == t);
                            } else {
                                assert(before.contains(t));
                                let k = choose|k: int| 0 <= k < before.len() && before[k] == t;
                                assert(strs_view(tags@)[k] == t);
                            }
                        }
                        if exists|i2: int, j2: int|
                            0 <= i2 < i && 0 <= j2 < self.categories@[i2].children@.len()
                                && (#[trigger] self.categories@[i2].children@[j2]).tag@ == t {
                            assert(before.contains(t));
                            let k = choose|k: int| 0 <= k < before.len() && before[k] == t;
                            assert(strs_view(tags@)[k] == t);
                        }
                    }
                }
                j = j + 1;
            }
            i = i + 1;
        }
        let ghost collected = strs_view(tags@);
        let out = sorted_unique(tags);
        assert(strs_view(out@).to_set() =~= all_tags(*self)) by {
            assert forall|t: Seq<char>| strs_view(out@).to_set().contains(t) <==> has_tag(
                *self,
                t,
            ) by {
                assert(strs_view(out@).to_set().contains(t) == collected.contains(t));
            }
        }
        out
    }
}

} // verus!
