//! Configuration rules and their evaluation against device descriptors.
//!
//! A [`Config`] holds an ordered, read-only list of [`Rule`]s. Each rule
//! carries match criteria, an optional signed priority (higher sorts
//! earlier), and a hide flag. Rule evaluation is the AND of all specified
//! criteria, optionally inverted as a whole; a rule with no criteria
//! matches every descriptor.

use vstd::prelude::*;
use crate::devices::{DeviceEntry, DeviceEntryModel};

verus! {

/// Match criteria of one rule. Absent criteria are vacuously true.
pub struct Criteria {
    /// Inverts the whole match result.
    pub invert: bool,

    /// Exact, case-sensitive device-name equality, when present.
    pub card_name: Option<String>,

    /// Equality with "the device has at least one display", when present.
    pub is_display: Option<bool>,
}

/// Mathematical model of a [`Criteria`].
pub struct CriteriaModel {
    /// Inverts the whole match result.
    pub invert: bool,
    /// Exact device-name criterion.
    pub card_name: Option<Seq<char>>,
    /// Display-presence criterion.
    pub is_display: Option<bool>,
}

impl View for Criteria {
    type V = CriteriaModel;

    open spec fn view(&self) -> CriteriaModel {
        CriteriaModel {
            invert: self.invert,
            card_name: match self.card_name {
                Some(n) => Some(n@),
                None => None,
            },
            is_display: self.is_display,
        }
    }
}

/// One ordered configuration rule.
pub struct Rule {
    /// The match criteria of the rule.
    pub criteria: Criteria,

    /// Sorting priority: higher values sort earlier. A rule without a
    /// priority does not contribute to ordering.
    pub priority: Option<i64>,

    /// Whether descriptors matched by this rule are dropped.
    pub hide: bool,
}

/// Mathematical model of a [`Rule`].
pub struct RuleModel {
    /// The match criteria of the rule.
    pub criteria: CriteriaModel,
    /// Sorting priority.
    pub priority: Option<i64>,
    /// Whether matched descriptors are dropped.
    pub hide: bool,
}

impl View for Rule {
    type V = RuleModel;

    open spec fn view(&self) -> RuleModel {
        RuleModel { criteria: self.criteria@, priority: self.priority, hide: self.hide }
    }
}

/// The process-wide rule list, loaded once at first use and never mutated.
pub struct Config {
    /// The rules, in their configured order.
    pub rules: Vec<Rule>,
}

impl View for Config {
    type V = Seq<RuleModel>;

    open spec fn view(&self) -> Seq<RuleModel> {
        self.rules@.map_values(|r: Rule| r@)
    }
}

/// Whether the criteria `c` match the descriptor `e`: the AND of all
/// present criteria, inverted as a whole when `c.invert` is set.
pub open spec fn criteria_match(c: CriteriaModel, e: DeviceEntryModel) -> bool {
    let base = (match c.card_name {
        Some(n) => n == e.name,
        None => true,
    }) && (match c.is_display {
        Some(d) => d == (e.displays.len() > 0),
        None => true,
    });
    if c.invert {
        !base
    } else {
        base
    }
}

/// Whether the rule `r` matches the descriptor `e`.
pub open spec fn rule_match(r: RuleModel, e: DeviceEntryModel) -> bool {
    criteria_match(r.criteria, e)
}

impl Criteria {
    /// Evaluates these criteria against one device descriptor.
    pub fn matches(&self, entry: &DeviceEntry) -> (r: bool)
        ensures
            r == criteria_match(self@, entry@),
    {
        let name_ok = match &self.card_name {
            Some(n) => *n == entry.name,
            None => true,
        };
        let display_ok = match self.is_display {
            Some(d) => d == !entry.displays.is_empty(),
            None => true,
        };
        let base = name_ok && display_ok;
        if self.invert {
            !base
        } else {
            base
        }
    }
}

impl Config {
    /// A configuration with no rules: every descriptor survives, all with
    /// the default priority.
    pub fn new() -> (c: Config)
        ensures
            c@ == Seq::<RuleModel>::empty(),
    {
        let c = Config { rules: Vec::new() };
        proof {
            assert(c@ =~= Seq::<RuleModel>::empty());
        }
        c
    }

    /// The positions, in order, of the rules that match `entry`.
    pub fn rules_matching(&self, entry: &DeviceEntry) -> (idxs: Vec<usize>)
        ensures
            forall|j: int|
                0 <= j < idxs@.len() ==> (#[trigger] idxs@[j]) < self@.len()
                    && rule_match(self@[idxs@[j] as int], entry@),
            forall|i: int|
                0 <= i < self@.len() && #[trigger] rule_match(self@[i], entry@)
                    ==> idxs@.contains(i as usize),
            forall|j: int, k: int| 0 <= j < k < idxs@.len() ==> idxs@[j] < idxs@[k],
    {
        let mut idxs: Vec<usize> = Vec::new();
        let mut i: usize = 0;
        while i < self.rules.len()
            invariant
                i <= self.rules.len(),
                self@.len() == self.rules@.len(),
                forall|j: int|
                    0 <= j < idxs@.len() ==> (#[trigger] idxs@[j]) < i
                        && rule_match(self@[idxs@[j] as int], entry@),
                forall|p: int|
                    0 <= p < i && #[trigger] rule_match(self@[p], entry@)
                        ==> idxs@.contains(p as usize),
                forall|j: int, k: int| 0 <= j < k < idxs@.len() ==> idxs@[j] < idxs@[k],
            decreases self.rules.len() - i,
        {
            let ghost prev = idxs@;
            if self.rules[i].criteria.matches(entry) {
                idxs.push(i);
                proof {
                    assert(self@[i as int] == self.rules@[i as int]@);
                    assert(rule_match(self@[i as int], entry@));
                    assert(idxs@ == prev.push(i));
                    assert forall|j: int|
                        0 <= j < idxs@.len()
                            implies (#[trigger] idxs@[j]) < i + 1
                                && rule_match(self@[idxs@[j] as int], entry@) by {
                        if j < prev.len() {
                            assert(idxs@[j] == prev[j]);
                            assert(prev[j] < i && rule_match(self@[prev[j] as int], entry@));
                        } else {
                            assert(idxs@[j] == i);
                        }
                    }
                    assert forall|j: int, k: int|
                        0 <= j < k < idxs@.len() implies idxs@[j] < idxs@[k] by {
                        if k < prev.len() {
                            assert(idxs@[j] == prev[j]);
                            assert(idxs@[k] == prev[k]);
                        } else {
                            assert(idxs@[j] == prev[j]);
                            assert(prev[j] < i);
                            assert(idxs@[k] == i);
                        }
                    }
                    assert forall|p: int|
                        0 <= p < i + 1 && #[trigger] rule_match(self@[p], entry@)
                            implies idxs@.contains(p as usize) by {
                        if p < i {
                            assert(prev.contains(p as usize));
                            let k = choose|k: int|
                                0 <= k < prev.len() && prev[k] == p as usize;
                            assert(idxs@[k] == p as usize);
                        } else {
                            assert(idxs@[prev.len() as int] == i);
                        }
                    }
                }
            } else {
                proof {
                    assert(self@[i as int] == self.rules@[i as int]@);
                    assert(!rule_match(self@[i as int], entry@));
                }
            }
            i += 1;
        }
        idxs
    }
}

impl Default for Config {
    /// The default configuration has no rules.
    fn default() -> (c: Config)
        ensures
            c@ == Seq::<RuleModel>::empty(),
    {
        Config::new()
    }
}

/// Whether at least one rule that matches `e` has its hide flag set.
pub open spec fn hidden(rules: Seq<RuleModel>, e: DeviceEntryModel) -> bool {
    exists|i: int| 0 <= i < rules.len() && #[trigger] rule_match(rules[i], e) && rules[i].hide
}

/// Evaluates [`hidden`]: whether some matching rule hides `entry`.
pub fn is_hidden(config: &Config, entry: &DeviceEntry) -> (h: bool)
    ensures
        h == hidden(config@, entry@),
{
    let mut i: usize = 0;
    while i < config.rules.len()
        invariant
            i <= config.rules.len(),
            config@.len() == config.rules@.len(),
            forall|j: int|
                0 <= j < i ==> !(#[trigger] rule_match(config@[j], entry@) && config@[j].hide),
        decreases config.rules.len() - i,
    {
        if config.rules[i].hide && config.rules[i].criteria.matches(entry) {
            assert(rule_match(config@[i as int], entry@) && config@[i as int].hide);
            return true;
        }
        i += 1;
    }
    false
}

/// The maximum declared priority among the rules of `rules` that match `e`,
/// or `None` when no matching rule declares one.
pub open spec fn max_matching_priority(rules: Seq<RuleModel>, e: DeviceEntryModel) -> Option<int>
    decreases rules.len(),
{
    if rules.len() == 0 {
        None
    } else {
        let prev = max_matching_priority(rules.drop_last(), e);
        let last = rules.last();
        if rule_match(last, e) {
            match last.priority {
                Some(p) => match prev {
                    None => Some(p as int),
                    Some(m) => Some(if p as int > m { p as int } else { m }),
                },
                None => prev,
            }
        } else {
            prev
        }
    }
}

/// The effective sorting priority of `e` under `rules`: the maximum
/// declared priority among matching rules, defaulting to 0 when no
/// matching rule declares one.
pub open spec fn effective_priority(rules: Seq<RuleModel>, e: DeviceEntryModel) -> int {
    match max_matching_priority(rules, e) {
        None => 0,
        Some(m) => m,
    }
}

/// The `Option<i64>` accumulator as its mathematical value.
spec fn opt_int(o: Option<i64>) -> Option<int> {
    match o {
        None => None,
        Some(v) => Some(v as int),
    }
}

/// Evaluates [`effective_priority`] for one descriptor.
pub fn effective_priority_of(config: &Config, entry: &DeviceEntry) -> (p: i64)
    ensures
        p as int == effective_priority(config@, entry@),
{
    let mut acc: Option<i64> = None;
    let mut i: usize = 0;
    while i < config.rules.len()
        invariant
            i <= config.rules.len(),
            config@.len() == config.rules@.len(),
            opt_int(acc) == max_matching_priority(config@.subrange(0, i as int), entry@),
        decreases config.rules.len() - i,
    {
        proof {
            assert(config@.subrange(0, i + 1 as int).drop_last() =~= config@.subrange(0, i as int));
        }
        if config.rules[i].criteria.matches(entry) {
            match config.rules[i].priority {
                Some(p) => {
                    acc = match acc {
                        None => Some(p),
                        Some(m) => if p > m {
                            Some(p)
                        } else {
                            Some(m)
                        },
                    };
                }
                None => {}
            }
        }
        i += 1;
    }
    proof {
        assert(config@.subrange(0, config@.len() as int) =~= config@);
    }
    match acc {
        None => 0,
        Some(m) => m,
    }
}

} // verus!
