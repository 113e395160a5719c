//! The campaigns, scenarios and checks read from the data files.

use vstd::prelude::*;
use crate::cardcode::Code;
use crate::generate::logic::{LogicTerm, Logic};
use crate::collections::copy_values;

verus! {

/// Everything the data files describe: the campaigns, in the order they
/// were read.  Campaign names are distinct.
pub struct Data {
    pub campaigns: Vec<Campaign>,
}

/// A campaign: its number (its place among the campaigns), its experience,
/// its scenarios in order (names distinct), its unlocks, the cards its
/// scenarios hand out and its filler items.
pub struct Campaign {
    pub name: String,
    pub i: i64,
    pub xp: i64,
    pub scenarios: Vec<Scenario>,
    pub unlocks: Vec<String>,
    pub scenario_cards: Vec<Code>,
    pub filler: Vec<Filler>,
}

/// A scenario: its number within its campaign, the experience its logic
/// expects, its standing rules, locks, locations, starting locations,
/// paths and checks.
pub struct Scenario {
    pub name: String,
    pub i: i64,
    pub logic_xp: i64,
    pub always: String,
    pub locks: Vec<Lock>,
    pub locations: Vec<Code>,
    pub begin: Vec<Code>,
    pub paths: Vec<Path>,
    pub checks: Vec<Check>,
}

/// An unlock that changes the rules of a scenario.
pub struct Lock {
    pub name: String,
    pub rule: String,
    pub neg_rule: String,
}

/// A path between two locations and the rule that opens it.
pub struct Path {
    pub from: Code,
    pub to: Code,
    pub logic: LogicTerm,
}

/// A check: the card it is about, its name and description, the rule that
/// opens it, how many times it counts, its victory points, whether it is
/// the campaign's goal, and its location ids once assigned.
pub struct Check {
    pub code: Code,
    pub name: String,
    pub description: String,
    pub logic: LogicTerm,
    pub count: i64,
    pub victory: i64,
    pub goal: bool,
    pub ids: Vec<i64>,
}

/// A filler item: its name, which difficulties make it a trap (one bit per
/// difficulty, easiest first) and how many there are at each difficulty.
pub struct Filler {
    pub name: String,
    pub trap: u8,
    pub quantity: [i64; 4],
}

/// The value of a filler item.
pub struct FillerView {
    pub name: Seq<char>,
    pub trap: u8,
    pub quantity: Seq<i64>,
}

/// The value of a path.
pub struct PathView {
    pub from: Code,
    pub to: Code,
    pub logic: Logic,
}

/// The value of a check.
pub struct CheckView {
    pub code: Code,
    pub name: Seq<char>,
    pub description: Seq<char>,
    pub logic: Logic,
    pub count: i64,
    pub victory: i64,
    pub goal: bool,
    pub ids: Seq<i64>,
}

/// The value of a lock.
pub struct LockView {
    pub name: Seq<char>,
    pub rule: Seq<char>,
    pub neg_rule: Seq<char>,
}

/// The value of a scenario.
pub struct ScenarioView {
    pub name: Seq<char>,
    pub i: i64,
    pub logic_xp: i64,
    pub always: Seq<char>,
    pub locks: Seq<LockView>,
    pub locations: Seq<Code>,
    pub begin: Seq<Code>,
    pub paths: Seq<PathView>,
    pub checks: Seq<CheckView>,
}

/// The value of a campaign.
pub struct CampaignView {
    pub name: Seq<char>,
    pub i: i64,
    pub xp: i64,
    pub scenarios: Seq<ScenarioView>,
    pub unlocks: Seq<Seq<char>>,
    pub scenario_cards: Seq<Code>,
    pub filler: Seq<FillerView>,
}

impl Filler {
    pub open spec fn view(self) -> FillerView {
        FillerView { name: self.name@, trap: self.trap, quantity: self.quantity@ }
    }
}

impl Path {
    pub open spec fn view(self) -> PathView {
        PathView { from: self.from, to: self.to, logic: self.logic@ }
    }
}

impl Check {
    pub open spec fn view(self) -> CheckView {
        CheckView {
            code: self.code,
            name: self.name@,
            description: self.description@,
            logic: self.logic@,
            count: self.count,
            victory: self.victory,
            goal: self.goal,
            ids: self.ids@,
        }
    }
}

impl Lock {
    pub open spec fn view(self) -> LockView {
        LockView { name: self.name@, rule: self.rule@, neg_rule: self.neg_rule@ }
    }
}

/// The values of some paths.
pub open spec fn path_views(v: Seq<Path>) -> Seq<PathView> {
    v.map_values(|p: Path| p@)
}

/// The values of some checks.
pub open spec fn check_views(v: Seq<Check>) -> Seq<CheckView> {
    v.map_values(|c: Check| c@)
}

/// The values of some locks.
pub open spec fn lock_views(v: Seq<Lock>) -> Seq<LockView> {
    v.map_values(|l: Lock| l@)
}

/// The values of some filler items.
pub open spec fn filler_views(v: Seq<Filler>) -> Seq<FillerView> {
    v.map_values(|f: Filler| f@)
}

/// The values of some strings.
pub open spec fn string_views(v: Seq<String>) -> Seq<Seq<char>> {
    v.map_values(|s: String| s@)
}

impl Scenario {
    pub open spec fn view(self) -> ScenarioView {
        ScenarioView {
            name: self.name@,
            i: self.i,
            logic_xp: self.logic_xp,
            always: self.always@,
            locks: lock_views(self.locks@),
            locations: self.locations@,
            begin: self.begin@,
            paths: path_views(self.paths@),
            checks: check_views(self.checks@),
        }
    }
}

/// The values of some scenarios.
pub open spec fn scenario_views(v: Seq<Scenario>) -> Seq<ScenarioView> {
    v.map_values(|s: Scenario| s@)
}

impl Campaign {
    pub open spec fn view(self) -> CampaignView {
        CampaignView {
            name: self.name@,
            i: self.i,
            xp: self.xp,
            scenarios: scenario_views(self.scenarios@),
            unlocks: string_views(self.unlocks@),
            scenario_cards: self.scenario_cards@,
            filler: filler_views(self.filler@),
        }
    }
}

/// The values of some campaigns.
pub open spec fn campaign_views(v: Seq<Campaign>) -> Seq<CampaignView> {
    v.map_values(|c: Campaign| c@)
}

fn copy_strings(v: &Vec<String>) -> (res: Vec<String>)
    ensures
        string_views(res@) == string_views(v@),
{
    let mut r: Vec<String> = Vec::new();
    let mut i: usize = 0;
    while i < v.len()
        invariant
            i <= v@.len(),
            string_views(r@) == string_views(v@).take(i as int),
        decreases v@.len() - i,
    {
        r.push(v[i].clone());
        proof { assert(string_views(v@).take(i + 1) =~= string_views(v@).take(i as int).push(v@[i as int]@)); }
        i = i + 1;
    }
    proof { assert(string_views(v@).take(i as int) =~= string_views(v@)); }
    r
}

impl Lock {
    /// A copy of the lock.
    pub fn copy(&self) -> (res: Lock)
        ensures
            res@ == self@,
    {
        Lock { name: self.name.clone(), rule: self.rule.clone(), neg_rule: self.neg_rule.clone() }
    }
}

impl Path {
    /// A copy of the path.
    pub fn copy(&self) -> (res: Path)
        ensures
            res@ == self@,
    {
        Path { from: self.from, to: self.to, logic: self.logic.copy() }
    }
}

impl Check {
    /// A copy of the check.
    pub fn copy(&self) -> (res: Check)
        ensures
            res@ == self@,
    {
        Check {
            code: self.code,
            name: self.name.clone(),
            description: self.description.clone(),
            logic: self.logic.copy(),
            count: self.count,
            victory: self.victory,
            goal: self.goal,
            ids: copy_values(&self.ids),
        }
    }
}

impl Filler {
    /// A copy of the filler item.
    pub fn copy(&self) -> (res: Filler)
        ensures
            res@ == self@,
    {
        Filler { name: self.name.clone(), trap: self.trap, quantity: self.quantity }
    }
}

impl Scenario {
    /// A copy of the scenario.
    pub fn copy(&self) -> (res: Scenario)
        ensures
            res@ == self@,
    {
        let mut locks: Vec<Lock> = Vec::new();
        let mut k: usize = 0;
        while k < self.locks.len()
            invariant
                k <= self.locks@.len(),
                lock_views(locks@) == lock_views(self.locks@).take(k as int),
            decreases self.locks@.len() - k,
        {
            locks.push(self.locks[k].copy());
            proof { assert(lock_views(self.locks@).take(k + 1) =~= lock_views(self.locks@).take(k as int).push(self.locks@[k as int]@)); }
            k = k + 1;
        }
        proof { assert(lock_views(self.locks@).take(k as int) =~= lock_views(self.locks@)); }
        let mut paths: Vec<Path> = Vec::new();
        let mut k: usize = 0;
        while k < self.paths.len()
            invariant
                k <= self.paths@.len(),
                path_views(paths@) == path_views(self.paths@).take(k as int),
            decreases self.paths@.len() - k,
        {
            paths.push(self.paths[k].copy());
            proof { assert(path_views(self.paths@).take(k + 1) =~= path_views(self.paths@).take(k as int).push(self.paths@[k as int]@)); }
            k = k + 1;
        }
        proof { assert(path_views(self.paths@).take(k as int) =~= path_views(self.paths@)); }
        let mut checks: Vec<Check> = Vec::new();
        let mut k: usize = 0;
        while k < self.checks.len()
            invariant
                k <= self.checks@.len(),
                check_views(checks@) == check_views(self.checks@).take(k as int),
            decreases self.checks@.len() - k,
        {
            checks.push(self.checks[k].copy());
            proof { assert(check_views(self.checks@).take(k + 1) =~= check_views(self.checks@).take(k as int).push(self.checks@[k as int]@)); }
            k = k + 1;
        }
        proof { assert(check_views(self.checks@).take(k as int) =~= check_views(self.checks@)); }
        Scenario {
            name: self.name.clone(),
            i: self.i,
            logic_xp: self.logic_xp,
            always: self.always.clone(),
            locks,
            locations: copy_values(&self.locations),
            begin: copy_values(&self.begin),
            paths,
            checks,
        }
    }
}

impl Campaign {
    /// A copy of the campaign.
    pub fn copy(&self) -> (res: Campaign)
        ensures
            res@ == self@,
    {
        let mut scenarios: Vec<Scenario> = Vec::new();
        let mut k: usize = 0;
        while k < self.scenarios.len()
            invariant
                k <= self.scenarios@.len(),
                scenario_views(scenarios@) == scenario_views(self.scenarios@).take(k as int),
            decreases self.scenarios@.len() - k,
        {
            scenarios.push(self.scenarios[k].copy());
            proof { assert(scenario_views(self.scenarios@).take(k + 1) =~= scenario_views(self.scenarios@).take(k as int).push(self.scenarios@[k as int]@)); }
            k = k + 1;
        }
        proof { assert(scenario_views(self.scenarios@).take(k as int) =~= scenario_views(self.scenarios@)); }
        let mut filler: Vec<Filler> = Vec::new();
        let mut k: usize = 0;
        while k < self.filler.len()
            invariant
                k <= self.filler@.len(),
                filler_views(filler@) == filler_views(self.filler@).take(k as int),
            decreases self.filler@.len() - k,
        {
            filler.push(self.filler[k].copy());
            proof { assert(filler_views(self.filler@).take(k + 1) =~= filler_views(self.filler@).take(k as int).push(self.filler@[k as int]@)); }
            k = k + 1;
        }
        proof { assert(filler_views(self.filler@).take(k as int) =~= filler_views(self.filler@)); }
        Campaign {
            name: self.name.clone(),
            i: self.i,
            xp: self.xp,
            scenarios,
            unlocks: copy_strings(&self.unlocks),
            scenario_cards: copy_values(&self.scenario_cards),
            filler,
        }
    }
}

/// A campaign of the same name comes before place `k`: the record at `k`
/// is one already listed.
pub open spec fn campaign_seen(cs: Seq<CampaignView>, k: int) -> bool {
    exists|j: int| 0 <= j < k && #[trigger] cs[j].name == cs[k].name
}

/// A scenario of the same name comes before place `k`.
pub open spec fn scenario_seen(ss: Seq<ScenarioView>, k: int) -> bool {
    exists|j: int| 0 <= j < k && #[trigger] ss[j].name == ss[k].name
}

/// Whether the campaign at `k` was seen before depends only on the
/// campaigns up to it.
pub proof fn lemma_campaign_seen_take(cs: Seq<CampaignView>, k: int)
    requires
        0 <= k < cs.len(),
    ensures
        campaign_seen(cs.take(k + 1), k) == campaign_seen(cs, k),
{
    let t = cs.take(k + 1);
    if campaign_seen(cs, k) {
        let j = choose|j: int| 0 <= j < k && #[trigger] cs[j].name == cs[k].name;
        assert(t[j].name == t[k].name);
    }
    if campaign_seen(t, k) {
        let j = choose|j: int| 0 <= j < k && #[trigger] t[j].name == t[k].name;
        assert(cs[j].name == cs[k].name);
    }
}

/// Whether the scenario at `k` was seen before depends only on the
/// scenarios up to it.
pub proof fn lemma_scenario_seen_take(ss: Seq<ScenarioView>, k: int)
    requires
        0 <= k < ss.len(),
    ensures
        scenario_seen(ss.take(k + 1), k) == scenario_seen(ss, k),
{
    let t = ss.take(k + 1);
    if scenario_seen(ss, k) {
        let j = choose|j: int| 0 <= j < k && #[trigger] ss[j].name == ss[k].name;
        assert(t[j].name == t[k].name);
    }
    if scenario_seen(t, k) {
        let j = choose|j: int| 0 <= j < k && #[trigger] t[j].name == t[k].name;
        assert(ss[j].name == ss[k].name);
    }
}

/// Whether a campaign of the same name comes before place `k`.
pub fn campaign_seen_exec(cs: &Vec<Campaign>, k: usize) -> (res: bool)
    requires
        k < cs@.len(),
    ensures
        res == campaign_seen(campaign_views(cs@), k as int),
{
    let ghost v = campaign_views(cs@);
    let mut j: usize = 0;
    while j < k
        invariant
            v == campaign_views(cs@),
            k < cs@.len(),
            j <= k,
            forall|q: int| 0 <= q < j ==> #[trigger] v[q].name != v[k as int].name,
        decreases k - j,
    {
        assert(v[j as int] == cs@[j as int]@ && v[k as int] == cs@[k as int]@);
        if cs[j].name == cs[k].name {
            proof { assert(v[j as int].name == v[k as int].name); }
            return true;
        }
        j = j + 1;
    }
    false
}

/// Whether a scenario of the same name comes before place `k`.
pub fn scenario_seen_exec(ss: &Vec<Scenario>, k: usize) -> (res: bool)
    requires
        k < ss@.len(),
    ensures
        res == scenario_seen(scenario_views(ss@), k as int),
{
    let ghost v = scenario_views(ss@);
    let mut j: usize = 0;
    while j < k
        invariant
            v == scenario_views(ss@),
            k < ss@.len(),
            j <= k,
            forall|q: int| 0 <= q < j ==> #[trigger] v[q].name != v[k as int].name,
        decreases k - j,
    {
        assert(v[j as int] == ss@[j as int]@ && v[k as int] == ss@[k as int]@);
        if ss[j].name == ss[k].name {
            proof { assert(v[j as int].name == v[k as int].name); }
            return true;
        }
        j = j + 1;
    }
    false
}

} // verus!
