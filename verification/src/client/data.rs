//! The game's tables, as the client looks them up: items by id, cards by
//! code, campaigns and scenarios by name, location ids, and the rules of
//! paths and locations.

use vstd::prelude::*;
use crate::cardcode::Code;
use crate::generate::logic::{LogicTerm, holds};
use crate::client::state::State;
use crate::collections::{first_where, lemma_first_where, lemma_first_where_at, lemma_first_where_none};

verus! {

/// An item a player can receive, with the campaign it belongs to.
pub enum Item {
    Unlock((String, String)),
    ScenarioUnlock((String, String)),
    Xp((String, i64)),
    ScenarioCard((String, Code)),
    CampaignFiller((String, String)),
}

/// An item without its campaign.
pub enum CampaignFreeItem {
    Unlock(String),
    ScenarioUnlock(String),
    Xp(i64),
    ScenarioCard(Code),
    CampaignFiller(String),
}

/// A card as the client shows it.
pub struct Card {
    pub code: Code,
    pub name: String,
    pub image: Option<String>,
    pub clues: i64,
    pub victory: i64,
    pub unique: bool,
}

/// A campaign and the names of its scenarios, in order.
pub struct Campaign {
    pub name: String,
    pub scenarios: Vec<String>,
}

/// A scenario: its standing rules, locks, locations, starting locations,
/// paths between locations and checks.
pub struct Scenario {
    pub name: String,
    pub always: String,
    pub locks: Vec<Lock>,
    pub locations: Vec<Code>,
    pub begin: Vec<Code>,
    pub paths: Vec<Path>,
    pub checks: Vec<Check>,
}

/// An unlock that changes the rules of a scenario, with the rule text
/// shown with it and without it.
pub struct Lock {
    pub name: String,
    pub rule: String,
    pub neg_rule: String,
}

/// A path from one location to another.
#[derive(Clone, Copy)]
pub struct Path {
    pub from: Code,
    pub to: Code,
}

/// A check of a scenario: what it is about, how many times it counts, its
/// victory points and its location ids.
pub struct Check {
    pub code: Code,
    pub description: String,
    pub count: i64,
    pub victory: i64,
    pub ids: Vec<i64>,
}

/// The id of the `n`-th clue (or victory) location of a card in a scenario.
pub struct LocationId {
    pub campaign: String,
    pub scenario: String,
    pub code: Code,
    pub n: i64,
    pub id: i64,
}

/// The rule that opens a path of a scenario.
pub struct PathRule {
    pub campaign: String,
    pub scenario: String,
    pub from: Code,
    pub to: Code,
    pub logic: LogicTerm,
}

/// All tables of the game.  A lookup gives the first entry that matches.
pub struct Tables {
    pub items: Vec<(i64, Item)>,
    pub cards: Vec<Card>,
    pub campaigns: Vec<Campaign>,
    pub scenarios: Vec<Scenario>,
    pub clue_ids: Vec<LocationId>,
    pub victory_ids: Vec<LocationId>,
    pub path_rules: Vec<PathRule>,
    pub location_rules: Vec<(i64, LogicTerm)>,
    pub goal_locations: Vec<(i64, String)>,
}

/// Whether a check can be sent: the rule of its first location holds.
pub open spec fn check_open(data: Tables, has: spec_fn(Seq<char>, Seq<char>) -> bool) -> spec_fn(Check) -> bool {
    |c: Check| data.location_open(c.ids@[0], has)
}

/// How many location ids a check is shown with.
pub open spec fn check_ids_needed(ch: Check) -> int {
    if ch.victory > 0 {
        if ch.count > 1 { ch.victory * ch.count } else { ch.victory as int }
    } else if ch.count > 1 {
        ch.count as int
    } else {
        1
    }
}

/// The check has the location ids it is shown with.
pub open spec fn check_ids_ok(ch: Check) -> bool {
    check_ids_needed(ch) <= ch.ids@.len() && check_ids_needed(ch) <= i64::MAX
}

/// Matches an item entry with this id.
pub open spec fn item_pred(id: i64) -> spec_fn((i64, Item)) -> bool {
    |e: (i64, Item)| e.0 == id
}

/// Matches a card with this code.
pub open spec fn card_pred(code: Code) -> spec_fn(Card) -> bool {
    |c: Card| c.code == code
}

/// Matches a campaign with this name.
pub open spec fn campaign_pred(name: Seq<char>) -> spec_fn(Campaign) -> bool {
    |c: Campaign| c.name@ == name
}

/// Matches a scenario with this name.
pub open spec fn scenario_pred(name: Seq<char>) -> spec_fn(Scenario) -> bool {
    |s: Scenario| s.name@ == name
}

/// Matches a location id entry with these keys.
pub open spec fn location_id_pred(campaign: Seq<char>, scenario: Seq<char>, code: Code, n: i64) -> spec_fn(LocationId) -> bool {
    |l: LocationId| l.campaign@ == campaign && l.scenario@ == scenario && l.code == code && l.n == n
}

/// Matches a path rule with these keys.
pub open spec fn path_rule_pred(campaign: Seq<char>, scenario: Seq<char>, from: Code, to: Code) -> spec_fn(PathRule) -> bool {
    |r: PathRule| r.campaign@ == campaign && r.scenario@ == scenario && r.from == from && r.to == to
}

/// Matches a location rule with this id.
pub open spec fn location_rule_pred(id: i64) -> spec_fn((i64, LogicTerm)) -> bool {
    |r: (i64, LogicTerm)| r.0 == id
}

/// Matches a goal entry with this id.
pub open spec fn goal_pred(id: i64) -> spec_fn((i64, String)) -> bool {
    |g: (i64, String)| g.0 == id
}

impl Item {
    /// The campaign the item belongs to.
    pub open spec fn campaign(self) -> Seq<char> {
        match self {
            Item::Unlock((c, _)) => c@,
            Item::ScenarioUnlock((c, _)) => c@,
            Item::Xp((c, _)) => c@,
            Item::ScenarioCard((c, _)) => c@,
            Item::CampaignFiller((c, _)) => c@,
        }
    }

    /// Splits the item into its campaign and the rest.
    pub fn split(self) -> (res: (String, CampaignFreeItem))
        ensures
            match self {
                Item::Unlock((c, v)) => res == (c, CampaignFreeItem::Unlock(v)),
                Item::ScenarioUnlock((c, v)) => res == (c, CampaignFreeItem::ScenarioUnlock(v)),
                Item::Xp((c, v)) => res == (c, CampaignFreeItem::Xp(v)),
                Item::ScenarioCard((c, v)) => res == (c, CampaignFreeItem::ScenarioCard(v)),
                Item::CampaignFiller((c, v)) => res == (c, CampaignFreeItem::CampaignFiller(v)),
            },
    {
        match self {
            Item::Unlock((campaign, v)) => (campaign, CampaignFreeItem::Unlock(v)),
            Item::ScenarioUnlock((campaign, v)) => (campaign, CampaignFreeItem::ScenarioUnlock(v)),
            Item::Xp((campaign, v)) => (campaign, CampaignFreeItem::Xp(v)),
            Item::ScenarioCard((campaign, v)) => (campaign, CampaignFreeItem::ScenarioCard(v)),
            Item::CampaignFiller((campaign, v)) => (campaign, CampaignFreeItem::CampaignFiller(v)),
        }
    }

    /// A copy of the item.
    pub fn duplicate(&self) -> (res: Item)
        ensures
            res == *self,
    {
        match self {
            Item::Unlock((c, v)) => Item::Unlock((c.clone(), v.clone())),
            Item::ScenarioUnlock((c, v)) => Item::ScenarioUnlock((c.clone(), v.clone())),
            Item::Xp((c, v)) => Item::Xp((c.clone(), *v)),
            Item::ScenarioCard((c, v)) => Item::ScenarioCard((c.clone(), *v)),
            Item::CampaignFiller((c, v)) => Item::CampaignFiller((c.clone(), v.clone())),
        }
    }
}

impl Tables {
    pub open spec fn item_index(self, id: i64) -> int {
        first_where(self.items@, item_pred(id))
    }

    pub open spec fn card_index(self, code: Code) -> int {
        first_where(self.cards@, card_pred(code))
    }

    pub open spec fn campaign_index(self, name: Seq<char>) -> int {
        first_where(self.campaigns@, campaign_pred(name))
    }

    pub open spec fn scenario_index(self, name: Seq<char>) -> int {
        first_where(self.scenarios@, scenario_pred(name))
    }

    pub open spec fn location_id_index(ids: Seq<LocationId>, campaign: Seq<char>, scenario: Seq<char>, code: Code, n: i64) -> int {
        first_where(ids, location_id_pred(campaign, scenario, code, n))
    }

    pub open spec fn path_rule_index(self, campaign: Seq<char>, scenario: Seq<char>, from: Code, to: Code) -> int {
        first_where(self.path_rules@, path_rule_pred(campaign, scenario, from, to))
    }

    pub open spec fn location_rule_index(self, id: i64) -> int {
        first_where(self.location_rules@, location_rule_pred(id))
    }

    pub open spec fn goal_index(self, id: i64) -> int {
        first_where(self.goal_locations@, goal_pred(id))
    }

    /// Every check has the location ids that it is shown with: one per
    /// victory point and repetition.
    pub open spec fn checks_well_formed(self) -> bool {
        forall|i: int, k: int| 0 <= i < self.scenarios@.len() && 0 <= k < self.scenarios@[i].checks@.len()
            ==> check_ids_ok(#[trigger] self.scenarios@[i].checks@[k])
    }

    pub proof fn lemma_checks_have_ids(self)
        requires
            self.checks_well_formed(),
        ensures
            self.checks_have_ids(),
    {
        assert forall|i: int, k: int| 0 <= i < self.scenarios@.len() && 0 <= k < self.scenarios@[i].checks@.len()
            implies (#[trigger] self.scenarios@[i].checks@[k]).ids@.len() > 0 by {
            let ch = self.scenarios@[i].checks@[k];
            assert(check_ids_ok(ch));
            if ch.victory > 0 && ch.count > 1 {
                assert(ch.victory * ch.count >= 1) by (nonlinear_arith)
                    requires ch.victory > 0, ch.count > 1;
            }
        }
    }

    /// Whether every check has the location ids it is shown with.
    pub fn checks_complete(&self) -> (res: bool)
        ensures
            res == self.checks_well_formed(),
    {
        let mut i: usize = 0;
        while i < self.scenarios.len()
            invariant
                i <= self.scenarios@.len(),
                forall|j: int, k: int| 0 <= j < i && 0 <= k < self.scenarios@[j].checks@.len()
                    ==> check_ids_ok(#[trigger] self.scenarios@[j].checks@[k]),
            decreases self.scenarios@.len() - i,
        {
            let checks = &self.scenarios[i].checks;
            let mut k: usize = 0;
            while k < checks.len()
                invariant
                    i < self.scenarios@.len(),
                    checks@ == self.scenarios@[i as int].checks@,
                    k <= checks@.len(),
                    forall|j: int, m: int| 0 <= j < i && 0 <= m < self.scenarios@[j].checks@.len()
                        ==> check_ids_ok(#[trigger] self.scenarios@[j].checks@[m]),
                    forall|m: int| 0 <= m < k ==> check_ids_ok(#[trigger] checks@[m]),
                decreases checks@.len() - k,
            {
                let ch = &checks[k];
                let victory = ch.victory as i128;
                let count = ch.count as i128;
                let needed: i128 = if victory > 0 {
                    if count > 1 {
                        assert(victory * count <= 0x7fff_ffff_ffff_ffff * 0x7fff_ffff_ffff_ffffi128) by (nonlinear_arith)
                            requires 0 < victory <= 0x7fff_ffff_ffff_ffff, 1 < count <= 0x7fff_ffff_ffff_ffff;
                        victory * count
                    } else {
                        victory
                    }
                } else if count > 1 {
                    count
                } else {
                    1
                };
                assert(needed == check_ids_needed(*ch));
                if needed > ch.ids.len() as i128 || needed > 0x7fff_ffff_ffff_ffffi128 {
                    assert(!check_ids_ok(self.scenarios@[i as int].checks@[k as int]));
                    return false;
                }
                k = k + 1;
            }
            proof {
                assert forall|j: int, m: int| 0 <= j < i + 1 && 0 <= m < self.scenarios@[j].checks@.len()
                    implies check_ids_ok(#[trigger] self.scenarios@[j].checks@[m]) by {
                    if j == i {
                        assert(checks@[m] == self.scenarios@[j].checks@[m]);
                    }
                }
            }
            i = i + 1;
        }
        true
    }

    /// Every check of every scenario has at least one location id.
    pub open spec fn checks_have_ids(self) -> bool {
        forall|i: int, k: int| 0 <= i < self.scenarios@.len() && 0 <= k < self.scenarios@[i].checks@.len()
            ==> (#[trigger] self.scenarios@[i].checks@[k]).ids@.len() > 0
    }

    /// Whether the path `from -> to` of a scenario can be followed when
    /// `has` tells which unlocks are held.
    pub open spec fn path_open(self, campaign: Seq<char>, scenario: Seq<char>, from: Code, to: Code, has: spec_fn(Seq<char>, Seq<char>) -> bool) -> bool {
        let i = self.path_rule_index(campaign, scenario, from, to);
        i >= 0 && holds(self.path_rules@[i].logic@, has)
    }

    /// Whether the location with first id `id` can be sent.
    pub open spec fn location_open(self, id: i64, has: spec_fn(Seq<char>, Seq<char>) -> bool) -> bool {
        let i = self.location_rule_index(id);
        i >= 0 && holds(self.location_rules@[i].1@, has)
    }

    /// The campaign whose goal the location `id` is, if any.
    pub open spec fn goal_of(self, id: i64) -> Option<Seq<char>> {
        let i = self.goal_index(id);
        if i >= 0 { Some(self.goal_locations@[i].1@) } else { None }
    }

    /// The item with this id.
    pub fn item_from_id(&self, id: i64) -> (res: Option<&Item>)
        ensures
            match res {
                Some(item) => self.item_index(id) >= 0 && *item == self.items@[self.item_index(id)].1,
                None => self.item_index(id) < 0,
            },
    {
        let ghost p = item_pred(id);
        let mut i: usize = 0;
        while i < self.items.len()
            invariant
                p == item_pred(id),
                i <= self.items@.len(),
                forall|j: int| 0 <= j < i ==> !p(#[trigger] self.items@[j]),
            decreases self.items@.len() - i,
        {
            if self.items[i].0 == id {
                proof { lemma_first_where_at(self.items@, p, i as int); }
                return Some(&self.items[i].1);
            }
            i = i + 1;
        }
        proof { lemma_first_where_none(self.items@, p); }
        None
    }

    /// The card with this code.
    pub fn get_card(&self, code: Code) -> (res: Option<&Card>)
        ensures
            match res {
                Some(card) => self.card_index(code) >= 0 && *card == self.cards@[self.card_index(code)],
                None => self.card_index(code) < 0,
            },
    {
        let ghost p = card_pred(code);
        let mut i: usize = 0;
        while i < self.cards.len()
            invariant
                p == card_pred(code),
                i <= self.cards@.len(),
                forall|j: int| 0 <= j < i ==> !p(#[trigger] self.cards@[j]),
            decreases self.cards@.len() - i,
        {
            if self.cards[i].code == code {
                proof { lemma_first_where_at(self.cards@, p, i as int); }
                return Some(&self.cards[i]);
            }
            i = i + 1;
        }
        proof { lemma_first_where_none(self.cards@, p); }
        None
    }

    /// The campaign with this name.
    pub fn get_campaign(&self, name: &str) -> (res: Option<&Campaign>)
        ensures
            match res {
                Some(c) => self.campaign_index(name@) >= 0 && *c == self.campaigns@[self.campaign_index(name@)],
                None => self.campaign_index(name@) < 0,
            },
    {
        let ghost p = campaign_pred(name@);
        let mut i: usize = 0;
        while i < self.campaigns.len()
            invariant
                p == campaign_pred(name@),
                i <= self.campaigns@.len(),
                forall|j: int| 0 <= j < i ==> !p(#[trigger] self.campaigns@[j]),
            decreases self.campaigns@.len() - i,
        {
            if str_eq(self.campaigns[i].name.as_str(), name) {
                proof { lemma_first_where_at(self.campaigns@, p, i as int); }
                return Some(&self.campaigns[i]);
            }
            i = i + 1;
        }
        proof { lemma_first_where_none(self.campaigns@, p); }
        None
    }

    /// The scenario with this name.
    pub fn get_scenario(&self, name: &str) -> (res: Option<&Scenario>)
        ensures
            match res {
                Some(s) => self.scenario_index(name@) >= 0 && *s == self.scenarios@[self.scenario_index(name@)],
                None => self.scenario_index(name@) < 0,
            },
    {
        let ghost p = scenario_pred(name@);
        let mut i: usize = 0;
        while i < self.scenarios.len()
            invariant
                p == scenario_pred(name@),
                i <= self.scenarios@.len(),
                forall|j: int| 0 <= j < i ==> !p(#[trigger] self.scenarios@[j]),
            decreases self.scenarios@.len() - i,
        {
            if str_eq(self.scenarios[i].name.as_str(), name) {
                proof { lemma_first_where_at(self.scenarios@, p, i as int); }
                return Some(&self.scenarios[i]);
            }
            i = i + 1;
        }
        proof { lemma_first_where_none(self.scenarios@, p); }
        None
    }

    fn find_location_id(ids: &Vec<LocationId>, campaign: &str, scenario: &str, code: Code, n: i64) -> (res: Option<i64>)
        ensures
            ({
                let i = Self::location_id_index(ids@, campaign@, scenario@, code, n);
                match res {
                    Some(id) => i >= 0 && id == ids@[i].id,
                    None => i < 0,
                }
            }),
    {
        let ghost p = location_id_pred(campaign@, scenario@, code, n);
        let mut i: usize = 0;
        while i < ids.len()
            invariant
                p == location_id_pred(campaign@, scenario@, code, n),
                i <= ids@.len(),
                forall|j: int| 0 <= j < i ==> !p(#[trigger] ids@[j]),
            decreases ids@.len() - i,
        {
            let l = &ids[i];
            if str_eq(l.campaign.as_str(), campaign) && str_eq(l.scenario.as_str(), scenario) && l.code == code && l.n == n {
                proof { lemma_first_where_at(ids@, p, i as int); }
                return Some(l.id);
            }
            i = i + 1;
        }
        proof { lemma_first_where_none(ids@, p); }
        None
    }

    /// The id of the `n`-th clue location of card `code` in a scenario.
    pub fn get_clue_id(&self, campaign: &str, scenario: &str, code: Code, n: i64) -> (res: Option<i64>)
        ensures
            ({
                let i = Self::location_id_index(self.clue_ids@, campaign@, scenario@, code, n);
                match res {
                    Some(id) => i >= 0 && id == self.clue_ids@[i].id,
                    None => i < 0,
                }
            }),
    {
        Self::find_location_id(&self.clue_ids, campaign, scenario, code, n)
    }

    /// The id of the `n`-th victory location of card `code` in a scenario.
    pub fn get_victory_id(&self, campaign: &str, scenario: &str, code: Code, n: i64) -> (res: Option<i64>)
        ensures
            ({
                let i = Self::location_id_index(self.victory_ids@, campaign@, scenario@, code, n);
                match res {
                    Some(id) => i >= 0 && id == self.victory_ids@[i].id,
                    None => i < 0,
                }
            }),
    {
        Self::find_location_id(&self.victory_ids, campaign, scenario, code, n)
    }

    /// Whether the path `from -> to` of a scenario can be followed in `state`.
    pub fn can_follow_path(&self, campaign: &str, scenario: &str, from: Code, to: Code, state: &State) -> (res: bool)
        requires
            state.wf(),
        ensures
            res == self.path_open(campaign@, scenario@, from, to, state.has_fn()),
    {
        let ghost p = path_rule_pred(campaign@, scenario@, from, to);
        let mut i: usize = 0;
        while i < self.path_rules.len()
            invariant
                p == path_rule_pred(campaign@, scenario@, from, to),
                state.wf(),
                i <= self.path_rules@.len(),
                forall|j: int| 0 <= j < i ==> !p(#[trigger] self.path_rules@[j]),
            decreases self.path_rules@.len() - i,
        {
            let r = &self.path_rules[i];
            if str_eq(r.campaign.as_str(), campaign) && str_eq(r.scenario.as_str(), scenario) && r.from == from && r.to == to {
                proof { lemma_first_where_at(self.path_rules@, p, i as int); }
                return state.holds(&r.logic);
            }
            i = i + 1;
        }
        proof { lemma_first_where_none(self.path_rules@, p); }
        false
    }

    /// Whether the location whose first id is `first_id` can be sent in `state`.
    pub fn can_send_location(&self, first_id: i64, state: &State) -> (res: bool)
        requires
            state.wf(),
        ensures
            res == self.location_open(first_id, state.has_fn()),
    {
        let ghost p = location_rule_pred(first_id);
        let mut i: usize = 0;
        while i < self.location_rules.len()
            invariant
                p == location_rule_pred(first_id),
                state.wf(),
                i <= self.location_rules@.len(),
                forall|j: int| 0 <= j < i ==> !p(#[trigger] self.location_rules@[j]),
            decreases self.location_rules@.len() - i,
        {
            if self.location_rules[i].0 == first_id {
                proof { lemma_first_where_at(self.location_rules@, p, i as int); }
                return state.holds(&self.location_rules[i].1);
            }
            i = i + 1;
        }
        proof { lemma_first_where_none(self.location_rules@, p); }
        false
    }

    /// The campaign whose goal is the location `first_id`, if it is one.
    pub fn is_goal_location(&self, first_id: i64) -> (res: Option<&String>)
        ensures
            match res {
                Some(c) => self.goal_of(first_id) == Some(c@),
                None => self.goal_of(first_id) is None,
            },
    {
        let ghost p = goal_pred(first_id);
        let mut i: usize = 0;
        while i < self.goal_locations.len()
            invariant
                p == goal_pred(first_id),
                i <= self.goal_locations@.len(),
                forall|j: int| 0 <= j < i ==> !p(#[trigger] self.goal_locations@[j]),
            decreases self.goal_locations@.len() - i,
        {
            if self.goal_locations[i].0 == first_id {
                proof { lemma_first_where_at(self.goal_locations@, p, i as int); }
                return Some(&self.goal_locations[i].1);
            }
            i = i + 1;
        }
        proof { lemma_first_where_none(self.goal_locations@, p); }
        None
    }
}

/// Whether two string slices hold the same characters.
pub fn str_eq(a: &str, b: &str) -> (res: bool)
    ensures
        res == (a@ == b@),
{
    let x = crate::text::chars_of(a);
    let y = crate::text::chars_of(b);
    if x.len() != y.len() {
        return false;
    }
    let mut i: usize = 0;
    while i < x.len()
        invariant
            x@ == a@,
            y@ == b@,
            x@.len() == y@.len(),
            i <= x@.len(),
            forall|j: int| 0 <= j < i ==> x@[j] == y@[j],
        decreases x@.len() - i,
    {
        if x[i] != y[i] {
            return false;
        }
        i = i + 1;
    }
    assert(x@ =~= y@);
    true
}

} // verus!
