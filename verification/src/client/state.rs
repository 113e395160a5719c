//! The player's progression: which locations are still to send, what each
//! campaign has received, and which locations each scenario can reach.

use vstd::prelude::*;
use std::collections::HashSet;
use crate::cardcode::Code;
use crate::collections::{Tally, KeySet, count_in, bump, lemma_bump, distinct_keys};
use crate::generate::logic::{LogicTerm, Logic, holds, any_holds, all_hold, terms_view, lemma_terms_view_step};
use crate::client::data::{Tables, Campaign, Item, CampaignFreeItem, Check, Path, str_eq, check_open};
use crate::collections::{first_where, lemma_first_where, lemma_first_where_at, lemma_first_where_none, lemma_first_where_same, lemma_first_where_push};
use crate::client::protocol::SlotData;

verus! {

broadcast use vstd::std_specs::hash::group_hash_axioms;

/// What a campaign has received.
pub struct CampaignState {
    pub unlocks: Tally<String>,
    pub scenarios: KeySet<String>,
    pub xp: i64,
    pub cards: Tally<Code>,
    pub filler: Tally<String>,
    pub completed: bool,
}

impl CampaignState {
    pub open spec fn wf(&self) -> bool {
        &&& self.unlocks.wf()
        &&& self.scenarios.wf()
        &&& self.cards.wf()
        &&& self.filler.wf()
    }

    /// Nothing received.
    pub fn new() -> (res: CampaignState)
        ensures
            res.wf(),
            res.unlocks.pairs() == Seq::<(Seq<char>, int)>::empty(),
            res.scenarios.keys() == Seq::<Seq<char>>::empty(),
            res.xp == 0,
            res.cards.pairs() == Seq::<(Code, int)>::empty(),
            res.filler.pairs() == Seq::<(Seq<char>, int)>::empty(),
            !res.completed,
    {
        CampaignState {
            unlocks: Tally::new(),
            scenarios: KeySet::new(),
            xp: 0,
            cards: Tally::new(),
            filler: Tally::new(),
            completed: false,
        }
    }
}

/// The progression of one player.
pub struct State {
    unsent_locations: HashSet<i64>,
    campaigns: Vec<(String, CampaignState)>,
    scenarios: Vec<(String, KeySet<Code>)>,
    pub slot_data: SlotData,
}

/// The least set that holds `start` and, with the first end of an edge,
/// its second end.
pub open spec fn closure(start: Set<Code>, edges: Set<(Code, Code)>) -> Set<Code> {
    Set::new(|x: Code| forall|s: Set<Code>| start.subset_of(s) && #[trigger] closed_under(s, edges) ==> s.contains(x))
}

/// With the first end of an edge, `r` holds its second end.
pub open spec fn closed_under(r: Set<Code>, edges: Set<(Code, Code)>) -> bool {
    forall|e: (Code, Code)| #[trigger] edges.contains(e) && r.contains(e.0) ==> r.contains(e.1)
}

/// The paths that are open, as edges.
pub open spec fn open_edges(paths: Seq<Path>, open: Seq<bool>) -> Set<(Code, Code)> {
    Set::new(|e: (Code, Code)| exists|k: int| 0 <= k < paths.len() && open[k] && #[trigger] paths[k].from == e.0 && paths[k].to == e.1)
}

/// The codes paths lead to.
pub open spec fn targets(paths: Seq<Path>) -> Set<Code> {
    paths.map_values(|p: Path| p.to).to_set()
}

/// Extends `reach` with every location that open paths lead to from it.
pub fn close_reachable(reach: &mut KeySet<Code>, paths: &Vec<Path>, open: &Vec<bool>)
    requires
        old(reach).wf(),
        paths@.len() == open@.len(),
    ensures
        final(reach).wf(),
        final(reach).set() == closure(old(reach).set(), open_edges(paths@, open@)),
{
    let ghost start = reach.set();
    let ghost edges = open_edges(paths@, open@);
    let ghost tos = targets(paths@);
    proof { vstd::seq_lib::seq_to_set_is_finite(paths@.map_values(|p: Path| p.to)); }
    loop
        invariant_except_break
            reach.wf(),
            paths@.len() == open@.len(),
            edges == open_edges(paths@, open@),
            tos == targets(paths@),
            tos.finite(),
            start.subset_of(reach.set()),
            forall|s: Set<Code>| start.subset_of(s) && #[trigger] closed_under(s, edges) ==> reach.set().subset_of(s),
        ensures
            reach.wf(),
            start.subset_of(reach.set()),
            forall|s: Set<Code>| start.subset_of(s) && #[trigger] closed_under(s, edges) ==> reach.set().subset_of(s),
            closed_under(reach.set(), edges),
        decreases tos.difference(reach.set()).len(),
    {
        let ghost before = reach.set();
        let mut changed = false;
        let mut j: usize = 0;
        while j < paths.len()
            invariant
                reach.wf(),
                paths@.len() == open@.len(),
                edges == open_edges(paths@, open@),
                tos == targets(paths@),
                tos.finite(),
                j <= paths@.len(),
                start.subset_of(reach.set()),
                before.subset_of(reach.set()),
                forall|s: Set<Code>| start.subset_of(s) && #[trigger] closed_under(s, edges) ==> reach.set().subset_of(s),
                !changed ==> reach.set() == before,
                !changed ==> forall|k: int| 0 <= k < j && open@[k] && reach.set().contains(#[trigger] paths@[k].from) ==> reach.set().contains(paths@[k].to),
                changed ==> tos.difference(reach.set()).len() < tos.difference(before).len(),
            decreases paths@.len() - j,
        {
            let p = paths[j];
            if open[j] && reach.contains(&p.from) && !reach.contains(&p.to) {
                let ghost r0 = reach.set();
                let ghost k0 = reach.keys();
                proof {
                    assert(reach.keys().contains(p.from));
                    assert(r0.contains(p.from));
                    assert(edges.contains((p.from, p.to))) by {
                        assert(paths@[j as int].from == p.from);
                    }
                    assert(paths@.map_values(|q: Path| q.to)[j as int] == p.to);
                    assert(tos.contains(p.to));
                    assert(tos.difference(r0.insert(p.to)) =~= tos.difference(r0).remove(p.to));
                    assert(tos.difference(r0).contains(p.to));
                    assert(tos.difference(r0).subset_of(tos.difference(before)));
                    vstd::set_lib::lemma_len_subset(tos.difference(r0), tos.difference(before));
                }
                reach.insert(p.to);
                proof {
                    assert(reach.keys() == k0.push(p.to));
                    assert(k0 + seq![p.to] =~= k0.push(p.to));
                    Seq::<Code>::lemma_to_set_insert_commutes(k0, p.to);
                    assert(reach.set() =~= r0.insert(p.to));
                }
                changed = true;
            }
            j = j + 1;
        }
        if !changed {
            proof {
                assert forall|e: (Code, Code)| #[trigger] edges.contains(e) && reach.set().contains(e.0) implies reach.set().contains(e.1) by {
                    let k = choose|k: int| 0 <= k < paths@.len() && open@[k] && #[trigger] paths@[k].from == e.0 && paths@[k].to == e.1;
                }
            }
            break;
        }
    }
    proof {
        let r = reach.set();
        let c = closure(start, edges);
        assert forall|x: Code| r.contains(x) implies c.contains(x) by {
            assert forall|s: Set<Code>| start.subset_of(s) && #[trigger] closed_under(s, edges) implies s.contains(x) by {}
        }
        assert forall|x: Code| c.contains(x) implies r.contains(x) by {
            assert(start.subset_of(r) && closed_under(r, edges));
        }
        assert(r =~= c);
    }
}

/// Matches a campaign entry of this name.
pub open spec fn camp_pred(c: Seq<char>) -> spec_fn((String, CampaignState)) -> bool {
    |e: (String, CampaignState)| e.0@ == c
}

/// Matches a scenario entry of this name.
pub open spec fn scen_pred(s: Seq<char>) -> spec_fn((String, KeySet<Code>)) -> bool {
    |e: (String, KeySet<Code>)| e.0@ == s
}

impl State {
    /// The options of the player's game.
    pub closed spec fn slot(&self) -> SlotData {
        self.slot_data
    }

    /// The locations not yet sent.
    pub closed spec fn unsent(&self) -> Set<i64> {
        self.unsent_locations@
    }

    /// The campaigns with a state, in the order they got one.
    pub closed spec fn campaign_names(&self) -> Seq<Seq<char>> {
        self.campaigns@.map_values(|e: (String, CampaignState)| e.0@)
    }

    pub closed spec fn campaign_index(&self, c: Seq<char>) -> int {
        first_where(self.campaigns@, camp_pred(c))
    }

    /// The state of campaign `c`, if it has one.
    pub closed spec fn campaign(&self, c: Seq<char>) -> Option<CampaignState> {
        let i = self.campaign_index(c);
        if i >= 0 { Some(self.campaigns@[i].1) } else { None }
    }

    /// The unlocks received by campaign `c`, with counts, in order.
    pub open spec fn unlock_pairs(&self, c: Seq<char>) -> Seq<(Seq<char>, int)> {
        match self.campaign(c) { Some(cs) => cs.unlocks.pairs(), None => Seq::empty() }
    }

    /// The scenarios unlocked in campaign `c`, in order.
    pub open spec fn scenario_keys(&self, c: Seq<char>) -> Seq<Seq<char>> {
        match self.campaign(c) { Some(cs) => cs.scenarios.keys(), None => Seq::empty() }
    }

    /// The experience received by campaign `c`.
    pub open spec fn xp_of(&self, c: Seq<char>) -> int {
        match self.campaign(c) { Some(cs) => cs.xp as int, None => 0 }
    }

    /// The scenario cards received by campaign `c`, with counts, in order.
    pub open spec fn card_pairs(&self, c: Seq<char>) -> Seq<(Code, int)> {
        match self.campaign(c) { Some(cs) => cs.cards.pairs(), None => Seq::empty() }
    }

    /// The filler received by campaign `c`, with counts, in order.
    pub open spec fn filler_pairs(&self, c: Seq<char>) -> Seq<(Seq<char>, int)> {
        match self.campaign(c) { Some(cs) => cs.filler.pairs(), None => Seq::empty() }
    }

    /// Whether campaign `c` is completed.
    pub open spec fn is_completed(&self, c: Seq<char>) -> bool {
        match self.campaign(c) { Some(cs) => cs.completed, None => false }
    }

    /// How many of unlock `u` campaign `c` holds.
    pub open spec fn unlock_count(&self, c: Seq<char>, u: Seq<char>) -> int {
        count_in(self.unlock_pairs(c), u)
    }

    /// Which unlocks are held.
    pub open spec fn has_fn(&self) -> spec_fn(Seq<char>, Seq<char>) -> bool {
        |c: Seq<char>, u: Seq<char>| self.unlock_count(c, u) > 0
    }

    pub closed spec fn scenario_index(&self, s: Seq<char>) -> int {
        first_where(self.scenarios@, scen_pred(s))
    }

    /// Whether scenario `s` has a set of reachable locations.
    pub open spec fn has_reachable(&self, s: Seq<char>) -> bool {
        self.scenario_index(s) >= 0
    }

    /// The reachable locations of scenario `s`, in order.
    pub closed spec fn reachable_keys(&self, s: Seq<char>) -> Seq<Code> {
        let i = self.scenario_index(s);
        if i >= 0 { self.scenarios@[i].1.keys() } else { Seq::empty() }
    }

    /// The reachable locations of scenario `s`.
    pub open spec fn reachable(&self, s: Seq<char>) -> Set<Code> {
        self.reachable_keys(s).to_set()
    }

    pub closed spec fn wf(&self) -> bool {
        &&& forall|i: int, j: int| 0 <= i < self.campaigns@.len() && 0 <= j < self.campaigns@.len() && i != j
            ==> (#[trigger] self.campaigns@[i]).0@ != (#[trigger] self.campaigns@[j]).0@
        &&& forall|i: int| 0 <= i < self.campaigns@.len() ==> (#[trigger] self.campaigns@[i]).1.wf()
        &&& forall|i: int, j: int| 0 <= i < self.scenarios@.len() && 0 <= j < self.scenarios@.len() && i != j
            ==> (#[trigger] self.scenarios@[i]).0@ != (#[trigger] self.scenarios@[j]).0@
        &&& forall|i: int| 0 <= i < self.scenarios@.len() ==> (#[trigger] self.scenarios@[i]).1.wf()
    }

    proof fn lemma_campaign_wf(&self, c: Seq<char>)
        requires
            self.wf(),
        ensures
            self.campaign(c) matches Some(cs) ==> cs.wf(),
    {
        lemma_first_where(self.campaigns@, camp_pred(c));
    }

    proof fn lemma_reachable_wf(&self, s: Seq<char>)
        requires
            self.wf(),
        ensures
            self.reachable_keys(s).no_duplicates(),
    {
        lemma_first_where(self.scenarios@, scen_pred(s));
    }

    /// Whether campaign `campaign` holds unlock `item`.
    pub fn has(&self, campaign: &str, item: &str) -> (res: bool)
        requires
            self.wf(),
        ensures
            res == (self.unlock_count(campaign@, item@) > 0),
    {
        let ghost p = camp_pred(campaign@);
        let mut i: usize = 0;
        while i < self.campaigns.len()
            invariant
                p == camp_pred(campaign@),
                self.wf(),
                i <= self.campaigns@.len(),
                forall|j: int| 0 <= j < i ==> !p(#[trigger] self.campaigns@[j]),
            decreases self.campaigns@.len() - i,
        {
            if str_eq(self.campaigns[i].0.as_str(), campaign) {
                proof {
                    lemma_first_where_at(self.campaigns@, p, i as int);
                    self.lemma_campaign_wf(campaign@);
                }
                let key = item.to_owned();
                return self.campaigns[i].1.unlocks.get(&key) > 0;
            }
            i = i + 1;
        }
        proof { lemma_first_where_none(self.campaigns@, p); }
        false
    }

    /// Whether rule `t` holds in this state.
    pub fn holds(&self, t: &LogicTerm) -> (res: bool)
        requires
            self.wf(),
        ensures
            res == holds(t@, self.has_fn()),
        decreases t,
    {
        match t {
            LogicTerm::Unlock((c, u)) => self.has(c.as_str(), u.as_str()),
            LogicTerm::Or(terms) => {
                let mut i: usize = 0;
                while i < terms.len()
                    invariant
                        self.wf(),
                        *t == LogicTerm::Or(*terms),
                        i <= terms@.len(),
                        !any_holds(terms_view(terms@.take(i as int)), self.has_fn()),
                    decreases terms@.len() - i,
                {
                    proof { lemma_terms_view_step(terms@, i as int); }
                    assert(decreases_to!(*t => terms@[i as int]));
                    if self.holds(&terms[i]) {
                        proof {
                            assert(any_holds(terms_view(terms@.take(i + 1)), self.has_fn()));
                            lemma_any_holds_prefix(terms@, i as int + 1, self.has_fn());
                        }
                        return true;
                    }
                    i = i + 1;
                }
                assert(terms@.take(terms@.len() as int) =~= terms@);
                false
            },
            LogicTerm::And(terms) => {
                let mut i: usize = 0;
                while i < terms.len()
                    invariant
                        self.wf(),
                        *t == LogicTerm::And(*terms),
                        i <= terms@.len(),
                        all_hold(terms_view(terms@.take(i as int)), self.has_fn()),
                    decreases terms@.len() - i,
                {
                    proof { lemma_terms_view_step(terms@, i as int); }
                    assert(decreases_to!(*t => terms@[i as int]));
                    if !self.holds(&terms[i]) {
                        proof {
                            assert(!all_hold(terms_view(terms@.take(i + 1)), self.has_fn()));
                            lemma_all_hold_prefix(terms@, i as int + 1, self.has_fn());
                        }
                        return false;
                    }
                    i = i + 1;
                }
                assert(terms@.take(terms@.len() as int) =~= terms@);
                true
            },
            LogicTerm::True => true,
        }
    }
}

/// Some scenario listed for `camp` before position `k` is named `s` and exists.
pub open spec fn listed_before(camp: Campaign, data: Tables, k: int, s: Seq<char>) -> bool {
    exists|k2: int| 0 <= k2 < k && (#[trigger] camp.scenarios@[k2])@ == s && data.scenario_index(s) >= 0
}

/// Every set that holds `start` and is closed under `edges` holds the closure.
pub proof fn lemma_closure_is_least(start: Set<Code>, edges: Set<(Code, Code)>)
    ensures
        start.subset_of(closure(start, edges)),
        closed_under(closure(start, edges), edges),
        forall|s: Set<Code>| start.subset_of(s) && #[trigger] closed_under(s, edges) ==> closure(start, edges).subset_of(s),
{
    let c = closure(start, edges);
    assert forall|e: (Code, Code)| #[trigger] edges.contains(e) && c.contains(e.0) implies c.contains(e.1) by {
        assert forall|s: Set<Code>| start.subset_of(s) && #[trigger] closed_under(s, edges) implies s.contains(e.1) by {
            assert(s.contains(e.0));
        }
    }
}

/// Closing again adds nothing.
pub proof fn lemma_closure_idempotent(start: Set<Code>, edges: Set<(Code, Code)>)
    ensures
        closure(closure(start, edges), edges) == closure(start, edges),
{
    let c = closure(start, edges);
    lemma_closure_is_least(start, edges);
    lemma_closure_is_least(c, edges);
    let cc = closure(c, edges);
    assert(cc.subset_of(c));
    assert(c.subset_of(cc));
    assert(cc =~= c);
}

/// The scenarios that receiving an item of campaign `c` recomputes: those
/// listed for the campaign that exist.
pub open spec fn scenario_refreshed(data: Tables, c: Seq<char>, s: Seq<char>) -> bool {
    let ci = data.campaign_index(c);
    &&& ci >= 0
    &&& exists|k: int| 0 <= k < data.campaigns@[ci].scenarios@.len() && (#[trigger] data.campaigns@[ci].scenarios@[k])@ == s
    &&& data.scenario_index(s) >= 0
}

/// Where the reachable locations of scenario `s` grow from: what was
/// reachable, or else its starting locations.
pub open spec fn reach_start(old: State, data: Tables, s: Seq<char>) -> Set<Code> {
    if old.has_reachable(s) {
        old.reachable(s)
    } else {
        data.scenarios@[data.scenario_index(s)].begin@.to_set()
    }
}

/// Which paths of scenario `s` of campaign `c` are open when `has` tells
/// which unlocks are held.
pub open spec fn path_flags(data: Tables, c: Seq<char>, s: Seq<char>, has: spec_fn(Seq<char>, Seq<char>) -> bool) -> Seq<bool> {
    let sc = data.scenarios@[data.scenario_index(s)];
    Seq::new(sc.paths@.len(), |k: int| data.path_open(c, s, sc.paths@[k].from, sc.paths@[k].to, has))
}

/// The reachable locations of scenario `s` after recomputing them.
pub open spec fn refreshed_reach(old: State, data: Tables, c: Seq<char>, s: Seq<char>, has: spec_fn(Seq<char>, Seq<char>) -> bool) -> Set<Code> {
    closure(reach_start(old, data, s), open_edges(data.scenarios@[data.scenario_index(s)].paths@, path_flags(data, c, s, has)))
}

/// Whether receiving the item recomputes reachable locations.
pub open spec fn item_refreshes(item: Item) -> bool {
    item is Unlock || item is ScenarioUnlock || item is ScenarioCard
}

/// The state can count the item without overflow.
pub open spec fn can_receive(st: State, item: Item, data: Tables) -> bool {
    let c = item.campaign();
    match item {
        Item::Unlock((_, u)) => st.unlock_count(c, u@) < i64::MAX,
        Item::ScenarioUnlock(_) => true,
        Item::Xp((_, x)) => i64::MIN <= st.xp_of(c) + x <= i64::MAX,
        Item::ScenarioCard((_, code)) => {
            &&& count_in(st.card_pairs(c), code) < i64::MAX
            &&& data.card_index(code) >= 0 ==> st.unlock_count(c, data.cards@[data.card_index(code)].name@) < i64::MAX
        },
        Item::CampaignFiller((_, f)) => count_in(st.filler_pairs(c), f@) < i64::MAX,
    }
}

/// `new` is `old` after receiving `item`: its campaign counts it, other
/// campaigns and the locations to send stay, and the reachable locations
/// of the campaign's scenarios are recomputed when the item opens paths.
pub open spec fn added(old: State, new: State, item: Item, data: Tables) -> bool {
    &&& new.wf()
    &&& new.unsent() == old.unsent()
    &&& new.slot() == old.slot()
    &&& new.campaign(item.campaign()) is Some
    &&& received(old, new, item, data)
    &&& forall|d: Seq<char>| d != item.campaign() ==> #[trigger] new.campaign(d) == old.campaign(d)
    &&& forall|s: Seq<char>| #[trigger] new.has_reachable(s) == (old.has_reachable(s)
        || (item_refreshes(item) && scenario_refreshed(data, item.campaign(), s)))
    &&& forall|s: Seq<char>| #[trigger] new.reachable(s) == if item_refreshes(item) && scenario_refreshed(data, item.campaign(), s) {
        refreshed_reach(old, data, item.campaign(), s, new.has_fn())
    } else {
        old.reachable(s)
    }
}

/// What receiving the item does to the state of its campaign.
pub open spec fn received(old: State, new: State, item: Item, data: Tables) -> bool {
    let c = item.campaign();
    &&& new.is_completed(c) == old.is_completed(c)
    &&& match item {
        Item::Unlock((_, u)) => {
            &&& new.unlock_pairs(c) == bump(old.unlock_pairs(c), u@)
            &&& new.scenario_keys(c) == old.scenario_keys(c)
            &&& new.xp_of(c) == old.xp_of(c)
            &&& new.card_pairs(c) == old.card_pairs(c)
            &&& new.filler_pairs(c) == old.filler_pairs(c)
        },
        Item::ScenarioUnlock((_, sc)) => {
            &&& new.unlock_pairs(c) == old.unlock_pairs(c)
            &&& new.scenario_keys(c) == if old.scenario_keys(c).contains(sc@) { old.scenario_keys(c) } else { old.scenario_keys(c).push(sc@) }
            &&& new.xp_of(c) == old.xp_of(c)
            &&& new.card_pairs(c) == old.card_pairs(c)
            &&& new.filler_pairs(c) == old.filler_pairs(c)
        },
        Item::Xp((_, x)) => {
            &&& new.unlock_pairs(c) == old.unlock_pairs(c)
            &&& new.scenario_keys(c) == old.scenario_keys(c)
            &&& new.xp_of(c) == old.xp_of(c) + x
            &&& new.card_pairs(c) == old.card_pairs(c)
            &&& new.filler_pairs(c) == old.filler_pairs(c)
        },
        Item::ScenarioCard((_, code)) => {
            &&& new.unlock_pairs(c) == if data.card_index(code) >= 0 {
                bump(old.unlock_pairs(c), data.cards@[data.card_index(code)].name@)
            } else {
                old.unlock_pairs(c)
            }
            &&& new.scenario_keys(c) == old.scenario_keys(c)
            &&& new.xp_of(c) == old.xp_of(c)
            &&& new.card_pairs(c) == bump(old.card_pairs(c), code)
            &&& new.filler_pairs(c) == old.filler_pairs(c)
        },
        Item::CampaignFiller((_, f)) => {
            &&& new.unlock_pairs(c) == old.unlock_pairs(c)
            &&& new.scenario_keys(c) == old.scenario_keys(c)
            &&& new.xp_of(c) == old.xp_of(c)
            &&& new.card_pairs(c) == old.card_pairs(c)
            &&& new.filler_pairs(c) == bump(old.filler_pairs(c), f@)
        },
    }
}

/// Entries whose names are distinct are found at their own index.
proof fn lemma_camp_index_at(s: &State, i: int)
    requires
        s.wf(),
        0 <= i < s.campaigns@.len(),
    ensures
        s.campaign_index(s.campaigns@[i].0@) == i,
        s.campaign(s.campaigns@[i].0@) == Some(s.campaigns@[i].1),
{
    let c = s.campaigns@[i].0@;
    assert forall|j: int| 0 <= j < i implies !camp_pred(c)(#[trigger] s.campaigns@[j]) by {
        assert(s.campaigns@[j].0@ != s.campaigns@[i].0@);
    }
    lemma_first_where_at(s.campaigns@, camp_pred(c), i);
}

/// Filters that agree index by index keep as many elements.
proof fn lemma_filter_len_agree<A, B>(s: Seq<A>, p: spec_fn(A) -> bool, t: Seq<B>, q: spec_fn(B) -> bool)
    requires
        s.len() == t.len(),
        forall|j: int| 0 <= j < s.len() ==> p(#[trigger] s[j]) == q(t[j]),
    ensures
        s.filter(p).len() == t.filter(q).len(),
    decreases s.len(),
{
    reveal(Seq::filter);
    if s.len() > 0 {
        assert forall|j: int| 0 <= j < s.drop_last().len() implies p(#[trigger] s.drop_last()[j]) == q(t.drop_last()[j]) by {
            assert(p(s[j]) == q(t[j]));
        }
        lemma_filter_len_agree(s.drop_last(), p, t.drop_last(), q);
        assert(p(s[s.len() - 1]) == q(t[t.len() - 1]));
    }
}

impl State {
    /// How many campaigns are completed.
    pub open spec fn completed_count(&self) -> nat {
        self.campaign_names().filter(|c: Seq<char>| self.is_completed(c)).len()
    }

    /// The campaigns that have unlocked scenarios, with whether each is
    /// completed, in the order they got a state.
    pub open spec fn campaign_list(&self) -> Seq<(Seq<char>, bool)> {
        self.campaign_names().filter(|c: Seq<char>| self.scenario_keys(c).len() > 0)
            .map_values(|c: Seq<char>| (c, self.is_completed(c)))
    }

    /// A state with these locations unsent, in which each campaign that a
    /// checked location is the goal of is completed.
    pub fn new(missing_locations: &[i64], checked_locations: &[i64], slot_data: SlotData, data: &Tables) -> (res: State)
        ensures
            res.wf(),
            res.unsent() == missing_locations@.to_set(),
            res.slot() == slot_data,
            forall|s: Seq<char>| !(#[trigger] res.has_reachable(s)),
            forall|s: Seq<char>| #[trigger] res.reachable(s) == Set::<Code>::empty(),
            forall|c: Seq<char>, u: Seq<char>| #[trigger] res.unlock_count(c, u) == 0,
            forall|c: Seq<char>| (#[trigger] res.is_completed(c)) <==> exists|j: int| 0 <= j < checked_locations@.len() && data.goal_of(#[trigger] checked_locations@[j]) == Some(c),
            forall|c: Seq<char>| (#[trigger] res.campaign(c) is Some) <==> exists|j: int| 0 <= j < checked_locations@.len() && data.goal_of(#[trigger] checked_locations@[j]) == Some(c),
            forall|c: Seq<char>| #[trigger] res.campaign(c) is Some ==> {
                &&& res.is_completed(c)
                &&& res.unlock_pairs(c).len() == 0
                &&& res.scenario_keys(c).len() == 0
                &&& res.xp_of(c) == 0
                &&& res.card_pairs(c).len() == 0
                &&& res.filler_pairs(c).len() == 0
            },
    {
        let mut unsent: HashSet<i64> = HashSet::new();
        let mut i: usize = 0;
        while i < missing_locations.len()
            invariant
                i <= missing_locations@.len(),
                unsent@ == missing_locations@.take(i as int).to_set(),
            decreases missing_locations@.len() - i,
        {
            unsent.insert(missing_locations[i]);
            proof {
                let t = missing_locations@.take(i as int);
                assert(missing_locations@.take(i + 1) =~= t + seq![missing_locations@[i as int]]);
                Seq::<i64>::lemma_to_set_insert_commutes(t, missing_locations@[i as int]);
            }
            i = i + 1;
        }
        assert(missing_locations@.take(missing_locations@.len() as int) =~= missing_locations@);
        let mut state = State { unsent_locations: unsent, campaigns: Vec::new(), scenarios: Vec::new(), slot_data };
        assert forall|s: Seq<char>| !(#[trigger] state.has_reachable(s)) by {
            lemma_first_where(state.scenarios@, scen_pred(s));
        }
        let mut k: usize = 0;
        while k < checked_locations.len()
            invariant
                state.wf(),
                k <= checked_locations@.len(),
                state.unsent() == missing_locations@.to_set(),
                state.slot_data == slot_data,
                forall|s: Seq<char>| !(#[trigger] state.has_reachable(s)),
                forall|c: Seq<char>| (#[trigger] state.campaign(c) is Some) <==> exists|j: int| 0 <= j < k && data.goal_of(#[trigger] checked_locations@[j]) == Some(c),
                forall|c: Seq<char>| #[trigger] state.campaign(c) is Some ==> {
                    &&& state.is_completed(c)
                    &&& state.unlock_pairs(c).len() == 0
                    &&& state.scenario_keys(c).len() == 0
                    &&& state.xp_of(c) == 0
                    &&& state.card_pairs(c).len() == 0
                    &&& state.filler_pairs(c).len() == 0
                },
            decreases checked_locations@.len() - k,
        {
            let id = checked_locations[k];
            match data.is_goal_location(id) {
                Some(campaign) => {
                    let ghost before = state;
                    let ci = state.campaign_state(campaign.as_str());
                    let ghost mid = state;
                    state.set_completed(ci);
                    proof {
                        assert forall|s: Seq<char>| !(#[trigger] state.has_reachable(s)) by {
                            assert(!before.has_reachable(s));
                        }
                        assert forall|c: Seq<char>| #[trigger] state.campaign(c) is Some implies {
                            &&& state.is_completed(c)
                            &&& state.unlock_pairs(c).len() == 0
                            &&& state.scenario_keys(c).len() == 0
                            &&& state.xp_of(c) == 0
                            &&& state.card_pairs(c).len() == 0
                            &&& state.filler_pairs(c).len() == 0
                        } by {
                            if c != campaign@ {
                                assert(state.campaign(c) == before.campaign(c));
                            } else {
                                assert(mid.campaign(c) == Some(mid.campaigns@[ci as int].1));
                            }
                        }
                        assert forall|c: Seq<char>| (#[trigger] state.campaign(c) is Some) <==> exists|j: int| 0 <= j < k + 1 && data.goal_of(#[trigger] checked_locations@[j]) == Some(c) by {
                            if c != campaign@ {
                                if exists|j: int| 0 <= j < k + 1 && data.goal_of(#[trigger] checked_locations@[j]) == Some(c) {
                                    let j = choose|j: int| 0 <= j < k + 1 && data.goal_of(#[trigger] checked_locations@[j]) == Some(c);
                                    assert(j < k);
                                }
                            } else {
                                assert(data.goal_of(checked_locations@[k as int]) == Some(c));
                            }
                        }
                    }
                },
                None => {
                    proof {
                        assert forall|c: Seq<char>| (#[trigger] state.campaign(c) is Some) <==> exists|j: int| 0 <= j < k + 1 && data.goal_of(#[trigger] checked_locations@[j]) == Some(c) by {
                            if exists|j: int| 0 <= j < k + 1 && data.goal_of(#[trigger] checked_locations@[j]) == Some(c) {
                                let j = choose|j: int| 0 <= j < k + 1 && data.goal_of(#[trigger] checked_locations@[j]) == Some(c);
                                assert(j < k);
                            }
                        }
                    }
                },
            }
            k = k + 1;
        }
        proof {
            assert forall|s: Seq<char>| #[trigger] state.reachable(s) == Set::<Code>::empty() by {
                assert(!state.has_reachable(s));
                assert(state.reachable_keys(s) =~= Seq::<Code>::empty());
                assert(state.reachable(s) =~= Set::<Code>::empty());
            }
            assert forall|c: Seq<char>, u: Seq<char>| #[trigger] state.unlock_count(c, u) == 0 by {
                if state.campaign(c) is Some {
                    assert(state.unlock_pairs(c) =~= Seq::<(Seq<char>, int)>::empty());
                }
            }
            assert forall|c: Seq<char>| (#[trigger] state.is_completed(c)) <==> (state.campaign(c) is Some) by {}
        }
        state
    }

    /// The index of the state of campaign `campaign`, which gets an empty
    /// state first when it has none.
    fn campaign_state(&mut self, campaign: &str) -> (i: usize)
        requires
            old(self).wf(),
        ensures
            final(self).wf(),
            i < final(self).campaigns@.len(),
            final(self).campaigns@[i as int].0@ == campaign@,
            final(self).campaign_index(campaign@) == i,
            final(self).unsent_locations == old(self).unsent_locations,
            final(self).scenarios == old(self).scenarios,
            final(self).slot_data == old(self).slot_data,
            old(self).campaign(campaign@) is Some ==> final(self).campaigns == old(self).campaigns,
            old(self).campaign(campaign@) is None ==> {
                &&& final(self).campaigns@.drop_last() == old(self).campaigns@
                &&& final(self).campaigns@.last().1.wf()
                &&& final(self).campaigns@.last().1.unlocks.pairs().len() == 0
                &&& final(self).campaigns@.last().1.scenarios.keys().len() == 0
                &&& final(self).campaigns@.last().1.xp == 0
                &&& final(self).campaigns@.last().1.cards.pairs().len() == 0
                &&& final(self).campaigns@.last().1.filler.pairs().len() == 0
                &&& !final(self).campaigns@.last().1.completed
            },
            forall|c: Seq<char>| c != campaign@ ==> #[trigger] final(self).campaign(c) == old(self).campaign(c),
            final(self).campaign(campaign@) == Some(final(self).campaigns@[i as int].1),
            final(self).unlock_pairs(campaign@) == old(self).unlock_pairs(campaign@),
            final(self).scenario_keys(campaign@) == old(self).scenario_keys(campaign@),
            final(self).xp_of(campaign@) == old(self).xp_of(campaign@),
            final(self).card_pairs(campaign@) == old(self).card_pairs(campaign@),
            final(self).filler_pairs(campaign@) == old(self).filler_pairs(campaign@),
            final(self).is_completed(campaign@) == old(self).is_completed(campaign@),
    {
        let ghost p = camp_pred(campaign@);
        let mut i: usize = 0;
        while i < self.campaigns.len()
            invariant
                self.wf(),
                *self == *old(self),
                p == camp_pred(campaign@),
                i <= self.campaigns@.len(),
                forall|j: int| 0 <= j < i ==> !p(#[trigger] self.campaigns@[j]),
            decreases self.campaigns@.len() - i,
        {
            if str_eq(self.campaigns[i].0.as_str(), campaign) {
                proof {
                    lemma_first_where_at(self.campaigns@, p, i as int);
                    lemma_camp_index_at(self, i as int);
                }
                return i;
            }
            i = i + 1;
        }
        proof { lemma_first_where_none(self.campaigns@, p); }
        let ghost old_c = self.campaigns@;
        let entry = (campaign.to_owned(), CampaignState::new());
        self.campaigns.push(entry);
        proof {
            assert(self.campaigns@ == old_c.push(entry));
            assert(self.campaigns@.drop_last() =~= old_c);
            lemma_first_where_push(old_c, p, entry);
            assert forall|c: Seq<char>| c != campaign@ implies #[trigger] self.campaign(c) == old(self).campaign(c) by {
                lemma_first_where_push(old_c, camp_pred(c), entry);
                lemma_first_where(old_c, camp_pred(c));
            }
            assert forall|a: int, b: int| 0 <= a < self.campaigns@.len() && 0 <= b < self.campaigns@.len() && a != b
                implies (#[trigger] self.campaigns@[a]).0@ != (#[trigger] self.campaigns@[b]).0@ by {
                if a == old_c.len() {
                    assert(!p(old_c[b]));
                } else if b == old_c.len() {
                    assert(!p(old_c[a]));
                }
            }
            assert forall|j: int| 0 <= j < self.campaigns@.len() implies (#[trigger] self.campaigns@[j]).1.wf() by {
                if j < old_c.len() {
                    assert(old_c[j].1.wf());
                }
            }
            lemma_camp_index_at(self, i as int);
        }
        i
    }

    /// Replaces the state of the campaign at index `i`; the state of every
    /// other campaign is kept.
    proof fn lemma_replace_campaign(old_s: &State, new_s: &State, i: int)
        requires
            old_s.wf(),
            0 <= i < old_s.campaigns@.len(),
            new_s.campaigns@.len() == old_s.campaigns@.len(),
            new_s.campaigns@[i].0 == old_s.campaigns@[i].0,
            new_s.campaigns@[i].1.wf(),
            forall|j: int| 0 <= j < old_s.campaigns@.len() && j != i ==> new_s.campaigns@[j] == old_s.campaigns@[j],
            new_s.scenarios == old_s.scenarios,
        ensures
            new_s.wf(),
            new_s.campaign_names() == old_s.campaign_names(),
            new_s.campaign(old_s.campaigns@[i].0@) == Some(new_s.campaigns@[i].1),
            forall|c: Seq<char>| c != old_s.campaigns@[i].0@ ==> #[trigger] new_s.campaign(c) == old_s.campaign(c),
    {
        assert forall|a: int, b: int| 0 <= a < new_s.campaigns@.len() && 0 <= b < new_s.campaigns@.len() && a != b
            implies (#[trigger] new_s.campaigns@[a]).0@ != (#[trigger] new_s.campaigns@[b]).0@ by {
            assert(new_s.campaigns@[a].0 == old_s.campaigns@[a].0);
            assert(new_s.campaigns@[b].0 == old_s.campaigns@[b].0);
        }
        assert forall|j: int| 0 <= j < new_s.campaigns@.len() implies (#[trigger] new_s.campaigns@[j]).1.wf() by {
            if j != i {
                assert(old_s.campaigns@[j].1.wf());
            }
        }
        assert(new_s.campaign_names() =~= old_s.campaign_names()) by {
            assert forall|j: int| 0 <= j < new_s.campaigns@.len() implies new_s.campaign_names()[j] == old_s.campaign_names()[j] by {
                assert(new_s.campaigns@[j].0 == old_s.campaigns@[j].0);
            }
        }
        lemma_camp_index_at(new_s, i);
        assert forall|c: Seq<char>| c != old_s.campaigns@[i].0@ implies #[trigger] new_s.campaign(c) == old_s.campaign(c) by {
            assert forall|j: int| 0 <= j < new_s.campaigns@.len() implies camp_pred(c)(#[trigger] new_s.campaigns@[j]) == camp_pred(c)(old_s.campaigns@[j]) by {
                assert(new_s.campaigns@[j].0 == old_s.campaigns@[j].0);
            }
            lemma_first_where_same(new_s.campaigns@, camp_pred(c), old_s.campaigns@, camp_pred(c));
            lemma_first_where(old_s.campaigns@, camp_pred(c));
            let k = old_s.campaign_index(c);
            if k >= 0 {
                assert(k != i);
            }
        }
    }

    fn set_completed(&mut self, i: usize)
        requires
            old(self).wf(),
            i < old(self).campaigns@.len(),
        ensures
            final(self).wf(),
            final(self).unsent() == old(self).unsent(),
            final(self).slot_data == old(self).slot_data,
            final(self).scenarios == old(self).scenarios,
            final(self).campaign_names() == old(self).campaign_names(),
            ({
                let c = old(self).campaigns@[i as int].0@;
                let o = old(self).campaigns@[i as int].1;
                &&& final(self).campaign(c) matches Some(n)
                &&& n.completed
                &&& n.unlocks == o.unlocks && n.scenarios == o.scenarios && n.xp == o.xp && n.cards == o.cards && n.filler == o.filler
                &&& forall|d: Seq<char>| d != c ==> #[trigger] final(self).campaign(d) == old(self).campaign(d)
            }),
    {
        let ghost before = *self;
        proof { assert(self.campaigns@[i as int].1.wf()); }
        let entry = &mut self.campaigns[i];
        entry.1.completed = true;
        proof { Self::lemma_replace_campaign(&before, self, i as int); }
    }

    /// `new` is `old` where campaign `c` has a state, now possibly an empty one.
    pub open spec fn touched(old: State, new: State, c: Seq<char>) -> bool {
        &&& new.wf()
        &&& new.unsent() == old.unsent()
        &&& new.slot() == old.slot()
        &&& forall|s: Seq<char>| #[trigger] new.reachable(s) == old.reachable(s) && new.has_reachable(s) == old.has_reachable(s)
        &&& new.campaign(c) is Some
        &&& new.unlock_pairs(c) == old.unlock_pairs(c)
        &&& new.scenario_keys(c) == old.scenario_keys(c)
        &&& new.xp_of(c) == old.xp_of(c)
        &&& new.card_pairs(c) == old.card_pairs(c)
        &&& new.filler_pairs(c) == old.filler_pairs(c)
        &&& new.is_completed(c) == old.is_completed(c)
        &&& forall|d: Seq<char>| d != c ==> #[trigger] new.campaign(d) == old.campaign(d)
    }

    /// The scenarios unlocked in campaign `campaign` (which gets an empty
    /// state when it has none).
    pub fn scenarios(&mut self, campaign: &str) -> (res: Vec<String>)
        requires
            old(self).wf(),
        ensures
            Self::touched(*old(self), *final(self), campaign@),
            res@.map_values(|e: String| e@) == old(self).scenario_keys(campaign@),
    {
        let i = self.campaign_state(campaign);
        proof { assert(self.campaigns@[i as int].1.wf()); }
        self.campaigns[i].1.scenarios.to_vec()
    }

    /// The scenario cards received by campaign `campaign`, with counts
    /// (the campaign gets an empty state when it has none).
    pub fn cards(&mut self, campaign: &str) -> (res: Vec<(Code, i64)>)
        requires
            old(self).wf(),
        ensures
            Self::touched(*old(self), *final(self), campaign@),
            res@.map_values(|e: (Code, i64)| (e.0@, e.1 as int)) == old(self).card_pairs(campaign@),
    {
        let i = self.campaign_state(campaign);
        self.campaigns[i].1.cards.to_vec()
    }

    /// The filler received by campaign `campaign`, with counts (the
    /// campaign gets an empty state when it has none).
    pub fn filler(&mut self, campaign: &str) -> (res: Vec<(String, i64)>)
        requires
            old(self).wf(),
        ensures
            Self::touched(*old(self), *final(self), campaign@),
            res@.map_values(|e: (String, i64)| (e.0@, e.1 as int)) == old(self).filler_pairs(campaign@),
    {
        let i = self.campaign_state(campaign);
        self.campaigns[i].1.filler.to_vec()
    }

    /// The experience received by campaign `campaign`.
    pub fn xp(&self, campaign: &str) -> (res: i64)
        requires
            self.wf(),
        ensures
            res == self.xp_of(campaign@),
    {
        let ghost p = camp_pred(campaign@);
        let mut i: usize = 0;
        while i < self.campaigns.len()
            invariant
                p == camp_pred(campaign@),
                i <= self.campaigns@.len(),
                forall|j: int| 0 <= j < i ==> !p(#[trigger] self.campaigns@[j]),
            decreases self.campaigns@.len() - i,
        {
            if str_eq(self.campaigns[i].0.as_str(), campaign) {
                proof { lemma_first_where_at(self.campaigns@, p, i as int); }
                return self.campaigns[i].1.xp;
            }
            i = i + 1;
        }
        proof { lemma_first_where_none(self.campaigns@, p); }
        0
    }

    /// The campaigns that have unlocked scenarios, with whether each is completed.
    pub fn campaigns(&self) -> (res: Vec<(String, bool)>)
        requires
            self.wf(),
        ensures
            res@.map_values(|e: (String, bool)| (e.0@, e.1)) == self.campaign_list(),
    {
        let ghost names = self.campaign_names();
        let ghost pred = |c: Seq<char>| self.scenario_keys(c).len() > 0;
        let ghost f = |c: Seq<char>| (c, self.is_completed(c));
        let mut res: Vec<(String, bool)> = Vec::new();
        let mut i: usize = 0;
        while i < self.campaigns.len()
            invariant
                self.wf(),
                names == self.campaign_names(),
                pred == (|c: Seq<char>| self.scenario_keys(c).len() > 0),
                f == (|c: Seq<char>| (c, self.is_completed(c))),
                i <= self.campaigns@.len(),
                res@.map_values(|e: (String, bool)| (e.0@, e.1)) == names.take(i as int).filter(pred).map_values(f),
            decreases self.campaigns@.len() - i,
        {
            proof {
                reveal(Seq::filter);
                lemma_camp_index_at(self, i as int);
                assert(names.take(i + 1).drop_last() =~= names.take(i as int));
                assert(names[i as int] == self.campaigns@[i as int].0@);
                assert(self.campaigns@[i as int].1.wf());
            }
            let ghost before = res@;
            if self.campaigns[i].1.scenarios.len() > 0 {
                let name = self.campaigns[i].0.clone();
                res.push((name, self.campaigns[i].1.completed));
                assert(pred(names[i as int]));
                assert(names.take(i + 1).last() == names[i as int]);
                assert(names.take(i + 1).filter(pred) == names.take(i as int).filter(pred).push(names[i as int]));
                assert(f(names[i as int]) == (name@, self.campaigns@[i as int].1.completed));
                assert(res@.map_values(|e: (String, bool)| (e.0@, e.1)) =~= before.map_values(|e: (String, bool)| (e.0@, e.1)).push(f(names[i as int])));
                assert(res@.map_values(|e: (String, bool)| (e.0@, e.1)) =~= names.take(i + 1).filter(pred).map_values(f));
            } else {
                assert(res@.map_values(|e: (String, bool)| (e.0@, e.1)) =~= names.take(i + 1).filter(pred).map_values(f));
            }
            i = i + 1;
        }
        assert(names.take(self.campaigns@.len() as int) =~= names);
        res
    }

    /// How many campaigns are completed.
    pub fn completed_campaigns(&self) -> (res: usize)
        requires
            self.wf(),
        ensures
            res == self.completed_count(),
    {
        let ghost q = |e: (String, CampaignState)| e.1.completed;
        let mut n: usize = 0;
        let mut i: usize = 0;
        while i < self.campaigns.len()
            invariant
                q == (|e: (String, CampaignState)| e.1.completed),
                i <= self.campaigns@.len(),
                n == self.campaigns@.take(i as int).filter(q).len(),
                n <= i,
            decreases self.campaigns@.len() - i,
        {
            proof {
                reveal(Seq::filter);
                assert(self.campaigns@.take(i + 1).drop_last() =~= self.campaigns@.take(i as int));
            }
            if self.campaigns[i].1.completed {
                n = n + 1;
            }
            i = i + 1;
        }
        proof {
            assert(self.campaigns@.take(self.campaigns@.len() as int) =~= self.campaigns@);
            assert forall|j: int| 0 <= j < self.campaign_names().len() implies
                (|c: Seq<char>| self.is_completed(c))(#[trigger] self.campaign_names()[j]) == q(self.campaigns@[j]) by {
                lemma_camp_index_at(self, j);
            }
            lemma_filter_len_agree(self.campaign_names(), |c: Seq<char>| self.is_completed(c), self.campaigns@, q);
        }
        n
    }

    /// Completed campaigns, and how many are required.
    pub fn goal_progress(&self) -> (res: (usize, usize))
        requires
            self.wf(),
        ensures
            res.0 == self.completed_count(),
            res.1 == self.slot().required_campaigns,
    {
        (self.completed_campaigns(), self.slot_data.required_campaigns)
    }

    /// Sends location `location`; when it is the goal of a campaign, that
    /// campaign is completed.
    pub fn mark_sent(&mut self, location: i64, data: &Tables)
        requires
            old(self).wf(),
        ensures
            marked(*old(self), *final(self), location, *data),
    {
        self.unsent_locations.remove(&location);
        assert(self.unsent() =~= old(self).unsent().remove(location));
        match data.is_goal_location(location) {
            Some(campaign) => {
                self.complete_campaign(campaign.as_str());
            },
            None => {},
        }
    }

    /// The reachable locations of scenario `scenario`.
    pub fn reachable_locations(&self, scenario: &str) -> (res: Vec<Code>)
        requires
            self.wf(),
        ensures
            res@ == self.reachable_keys(scenario@),
            res@.to_set() == self.reachable(scenario@),
            res@.no_duplicates(),
    {
        proof { self.lemma_reachable_wf(scenario@); }
        match self.scenario_entry(scenario) {
            Some(j) => {
                let v = self.scenarios[j].1.to_vec();
                assert(v@ =~= v@.map_values(|e: Code| e@));
                v
            },
            None => {
                let v: Vec<Code> = Vec::new();
                assert(v@.to_set() =~= Set::<Code>::empty());
                v
            },
        }
    }

    /// The checks of scenario `scenario` whose rule holds, in order, when
    /// the scenario exists.
    pub fn reachable_checks<'a>(&self, scenario: &str, data: &'a Tables) -> (res: Option<Vec<&'a Check>>)
        requires
            self.wf(),
            data.checks_have_ids(),
        ensures
            data.scenario_index(scenario@) < 0 ==> res is None,
            data.scenario_index(scenario@) >= 0 ==> (res matches Some(v) && v@.map_values(|c: &Check| *c)
                == data.scenarios@[data.scenario_index(scenario@)].checks@.filter(check_open(*data, self.has_fn()))),
    {
        match data.get_scenario(scenario) {
            None => None,
            Some(sc) => {
                let ghost checks = sc.checks@;
                let ghost pred = check_open(*data, self.has_fn());
                let mut res: Vec<&'a Check> = Vec::new();
                let mut i: usize = 0;
                while i < sc.checks.len()
                    invariant
                        self.wf(),
                        checks == sc.checks@,
                        data.scenario_index(scenario@) >= 0,
                        *sc == data.scenarios@[data.scenario_index(scenario@)],
                        data.checks_have_ids(),
                        pred == check_open(*data, self.has_fn()),
                        i <= checks.len(),
                        res@.map_values(|c: &Check| *c) == checks.take(i as int).filter(pred),
                    decreases checks.len() - i,
                {
                    proof {
                        reveal(Seq::filter);
                        assert(checks.take(i + 1).drop_last() =~= checks.take(i as int));
                        lemma_first_where(data.scenarios@, crate::client::data::scenario_pred(scenario@));
                        let si = data.scenario_index(scenario@);
                        assert(data.scenarios@[si].checks@[i as int].ids@.len() > 0);
                    }
                    let check = &sc.checks[i];
                    let ghost before = res@;
                    if data.can_send_location(check.ids[0], self) {
                        res.push(check);
                        assert(res@.map_values(|c: &Check| *c) =~= before.map_values(|c: &Check| *c).push(checks[i as int]));
                    }
                    i = i + 1;
                }
                assert(checks.take(checks.len() as int) =~= checks);
                Some(res)
            },
        }
    }

    fn scenario_entry(&self, scenario: &str) -> (res: Option<usize>)
        ensures
            match res {
                Some(j) => j == self.scenario_index(scenario@) && j < self.scenarios@.len(),
                None => self.scenario_index(scenario@) < 0,
            },
    {
        let ghost p = scen_pred(scenario@);
        let mut i: usize = 0;
        while i < self.scenarios.len()
            invariant
                p == scen_pred(scenario@),
                i <= self.scenarios@.len(),
                forall|j: int| 0 <= j < i ==> !p(#[trigger] self.scenarios@[j]),
            decreases self.scenarios@.len() - i,
        {
            if str_eq(self.scenarios[i].0.as_str(), scenario) {
                proof { lemma_first_where_at(self.scenarios@, p, i as int); }
                return Some(i);
            }
            i = i + 1;
        }
        proof { lemma_first_where_none(self.scenarios@, p); }
        None
    }

    /// Receives an item: its campaign counts it, and when it is an unlock,
    /// a scenario or a scenario card, the locations that each scenario of
    /// the campaign can reach are recomputed.
    pub fn add_item(&mut self, item: Item, data: &Tables)
        requires
            old(self).wf(),
            can_receive(*old(self), item, *data),
        ensures
            final(self).wf(),
            final(self).unsent() == old(self).unsent(),
            final(self).slot() == old(self).slot(),
            final(self).campaign(item.campaign()) is Some,
            received(*old(self), *final(self), item, *data),
            forall|d: Seq<char>| d != item.campaign() ==> #[trigger] final(self).campaign(d) == old(self).campaign(d),
            forall|s: Seq<char>| #[trigger] final(self).has_reachable(s) == (old(self).has_reachable(s)
                || (item_refreshes(item) && scenario_refreshed(*data, item.campaign(), s))),
            forall|s: Seq<char>| #[trigger] final(self).reachable(s) == if item_refreshes(item) && scenario_refreshed(*data, item.campaign(), s) {
                refreshed_reach(*old(self), *data, item.campaign(), s, final(self).has_fn())
            } else {
                old(self).reachable(s)
            },
            added(*old(self), *final(self), item, *data),
    {
        let ghost c = item.campaign();
        let ghost it = item;
        let (campaign, free) = item.split();
        assert(campaign@ == c);
        let i = self.campaign_state(campaign.as_str());
        let ghost at_entry = *self;
        proof { assert(self.campaigns@[i as int].1.wf()); }
        let mut entry = (String::new(), CampaignState::new());
        self.campaigns.set_and_swap(i, &mut entry);
        let update: bool;
        match free {
            CampaignFreeItem::Unlock(unlock) => {
                entry.1.unlocks.increment(unlock);
                update = true;
            },
            CampaignFreeItem::ScenarioUnlock(scenario) => {
                entry.1.scenarios.insert(scenario);
                update = true;
            },
            CampaignFreeItem::Xp(xp) => {
                entry.1.xp = entry.1.xp + xp;
                update = false;
            },
            CampaignFreeItem::ScenarioCard(code) => {
                entry.1.cards.increment(code);
                match data.get_card(code) {
                    Some(card) => {
                        entry.1.unlocks.increment(card.name.clone());
                    },
                    None => {},
                }
                update = true;
            },
            CampaignFreeItem::CampaignFiller(filler) => {
                entry.1.filler.increment(filler);
                update = false;
            },
        }
        self.campaigns.set_and_swap(i, &mut entry);
        proof {
            Self::lemma_replace_campaign(&at_entry, self, i as int);
            assert(at_entry.campaign(c) == Some(at_entry.campaigns@[i as int].1));
        }
        assert(update == item_refreshes(it));
        let ghost mid = *self;
        assert(received(*old(self), mid, it, *data));
        if update {
            match data.get_campaign(campaign.as_str()) {
                Some(camp) => {
                    proof {
                        lemma_first_where(data.campaigns@, crate::client::data::campaign_pred(c));
                        assert(camp.name@ == c);
                    }
                    self.refresh_campaign(camp, data);
                    proof {
                        assert forall|d: Seq<char>| #[trigger] self.campaign(d) == mid.campaign(d) by {
                            assert(self.campaigns == mid.campaigns);
                        }
                        assert(self.has_fn() =~= mid.has_fn());
                    }
                },
                None => {},
            }
        }
        proof {
            assert forall|d: Seq<char>| d != c implies #[trigger] self.campaign(d) == old(self).campaign(d) by {
                assert(self.campaign(d) == mid.campaign(d));
                assert(mid.campaign(d) == at_entry.campaign(d));
            }
        }
    }

    /// Recomputes the reachable locations of every listed scenario of `camp`.
    fn refresh_campaign(&mut self, camp: &Campaign, data: &Tables)
        requires
            old(self).wf(),
            data.campaign_index(camp.name@) >= 0,
            data.campaigns@[data.campaign_index(camp.name@)] == *camp,
        ensures
            final(self).wf(),
            final(self).campaigns == old(self).campaigns,
            final(self).unsent_locations == old(self).unsent_locations,
            final(self).slot_data == old(self).slot_data,
            forall|s: Seq<char>| #[trigger] final(self).has_reachable(s) == (old(self).has_reachable(s) || scenario_refreshed(*data, camp.name@, s)),
            forall|s: Seq<char>| #[trigger] final(self).reachable(s) == if scenario_refreshed(*data, camp.name@, s) {
                refreshed_reach(*old(self), *data, camp.name@, s, old(self).has_fn())
            } else {
                old(self).reachable(s)
            },
    {
        let ghost c = camp.name@;
        let ghost st0 = *old(self);
        let mut k: usize = 0;
        while k < camp.scenarios.len()
            invariant
                self.wf(),
                st0 == *old(self),
                self.campaigns == st0.campaigns,
                self.unsent_locations == st0.unsent_locations,
                self.slot_data == st0.slot_data,
                c == camp.name@,
                data.campaign_index(c) >= 0,
                data.campaigns@[data.campaign_index(c)] == *camp,
                k <= camp.scenarios@.len(),
                forall|s: Seq<char>| #[trigger] self.has_reachable(s) == (st0.has_reachable(s) || listed_before(*camp, *data, k as int, s)),
                forall|s: Seq<char>| #[trigger] self.reachable(s) == if listed_before(*camp, *data, k as int, s) {
                    refreshed_reach(st0, *data, c, s, st0.has_fn())
                } else {
                    st0.reachable(s)
                },
            decreases camp.scenarios@.len() - k,
        {
            let name = &camp.scenarios[k];
            assert(self.has_fn() =~= st0.has_fn());
            match data.get_scenario(name.as_str()) {
                None => {
                    assert forall|s: Seq<char>| listed_before(*camp, *data, k + 1, s)
                        == listed_before(*camp, *data, k as int, s) by {
                        if listed_before(*camp, *data, k + 1, s) {
                            let k2 = choose|k2: int| 0 <= k2 < k + 1 && (#[trigger] camp.scenarios@[k2])@ == s && data.scenario_index(s) >= 0;
                            assert(k2 != k);
                        }
                    }
                    assert forall|s: Seq<char>| #[trigger] listed_before(*camp, *data, k + 1, s) == listed_before(*camp, *data, k as int, s) by {
                        if listed_before(*camp, *data, k + 1, s) {
                            let k2 = choose|k2: int| 0 <= k2 < k + 1 && (#[trigger] camp.scenarios@[k2])@ == s && data.scenario_index(s) >= 0;
                            assert(k2 != k);
                        }
                    }
                },
                Some(sc) => {
                    let ghost n = name@;
                    proof {
                        lemma_first_where(data.scenarios@, crate::client::data::scenario_pred(n));
                    }
                    assert(sc.name@ == n);
                    let mut open: Vec<bool> = Vec::new();
                    let mut j: usize = 0;
                    while j < sc.paths.len()
                        invariant
                            self.wf(),
                            self.has_fn() =~= st0.has_fn(),
                            c == camp.name@,
                            data.scenario_index(n) >= 0,
                            *sc == data.scenarios@[data.scenario_index(n)],
                            sc.name@ == n,
                            j <= sc.paths@.len(),
                            open@ == path_flags(*data, c, n, st0.has_fn()).take(j as int),
                        decreases sc.paths@.len() - j,
                    {
                        let p = sc.paths[j];
                        let b = data.can_follow_path(camp.name.as_str(), sc.name.as_str(), p.from, p.to, self);
                        open.push(b);
                        assert(open@ =~= path_flags(*data, c, n, st0.has_fn()).take(j + 1));
                        j = j + 1;
                    }
                    assert(open@ =~= path_flags(*data, c, n, st0.has_fn()));
                    let mut reach = self.start_set(sc.name.as_str(), &sc.begin);
                    let ghost start = reach.set();
                    close_reachable(&mut reach, &sc.paths, &open);
                    let ghost before = *self;
                    self.store_reachable(sc.name.clone(), reach);
                    proof {
                        let edges = open_edges(sc.paths@, open@);
                        let seen = listed_before(*camp, *data, k as int, n);
                        if seen {
                            assert(before.has_reachable(n));
                            lemma_closure_idempotent(reach_start(st0, *data, n), edges);
                        } else {
                            assert(before.has_reachable(n) == st0.has_reachable(n));
                        }
                        assert(camp.scenarios@[k as int]@ == n);
                        assert forall|s: Seq<char>| #[trigger] self.has_reachable(s) == (st0.has_reachable(s) || listed_before(*camp, *data, k + 1, s)) by {
                            if s != n {
                                if listed_before(*camp, *data, k + 1, s) {
                                    let k2 = choose|k2: int| 0 <= k2 < k + 1 && (#[trigger] camp.scenarios@[k2])@ == s && data.scenario_index(s) >= 0;
                                    assert(k2 != k);
                                }
                                assert(listed_before(*camp, *data, k + 1, s) == listed_before(*camp, *data, k as int, s));
                            }
                        }
                        assert forall|s: Seq<char>| #[trigger] self.reachable(s) == if listed_before(*camp, *data, k + 1, s) {
                            refreshed_reach(st0, *data, c, s, st0.has_fn())
                        } else {
                            st0.reachable(s)
                        } by {
                            if s != n {
                                if listed_before(*camp, *data, k + 1, s) {
                                    let k2 = choose|k2: int| 0 <= k2 < k + 1 && (#[trigger] camp.scenarios@[k2])@ == s && data.scenario_index(s) >= 0;
                                    assert(k2 != k);
                                }
                                assert(listed_before(*camp, *data, k + 1, s) == listed_before(*camp, *data, k as int, s));
                            }
                        }
                    }
                },
            }
            k = k + 1;
        }
        assert forall|s: Seq<char>| #[trigger] listed_before(*camp, *data, camp.scenarios@.len() as int, s)
            == scenario_refreshed(*data, c, s) by {}
    }

    /// A copy of the reachable locations of `scenario`, or else its starting locations.
    fn start_set(&self, scenario: &str, begin: &Vec<Code>) -> (res: KeySet<Code>)
        requires
            self.wf(),
        ensures
            res.wf(),
            res.set() == if self.has_reachable(scenario@) { self.reachable(scenario@) } else { begin@.to_set() },
    {
        let mut res: KeySet<Code> = KeySet::new();
        let ghost src: Seq<Code>;
        let v: Vec<Code> = match self.scenario_entry(scenario) {
            Some(j) => {
                proof { self.lemma_reachable_wf(scenario@); }
                let v = self.scenarios[j].1.to_vec();
                assert(v@ =~= v@.map_values(|e: Code| e@));
                v
            },
            None => {
                let mut v: Vec<Code> = Vec::new();
                let mut i: usize = 0;
                while i < begin.len()
                    invariant
                        i <= begin@.len(),
                        v@ == begin@.take(i as int),
                    decreases begin@.len() - i,
                {
                    v.push(begin[i]);
                    assert(v@ =~= begin@.take(i + 1));
                    i = i + 1;
                }
                assert(begin@.take(begin@.len() as int) =~= begin@);
                v
            },
        };
        let mut i: usize = 0;
        while i < v.len()
            invariant
                res.wf(),
                i <= v@.len(),
                res.set() == v@.take(i as int).to_set(),
            decreases v@.len() - i,
        {
            let ghost before = res.keys();
            res.insert(v[i]);
            proof {
                let t = v@.take(i as int);
                assert(v@.take(i + 1) =~= t + seq![v@[i as int]]);
                Seq::<Code>::lemma_to_set_insert_commutes(t, v@[i as int]);
                if before.contains(v@[i as int]) {
                    assert(res.set() =~= res.set().insert(v@[i as int]));
                } else {
                    assert(before + seq![v@[i as int]] =~= before.push(v@[i as int]));
                    Seq::<Code>::lemma_to_set_insert_commutes(before, v@[i as int]);
                }
            }
            i = i + 1;
        }
        assert(v@.take(v@.len() as int) =~= v@);
        res
    }

    /// Sets the reachable locations of `scenario`.
    fn store_reachable(&mut self, scenario: String, reach: KeySet<Code>)
        requires
            old(self).wf(),
            reach.wf(),
        ensures
            final(self).wf(),
            final(self).campaigns == old(self).campaigns,
            final(self).unsent_locations == old(self).unsent_locations,
            final(self).slot_data == old(self).slot_data,
            final(self).has_reachable(scenario@),
            final(self).reachable(scenario@) == reach.set(),
            forall|s: Seq<char>| s != scenario@ ==> #[trigger] final(self).has_reachable(s) == old(self).has_reachable(s),
            forall|s: Seq<char>| s != scenario@ ==> #[trigger] final(self).reachable(s) == old(self).reachable(s),
    {
        let ghost n = scenario@;
        let ghost old_s = self.scenarios@;
        match self.scenario_entry(scenario.as_str()) {
            Some(j) => {
                let mut entry = (scenario, reach);
                let ghost e = entry;
                self.scenarios.set_and_swap(j, &mut entry);
                proof {
                    assert(self.scenarios@ == old_s.update(j as int, e));
                    assert(old_s[j as int].0@ == n) by { lemma_first_where(old_s, scen_pred(n)); }
                    assert forall|a: int, b: int| 0 <= a < self.scenarios@.len() && 0 <= b < self.scenarios@.len() && a != b
                        implies (#[trigger] self.scenarios@[a]).0@ != (#[trigger] self.scenarios@[b]).0@ by {
                        assert(self.scenarios@[a].0@ == old_s[a].0@);
                        assert(self.scenarios@[b].0@ == old_s[b].0@);
                    }
                    assert forall|a: int| 0 <= a < self.scenarios@.len() implies (#[trigger] self.scenarios@[a]).1.wf() by {
                        if a != j {
                            assert(old_s[a].1.wf());
                        }
                    }
                    assert forall|s: Seq<char>| true implies #[trigger] self.scenario_index(s) == old(self).scenario_index(s) by {
                        assert forall|a: int| 0 <= a < self.scenarios@.len() implies scen_pred(s)(#[trigger] self.scenarios@[a]) == scen_pred(s)(old_s[a]) by {
                            assert(self.scenarios@[a].0@ == old_s[a].0@);
                        }
                        lemma_first_where_same(self.scenarios@, scen_pred(s), old_s, scen_pred(s));
                    }
                    assert forall|s: Seq<char>| s != n implies (#[trigger] self.reachable(s) == old(self).reachable(s) && self.has_reachable(s) == old(self).has_reachable(s)) by {
                        lemma_first_where(old_s, scen_pred(s));
                        assert(self.scenario_index(s) == old(self).scenario_index(s));
                        let x = old(self).scenario_index(s);
                        if x >= 0 {
                            assert(x != j);
                        }
                    }
                    assert(self.scenario_index(n) == old(self).scenario_index(n));
                    assert forall|s: Seq<char>| s != n implies #[trigger] self.has_reachable(s) == old(self).has_reachable(s) by {
                        assert(self.reachable(s) == old(self).reachable(s));
                    }
                }
            },
            None => {
                proof { lemma_first_where(old_s, scen_pred(n)); }
                let entry = (scenario, reach);
                self.scenarios.push(entry);
                proof {
                    assert(self.scenarios@ == old_s.push(entry));
                    lemma_first_where_push(old_s, scen_pred(n), entry);
                    assert forall|a: int, b: int| 0 <= a < self.scenarios@.len() && 0 <= b < self.scenarios@.len() && a != b
                        implies (#[trigger] self.scenarios@[a]).0@ != (#[trigger] self.scenarios@[b]).0@ by {
                        if a == old_s.len() {
                            assert(!scen_pred(n)(old_s[b]));
                        } else if b == old_s.len() {
                            assert(!scen_pred(n)(old_s[a]));
                        }
                    }
                    assert forall|a: int| 0 <= a < self.scenarios@.len() implies (#[trigger] self.scenarios@[a]).1.wf() by {
                        if a < old_s.len() {
                            assert(old_s[a].1.wf());
                        }
                    }
                    assert forall|s: Seq<char>| s != n implies (#[trigger] self.reachable(s) == old(self).reachable(s) && self.has_reachable(s) == old(self).has_reachable(s)) by {
                        assert(entry.0@ == n);
                        assert(!scen_pred(s)(entry));
                        lemma_first_where_push(old_s, scen_pred(s), entry);
                        lemma_first_where(old_s, scen_pred(s));
                        assert(self.scenario_index(s) == old(self).scenario_index(s) || (self.scenario_index(s) < 0 && old(self).scenario_index(s) < 0));
                    }
                    assert forall|s: Seq<char>| s != n implies #[trigger] self.has_reachable(s) == old(self).has_reachable(s) by {
                        assert(self.reachable(s) == old(self).reachable(s));
                    }
                }
            },
        }
    }

    fn find_campaign(&self, campaign: &str) -> (res: Option<usize>)
        requires
            self.wf(),
        ensures
            match res {
                Some(i) => i == self.campaign_index(campaign@) && i < self.campaigns@.len()
                    && self.campaign(campaign@) == Some(self.campaigns@[i as int].1) && self.campaigns@[i as int].1.wf(),
                None => self.campaign(campaign@) is None,
            },
    {
        let ghost p = camp_pred(campaign@);
        let mut i: usize = 0;
        while i < self.campaigns.len()
            invariant
                p == camp_pred(campaign@),
                self.wf(),
                i <= self.campaigns@.len(),
                forall|j: int| 0 <= j < i ==> !p(#[trigger] self.campaigns@[j]),
            decreases self.campaigns@.len() - i,
        {
            if str_eq(self.campaigns[i].0.as_str(), campaign) {
                proof {
                    lemma_first_where_at(self.campaigns@, p, i as int);
                    assert(self.campaigns@[i as int].1.wf());
                }
                return Some(i);
            }
            i = i + 1;
        }
        proof { lemma_first_where_none(self.campaigns@, p); }
        None
    }

    /// Whether the state can count the item without overflow.
    pub fn can_receive(&self, item: &Item, data: &Tables) -> (res: bool)
        requires
            self.wf(),
        ensures
            res == can_receive(*self, *item, *data),
    {
        let max: i64 = 9223372036854775807i64;
        match item {
            Item::Unlock((c, u)) => {
                match self.find_campaign(c.as_str()) {
                    None => true,
                    Some(i) => self.campaigns[i].1.unlocks.get(u) < max,
                }
            },
            Item::ScenarioUnlock(_) => true,
            Item::Xp((c, x)) => {
                let have: i64 = match self.find_campaign(c.as_str()) {
                    None => 0,
                    Some(i) => self.campaigns[i].1.xp,
                };
                have.checked_add(*x).is_some()
            },
            Item::ScenarioCard((c, code)) => {
                match self.find_campaign(c.as_str()) {
                    None => true,
                    Some(i) => {
                        if self.campaigns[i].1.cards.get(code) >= max {
                            false
                        } else {
                            match data.get_card(*code) {
                                None => true,
                                Some(card) => self.campaigns[i].1.unlocks.get(&card.name) < max,
                            }
                        }
                    },
                }
            },
            Item::CampaignFiller((c, f)) => {
                match self.find_campaign(c.as_str()) {
                    None => true,
                    Some(i) => self.campaigns[i].1.filler.get(f) < max,
                }
            },
        }
    }

    /// Whether location `location` is still to send.
    pub fn is_unsent(&self, location: i64) -> (res: bool)
        ensures
            res == self.unsent().contains(location),
    {
        self.unsent_locations.contains(&location)
    }

    /// Marks campaign `campaign` completed.
    pub fn complete_campaign(&mut self, campaign: &str)
        requires
            old(self).wf(),
        ensures
            final(self).wf(),
            final(self).unsent() == old(self).unsent(),
            final(self).slot() == old(self).slot(),
            forall|s: Seq<char>| #[trigger] final(self).reachable(s) == old(self).reachable(s),
            forall|s: Seq<char>| #[trigger] final(self).has_reachable(s) == old(self).has_reachable(s),
            final(self).is_completed(campaign@),
            final(self).unlock_pairs(campaign@) == old(self).unlock_pairs(campaign@),
            final(self).scenario_keys(campaign@) == old(self).scenario_keys(campaign@),
            final(self).xp_of(campaign@) == old(self).xp_of(campaign@),
            final(self).card_pairs(campaign@) == old(self).card_pairs(campaign@),
            final(self).filler_pairs(campaign@) == old(self).filler_pairs(campaign@),
            forall|c: Seq<char>| c != campaign@ ==> #[trigger] final(self).campaign(c) == old(self).campaign(c),
            final(self).completed_count() == old(self).completed_count() + if old(self).is_completed(campaign@) { 0int } else { 1int },
    {
        let i = self.campaign_state(campaign);
        let ghost mid = *self;
        self.set_completed(i);
        proof {
            assert(mid.campaign(campaign@) == Some(mid.campaigns@[i as int].1));
            assert forall|s: Seq<char>| #[trigger] self.reachable(s) == old(self).reachable(s) && self.has_reachable(s) == old(self).has_reachable(s) by {
                assert(self.scenarios == old(self).scenarios);
            }
            assert forall|c: Seq<char>| c != campaign@ implies #[trigger] self.campaign(c) == old(self).campaign(c) by {}
            lemma_completion_count(*old(self), *self, campaign@);
        }
    }

}

/// A term holding in a prefix holds in the whole sequence.
proof fn lemma_any_holds_prefix(ts: Seq<LogicTerm>, k: int, has: spec_fn(Seq<char>, Seq<char>) -> bool)
    requires
        0 <= k <= ts.len(),
        any_holds(terms_view(ts.take(k)), has),
    ensures
        any_holds(terms_view(ts), has),
    decreases ts.len() - k,
{
    if k < ts.len() {
        lemma_terms_view_step(ts, k);
        lemma_any_holds_prefix(ts, k + 1, has);
    } else {
        assert(ts.take(k) =~= ts);
    }
}

/// A term failing in a prefix fails the whole sequence.
proof fn lemma_all_hold_prefix(ts: Seq<LogicTerm>, k: int, has: spec_fn(Seq<char>, Seq<char>) -> bool)
    requires
        0 <= k <= ts.len(),
        !all_hold(terms_view(ts.take(k)), has),
    ensures
        !all_hold(terms_view(ts), has),
    decreases ts.len() - k,
{
    if k < ts.len() {
        lemma_terms_view_step(ts, k);
        lemma_all_hold_prefix(ts, k + 1, has);
    } else {
        assert(ts.take(k) =~= ts);
    }
}

/// A campaign's state is well formed.
proof fn lemma_campaign_wf(st: State, c: Seq<char>)
    requires
        st.wf(),
        st.campaign(c) is Some,
    ensures
        st.campaign(c).unwrap().wf(),
{
    lemma_first_where(st.campaigns@, camp_pred(c));
}

/// Counts of a well-formed tally are never negative.
proof fn lemma_count_nonneg(ps: Seq<(Seq<char>, int)>, k: Seq<char>)
    requires
        forall|i: int| 0 <= i < ps.len() ==> (#[trigger] ps[i]).1 >= 1,
    ensures
        count_in(ps, k) >= 0,
{
    if exists|i: int| 0 <= i < ps.len() && (#[trigger] ps[i]).0 == k {
        let i = choose|i: int| 0 <= i < ps.len() && (#[trigger] ps[i]).0 == k;
        assert(ps[i].1 >= 1);
    }
}

/// Receiving an item never takes away an unlock that a campaign holds.
pub proof fn lemma_received_keeps_unlocks(old: State, new: State, item: Item, data: Tables, c: Seq<char>, u: Seq<char>)
    requires
        old.wf(),
        added(old, new, item, data),
        old.unlock_count(c, u) > 0,
    ensures
        new.unlock_count(c, u) > 0,
{
    if c != item.campaign() {
        assert(new.campaign(c) == old.campaign(c));
    } else {
        assert(old.campaign(c) is Some);
        lemma_campaign_wf(old, c);
        let ps = old.unlock_pairs(c);
        match item {
            Item::Unlock((_, x)) => {
                lemma_bump(ps, x@, u);
                lemma_count_nonneg(ps, u);
            },
            Item::ScenarioCard((_, code)) => {
                if data.card_index(code) >= 0 {
                    lemma_bump(ps, data.cards@[data.card_index(code)].name@, u);
                    lemma_count_nonneg(ps, u);
                }
            },
            _ => {},
        }
    }
}

/// In a well-formed state, each of a campaign's tallies (unlocks, cards,
/// filler) names each key once, with a count of at least one.
pub proof fn lemma_tallies_distinct(st: State, c: Seq<char>)
    requires
        st.wf(),
    ensures
        distinct_keys(st.unlock_pairs(c)),
        distinct_keys(st.card_pairs(c)),
        distinct_keys(st.filler_pairs(c)),
        forall|i: int| 0 <= i < st.unlock_pairs(c).len() ==> (#[trigger] st.unlock_pairs(c)[i]).1 >= 1,
        forall|i: int| 0 <= i < st.card_pairs(c).len() ==> (#[trigger] st.card_pairs(c)[i]).1 >= 1,
        forall|i: int| 0 <= i < st.filler_pairs(c).len() ==> (#[trigger] st.filler_pairs(c)[i]).1 >= 1,
{
    if st.campaign(c) is Some {
        lemma_campaign_wf(st, c);
    } else {
        assert(st.unlock_pairs(c) =~= Seq::<(Seq<char>, int)>::empty());
        assert(st.card_pairs(c) =~= Seq::<(Code, int)>::empty());
        assert(st.filler_pairs(c) =~= Seq::<(Seq<char>, int)>::empty());
    }
}

/// Receiving `item` gives campaign `c` unlock `u`: it is that unlock, or a
/// scenario card of `c` whose card is named `u`.
pub open spec fn item_gives(data: Tables, item: Item, c: Seq<char>, u: Seq<char>) -> bool {
    match item {
        Item::Unlock((c2, u2)) => c2@ == c && u2@ == u,
        Item::ScenarioCard((c2, code)) => c2@ == c && data.card_index(code) >= 0 && data.cards@[data.card_index(code)].name@ == u,
        _ => false,
    }
}

/// After receiving an item, a campaign holds an unlock exactly when it
/// held it before or the item gives it.
pub proof fn lemma_added_unlock_count(old: State, new: State, item: Item, data: Tables, c: Seq<char>, u: Seq<char>)
    requires
        old.wf(),
        added(old, new, item, data),
    ensures
        (new.unlock_count(c, u) > 0) <==> (old.unlock_count(c, u) > 0 || item_gives(data, item, c, u)),
{
    if c != item.campaign() {
        assert(new.campaign(c) == old.campaign(c));
        assert(!item_gives(data, item, c, u));
    } else {
        let ps = old.unlock_pairs(c);
        if old.campaign(c) is Some {
            lemma_campaign_wf(old, c);
        } else {
            assert(ps =~= Seq::<(Seq<char>, int)>::empty());
        }
        lemma_count_nonneg(ps, u);
        match item {
            Item::Unlock((_, x)) => {
                lemma_bump(ps, x@, u);
            },
            Item::ScenarioCard((_, code)) => {
                if data.card_index(code) >= 0 {
                    lemma_bump(ps, data.cards@[data.card_index(code)].name@, u);
                }
            },
            _ => {},
        }
    }
}

/// After an unlock is received, its campaign holds it.
pub proof fn lemma_unlock_received_held(old: State, new: State, c: String, u: String, data: Tables)
    requires
        old.wf(),
        added(old, new, Item::Unlock((c, u)), data),
    ensures
        new.unlock_count(c@, u@) > 0,
{
    let ps = old.unlock_pairs(c@);
    if old.campaign(c@) is Some {
        lemma_campaign_wf(old, c@);
    } else {
        assert(ps =~= Seq::<(Seq<char>, int)>::empty());
    }
    lemma_bump(ps, u@, u@);
    lemma_count_nonneg(ps, u@);
}

/// After a location is sent it is no longer among those to send.
pub proof fn lemma_sent_not_unsent(old: State, new: State, id: i64)
    requires
        new.unsent() == old.unsent().remove(id),
    ensures
        !new.unsent().contains(id),
{
}

/// `new` is `old` after sending location `l`: it is no longer to send,
/// and when it is the goal of a campaign, that campaign is completed;
/// nothing else changes.
pub open spec fn marked(old: State, new: State, l: i64, data: Tables) -> bool {
    &&& new.wf()
    &&& new.unsent() == old.unsent().remove(l)
    &&& new.slot() == old.slot()
    &&& forall|s: Seq<char>| #[trigger] new.reachable(s) == old.reachable(s)
    &&& forall|s: Seq<char>| #[trigger] new.has_reachable(s) == old.has_reachable(s)
    &&& match data.goal_of(l) {
        Some(c) => {
            &&& new.is_completed(c)
            &&& new.unlock_pairs(c) == old.unlock_pairs(c)
            &&& new.scenario_keys(c) == old.scenario_keys(c)
            &&& new.xp_of(c) == old.xp_of(c)
            &&& new.card_pairs(c) == old.card_pairs(c)
            &&& new.filler_pairs(c) == old.filler_pairs(c)
            &&& forall|d: Seq<char>| d != c ==> #[trigger] new.campaign(d) == old.campaign(d)
        },
        None => forall|d: Seq<char>| #[trigger] new.campaign(d) == old.campaign(d),
    }
}

/// Sending a location completes at most its goal campaign: the count of
/// completed campaigns rises by one exactly when the location is a
/// campaign's goal and that campaign was not yet completed.
pub proof fn lemma_mark_sent_count(s0: State, s1: State, l: i64, data: Tables)
    requires
        s0.wf(),
        marked(s0, s1, l, data),
    ensures
        s1.completed_count() == s0.completed_count() + match data.goal_of(l) {
            Some(c) => if s0.is_completed(c) { 0int } else { 1int },
            None => 0int,
        },
{
    match data.goal_of(l) {
        Some(c) => { lemma_completion_count(s0, s1, c); },
        None => {
            assert forall|d: Seq<char>| #[trigger] s1.is_completed(d) == s0.is_completed(d) by {
                assert(s1.campaign(d) == s0.campaign(d));
            }
            lemma_same_completion_count(s0, s1);
        },
    }
}

/// Sending the same location twice does no more than sending it once:
/// the second time, what is to send, which campaigns are completed, how
/// many are, and what each campaign holds stay as they were.
pub proof fn lemma_mark_sent_twice(s0: State, s1: State, s2: State, l: i64, data: Tables)
    requires
        s0.wf(),
        marked(s0, s1, l, data),
        marked(s1, s2, l, data),
    ensures
        s2.unsent() == s1.unsent(),
        s2.completed_count() == s1.completed_count(),
        forall|c: Seq<char>| #[trigger] s2.is_completed(c) == s1.is_completed(c),
        forall|c: Seq<char>| #[trigger] s2.unlock_pairs(c) == s1.unlock_pairs(c) && s2.scenario_keys(c) == s1.scenario_keys(c)
            && s2.xp_of(c) == s1.xp_of(c) && s2.card_pairs(c) == s1.card_pairs(c) && s2.filler_pairs(c) == s1.filler_pairs(c),
        forall|s: Seq<char>| #[trigger] s2.reachable(s) == s1.reachable(s),
{
    assert(s2.unsent() =~= s1.unsent());
    lemma_mark_sent_count(s1, s2, l, data);
    assert forall|c: Seq<char>| #[trigger] s2.is_completed(c) == s1.is_completed(c) by {
        match data.goal_of(l) {
            Some(g) => { if c != g { assert(s2.campaign(c) == s1.campaign(c)); } },
            None => { assert(s2.campaign(c) == s1.campaign(c)); },
        }
    }
    assert forall|c: Seq<char>| #[trigger] s2.unlock_pairs(c) == s1.unlock_pairs(c) && s2.scenario_keys(c) == s1.scenario_keys(c)
        && s2.xp_of(c) == s1.xp_of(c) && s2.card_pairs(c) == s1.card_pairs(c) && s2.filler_pairs(c) == s1.filler_pairs(c) by {
        match data.goal_of(l) {
            Some(g) => { if c != g { assert(s2.campaign(c) == s1.campaign(c)); } },
            None => { assert(s2.campaign(c) == s1.campaign(c)); },
        }
    }
}

/// Receiving an item keeps what is to send, the options, and the count
/// of completed campaigns, takes no unlock away, and leaves every
/// scenario's reachable locations reachable.
pub proof fn lemma_added_keeps(s0: State, s1: State, item: Item, data: Tables)
    requires
        s0.wf(),
        added(s0, s1, item, data),
    ensures
        s1.unsent() == s0.unsent(),
        s1.slot() == s0.slot(),
        s1.completed_count() == s0.completed_count(),
        forall|c: Seq<char>, u: Seq<char>| s0.unlock_count(c, u) > 0 ==> #[trigger] s1.unlock_count(c, u) > 0,
        forall|s: Seq<char>| s0.reachable(s).subset_of(#[trigger] s1.reachable(s)),
{
    assert forall|s: Seq<char>| s0.reachable(s).subset_of(#[trigger] s1.reachable(s)) by {
        if item_refreshes(item) && scenario_refreshed(data, item.campaign(), s) {
            if s0.has_reachable(s) {
                let edges = open_edges(data.scenarios@[data.scenario_index(s)].paths@, path_flags(data, item.campaign(), s, s1.has_fn()));
                let start = s0.reachable(s);
                assert forall|x: Code| start.contains(x) implies #[trigger] closure(start, edges).contains(x) by {
                    assert forall|r: Set<Code>| start.subset_of(r) && #[trigger] closed_under(r, edges) implies r.contains(x) by {}
                }
            } else {
                assert(s0.reachable(s) =~= Set::<Code>::empty());
            }
        }
    }

    assert forall|d: Seq<char>| #[trigger] s1.is_completed(d) == s0.is_completed(d) by {
        if d != item.campaign() {
            assert(s1.campaign(d) == s0.campaign(d));
        }
    }
    lemma_same_completion_count(s0, s1);
    assert forall|c: Seq<char>, u: Seq<char>| s0.unlock_count(c, u) > 0 implies #[trigger] s1.unlock_count(c, u) > 0 by {
        lemma_received_keeps_unlocks(s0, s1, item, data, c, u);
    }
}

/// The names of the completed campaigns.
pub open spec fn completed_names(s: State) -> Set<Seq<char>> {
    Set::new(|c: Seq<char>| s.is_completed(c))
}

proof fn lemma_filter_len_set(q: Seq<Seq<char>>, p: spec_fn(Seq<char>) -> bool)
    requires
        q.no_duplicates(),
    ensures
        q.to_set().filter(p).finite(),
        q.filter(p).len() == q.to_set().filter(p).len(),
    decreases q.len(),
{
    broadcast use vstd::set::group_set_axioms, vstd::seq_lib::seq_to_set_is_finite;
    if q.len() == 0 {
        assert(q.to_set().filter(p) =~= Set::<Seq<char>>::empty());
        assert(q.filter(p) =~= Seq::<Seq<char>>::empty());
    } else {
        let r = q.drop_last();
        let x = q.last();
        assert(r.no_duplicates());
        lemma_filter_len_set(r, p);
        assert(q =~= r.push(x));
        assert(q.to_set() =~= r.to_set().insert(x));
        assert(!r.to_set().contains(x)) by {
            if r.to_set().contains(x) {
                let j = choose|j: int| 0 <= j < r.len() && r[j] == x;
                assert(q[j] == q[q.len() - 1]);
            }
        }
        r.lemma_filter_push(x, p);
        if p(x) {
            assert(q.to_set().filter(p) =~= r.to_set().filter(p).insert(x));
        } else {
            assert(q.to_set().filter(p) =~= r.to_set().filter(p));
        }
    }
}

/// The number of completed campaigns is the number of names of
/// completed campaigns.
pub proof fn lemma_completed_count(s: State)
    requires
        s.wf(),
    ensures
        completed_names(s).finite(),
        s.completed_count() == completed_names(s).len(),
{
    let names = s.campaign_names();
    let p = |c: Seq<char>| s.is_completed(c);
    assert(names.no_duplicates()) by {
        assert forall|i: int, j: int| 0 <= i < names.len() && 0 <= j < names.len() && i != j implies names[i] != names[j] by {
            assert(names[i] == s.campaigns@[i].0@ && names[j] == s.campaigns@[j].0@);
        }
    }
    lemma_filter_len_set(names, p);
    assert(completed_names(s) =~= names.to_set().filter(p)) by {
        assert forall|c: Seq<char>| #[trigger] completed_names(s).contains(c) implies names.to_set().contains(c) by {
            lemma_first_where(s.campaigns@, camp_pred(c));
            let i = s.campaign_index(c);
            assert(names[i] == c);
        }
    }
}

/// When one campaign changes and ends completed, the count of completed
/// campaigns rises by one if it was not completed before, and else stays.
pub proof fn lemma_completion_count(s0: State, s1: State, c: Seq<char>)
    requires
        s0.wf(),
        s1.wf(),
        s1.is_completed(c),
        forall|d: Seq<char>| d != c ==> #[trigger] s1.campaign(d) == s0.campaign(d),
    ensures
        s1.completed_count() == s0.completed_count() + if s0.is_completed(c) { 0int } else { 1int },
{
    lemma_completed_count(s0);
    lemma_completed_count(s1);
    assert(completed_names(s1) =~= completed_names(s0).insert(c)) by {
        assert forall|d: Seq<char>| completed_names(s1).contains(d) == completed_names(s0).insert(c).contains(d) by {
            if d != c {
                assert(s1.campaign(d) == s0.campaign(d));
            }
        }
    }
}

/// When no campaign's completion changes, the count of completed
/// campaigns stays.
pub proof fn lemma_same_completion_count(s0: State, s1: State)
    requires
        s0.wf(),
        s1.wf(),
        forall|d: Seq<char>| #[trigger] s1.is_completed(d) == s0.is_completed(d),
    ensures
        s1.completed_count() == s0.completed_count(),
{
    lemma_completed_count(s0);
    lemma_completed_count(s1);
    assert(completed_names(s1) =~= completed_names(s0));
}

/// `new` follows from `old` by one call that completes the campaigns in
/// `done` (those not yet completed) and gives the unlocks that `gives`
/// names, and changes no other campaign's completion or unlocks.
pub open spec fn history_step(old: State, new: State, done: Set<Seq<char>>, gives: spec_fn(Seq<char>, Seq<char>) -> bool) -> bool {
    &&& old.wf()
    &&& new.wf()
    &&& forall|c: Seq<char>| #[trigger] new.is_completed(c) == (old.is_completed(c) || done.contains(c))
    &&& forall|c: Seq<char>, u: Seq<char>| (#[trigger] new.unlock_count(c, u) > 0) == (old.unlock_count(c, u) > 0 || gives(c, u))
}

/// No unlock at all.
pub open spec fn gives_nothing() -> spec_fn(Seq<char>, Seq<char>) -> bool {
    |c: Seq<char>, u: Seq<char>| false
}

/// The campaign whose goal location `l` is, as a set.
pub open spec fn goal_done(data: Tables, l: i64) -> Set<Seq<char>> {
    match data.goal_of(l) {
        Some(c) => set![c],
        None => Set::empty(),
    }
}

/// Sending a location is a step that completes its goal campaign.
pub proof fn lemma_marked_step(s0: State, s1: State, l: i64, data: Tables)
    requires
        s0.wf(),
        marked(s0, s1, l, data),
    ensures
        history_step(s0, s1, goal_done(data, l), gives_nothing()),
{
    assert forall|c: Seq<char>, u: Seq<char>| (#[trigger] s1.unlock_count(c, u) > 0) == (s0.unlock_count(c, u) > 0 || gives_nothing()(c, u)) by {
        match data.goal_of(l) {
            Some(g) => { if c != g { assert(s1.campaign(c) == s0.campaign(c)); } },
            None => { assert(s1.campaign(c) == s0.campaign(c)); },
        }
    }
    assert forall|c: Seq<char>| #[trigger] s1.is_completed(c) == (s0.is_completed(c) || goal_done(data, l).contains(c)) by {
        match data.goal_of(l) {
            Some(g) => { if c != g { assert(s1.campaign(c) == s0.campaign(c)); } },
            None => { assert(s1.campaign(c) == s0.campaign(c)); },
        }
    }
}

/// Completing a campaign is a step that completes it.
pub proof fn lemma_completed_step(s0: State, s1: State, c: Seq<char>)
    requires
        s0.wf(),
        s1.wf(),
        s1.is_completed(c),
        s1.unlock_pairs(c) == s0.unlock_pairs(c),
        forall|d: Seq<char>| d != c ==> #[trigger] s1.campaign(d) == s0.campaign(d),
    ensures
        history_step(s0, s1, set![c], gives_nothing()),
{
    assert forall|d: Seq<char>, u: Seq<char>| (#[trigger] s1.unlock_count(d, u) > 0) == (s0.unlock_count(d, u) > 0 || gives_nothing()(d, u)) by {
        if d != c { assert(s1.campaign(d) == s0.campaign(d)); }
    }
    assert forall|d: Seq<char>| #[trigger] s1.is_completed(d) == (s0.is_completed(d) || set![c].contains(d)) by {
        if d != c { assert(s1.campaign(d) == s0.campaign(d)); }
    }
}

/// Reading a campaign's scenarios, cards or filler is a step that
/// completes nothing and gives nothing.
pub proof fn lemma_touched_step(s0: State, s1: State, c: Seq<char>)
    requires
        s0.wf(),
        State::touched(s0, s1, c),
    ensures
        history_step(s0, s1, Set::empty(), gives_nothing()),
{
    assert forall|d: Seq<char>, u: Seq<char>| (#[trigger] s1.unlock_count(d, u) > 0) == (s0.unlock_count(d, u) > 0 || gives_nothing()(d, u)) by {
        if d != c { assert(s1.campaign(d) == s0.campaign(d)); }
    }
    assert forall|d: Seq<char>| #[trigger] s1.is_completed(d) == (s0.is_completed(d) || Set::<Seq<char>>::empty().contains(d)) by {
        if d != c { assert(s1.campaign(d) == s0.campaign(d)); }
    }
}

/// Receiving an item is a step that completes nothing and gives what the
/// item gives.
pub proof fn lemma_added_step(s0: State, s1: State, item: Item, data: Tables)
    requires
        s0.wf(),
        added(s0, s1, item, data),
    ensures
        history_step(s0, s1, Set::empty(), |c: Seq<char>, u: Seq<char>| item_gives(data, item, c, u)),
{
    assert forall|c: Seq<char>, u: Seq<char>| (#[trigger] s1.unlock_count(c, u) > 0) == (s0.unlock_count(c, u) > 0 || item_gives(data, item, c, u)) by {
        lemma_added_unlock_count(s0, s1, item, data, c, u);
    }
    assert forall|d: Seq<char>| #[trigger] s1.is_completed(d) == (s0.is_completed(d) || Set::<Seq<char>>::empty().contains(d)) by {
        if d != item.campaign() { assert(s1.campaign(d) == s0.campaign(d)); }
    }
}

proof fn lemma_history_prefix(trace: Seq<State>, dones: Seq<Set<Seq<char>>>, gives: Seq<spec_fn(Seq<char>, Seq<char>) -> bool>, k: int)
    requires
        trace.len() == dones.len() + 1,
        gives.len() == dones.len(),
        forall|i: int| 0 <= i < dones.len() ==> #[trigger] history_step(trace[i], trace[i + 1], dones[i], gives[i]),
        0 <= k <= dones.len(),
        trace[0].wf(),
    ensures
        trace[k].wf(),
        forall|c: Seq<char>| #[trigger] trace[k].is_completed(c) == (trace[0].is_completed(c)
            || exists|i: int| 0 <= i < k && #[trigger] dones[i].contains(c)),
        forall|c: Seq<char>, u: Seq<char>| (#[trigger] trace[k].unlock_count(c, u) > 0) == (trace[0].unlock_count(c, u) > 0
            || exists|i: int| 0 <= i < k && #[trigger] gives[i](c, u)),
    decreases k,
{
    if k > 0 {
        lemma_history_prefix(trace, dones, gives, k - 1);
        let j = k - 1;
        assert(history_step(trace[j], trace[j + 1], dones[j], gives[j]));
        assert(trace[j + 1] == trace[k]);
        assert forall|c: Seq<char>| #[trigger] trace[k].is_completed(c) == (trace[0].is_completed(c)
            || exists|i: int| 0 <= i < k && #[trigger] dones[i].contains(c)) by {
            if exists|i: int| 0 <= i < k && #[trigger] dones[i].contains(c) {
                let i = choose|i: int| 0 <= i < k && #[trigger] dones[i].contains(c);
                if i < j { assert(exists|i2: int| 0 <= i2 < j && #[trigger] dones[i2].contains(c)); }
            }
            if exists|i: int| 0 <= i < j && #[trigger] dones[i].contains(c) {
                let i = choose|i: int| 0 <= i < j && #[trigger] dones[i].contains(c);
                assert(0 <= i < k && dones[i].contains(c));
            }
            if dones[j].contains(c) { assert(0 <= j < k && dones[j].contains(c)); }
        }
        assert forall|c: Seq<char>, u: Seq<char>| (#[trigger] trace[k].unlock_count(c, u) > 0) == (trace[0].unlock_count(c, u) > 0
            || exists|i: int| 0 <= i < k && #[trigger] gives[i](c, u)) by {
            if exists|i: int| 0 <= i < k && #[trigger] gives[i](c, u) {
                let i = choose|i: int| 0 <= i < k && #[trigger] gives[i](c, u);
                if i < j { assert(exists|i2: int| 0 <= i2 < j && #[trigger] gives[i2](c, u)); }
            }
            if exists|i: int| 0 <= i < j && #[trigger] gives[i](c, u) {
                let i = choose|i: int| 0 <= i < j && #[trigger] gives[i](c, u);
                assert(0 <= i < k && gives[i](c, u));
            }
            if gives[j](c, u) { assert(0 <= j < k && gives[j](c, u)); }
        }
    }
}

/// Over any history of calls from a new state (each a step: receiving an
/// item, sending a location, completing a campaign, reading a campaign),
/// a campaign is completed exactly when a checked location of the new
/// state was its goal or a step completed it; the count of completed
/// campaigns is the number of such campaigns; and a campaign holds an
/// unlock exactly when a step gave it.
pub proof fn lemma_history(trace: Seq<State>, dones: Seq<Set<Seq<char>>>, gives: Seq<spec_fn(Seq<char>, Seq<char>) -> bool>,
    checked: Seq<i64>, data: Tables)
    requires
        trace.len() == dones.len() + 1,
        gives.len() == dones.len(),
        forall|i: int| 0 <= i < dones.len() ==> #[trigger] history_step(trace[i], trace[i + 1], dones[i], gives[i]),
        trace[0].wf(),
        forall|c: Seq<char>| (#[trigger] trace[0].is_completed(c)) <==> exists|j: int| 0 <= j < checked.len() && data.goal_of(#[trigger] checked[j]) == Some(c),
        forall|c: Seq<char>, u: Seq<char>| #[trigger] trace[0].unlock_count(c, u) == 0,
    ensures
        forall|c: Seq<char>| #[trigger] trace.last().is_completed(c) == (
            (exists|j: int| 0 <= j < checked.len() && data.goal_of(#[trigger] checked[j]) == Some(c))
            || exists|i: int| 0 <= i < dones.len() && #[trigger] dones[i].contains(c)),
        trace.last().completed_count() == completed_names(trace.last()).len(),
        completed_names(trace.last()).finite(),
        forall|c: Seq<char>, u: Seq<char>| (#[trigger] trace.last().unlock_count(c, u) > 0) == exists|i: int| 0 <= i < gives.len() && #[trigger] gives[i](c, u),
{
    lemma_history_prefix(trace, dones, gives, dones.len() as int);
    assert(trace.last() == trace[dones.len() as int]);
    lemma_completed_count(trace.last());
}

} // verus!
