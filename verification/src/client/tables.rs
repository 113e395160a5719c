//! The client's tables, made from the generator's card list, numbered
//! data and datapackage: the same entries as the generated lookup
//! functions, held as values.

use vstd::prelude::*;
use crate::cardcode::Code;
use crate::collections::copy_values;
use crate::generate::card::{CardView, card_views, opt_view};
use crate::generate::data::{CampaignView, ScenarioView, PathView, CheckView, LockView, campaign_views,
    campaign_seen, scenario_seen, campaign_seen_exec, scenario_seen_exec, lemma_campaign_seen_take, lemma_scenario_seen_take};
use crate::generate::ids::{ItemView, item_views};
use crate::generate::logic::Logic;
use crate::generate::package::{Datapackage, LocationKey, location_map_view, goal_map_view};
use crate::generate::source::checks_have_ids;
use crate::client::data::{Item, Card, Campaign, Scenario, Lock, Path, Check, LocationId, PathRule, Tables};

verus! {

/// A client item in the generator's terms.
pub open spec fn item_value(it: Item) -> ItemView {
    match it {
        Item::Unlock((c, u)) => ItemView::Unlock(c@, u@),
        Item::ScenarioUnlock((c, s)) => ItemView::ScenarioUnlock(c@, s@),
        Item::Xp((c, x)) => ItemView::Xp(c@, x),
        Item::ScenarioCard((c, k)) => ItemView::ScenarioCard(c@, k),
        Item::CampaignFiller((c, f)) => ItemView::CampaignFiller(c@, f@),
    }
}

/// The ids and values of some client items.
pub open spec fn client_item_views(v: Seq<(i64, Item)>) -> Seq<(i64, ItemView)> {
    v.map_values(|e: (i64, Item)| (e.0, item_value(e.1)))
}

/// The client card shows the generator's card.
pub open spec fn card_agrees(c: Card, g: CardView) -> bool {
    &&& c.code == g.code
    &&& c.name@ == g.name
    &&& opt_view(c.image) == g.image
    &&& c.clues == g.clues
    &&& c.victory == g.victory
    &&& c.unique == g.unique
}

/// The client lock is the generator's lock.
pub open spec fn lock_agrees(l: Lock, g: LockView) -> bool {
    l.name@ == g.name && l.rule@ == g.rule && l.neg_rule@ == g.neg_rule
}

/// The client check shows the generator's check.
pub open spec fn check_agrees(c: Check, g: CheckView) -> bool {
    &&& c.code == g.code
    &&& c.description@ == g.description
    &&& c.count == g.count
    &&& c.victory == g.victory
    &&& c.ids@ == g.ids
}

/// The client scenario shows the generator's scenario.
pub open spec fn scenario_agrees(s: Scenario, g: ScenarioView) -> bool {
    &&& s.name@ == g.name
    &&& s.always@ == g.always
    &&& s.locks@.len() == g.locks.len()
    &&& forall|k: int| 0 <= k < g.locks.len() ==> lock_agrees(#[trigger] s.locks@[k], g.locks[k])
    &&& s.locations@ == g.locations
    &&& s.begin@ == g.begin
    &&& s.paths@.len() == g.paths.len()
    &&& forall|k: int| 0 <= k < g.paths.len() ==> (#[trigger] s.paths@[k]).from == g.paths[k].from && s.paths@[k].to == g.paths[k].to
    &&& s.checks@.len() == g.checks.len()
    &&& forall|k: int| 0 <= k < g.checks.len() ==> check_agrees(#[trigger] s.checks@[k], g.checks[k])
}

/// The client campaign has the generator's campaign's name and scenario
/// names.
pub open spec fn campaign_agrees(c: Campaign, g: CampaignView) -> bool {
    &&& c.name@ == g.name
    &&& c.scenarios@.len() == g.scenarios.len()
    &&& forall|k: int| 0 <= k < g.scenarios.len() ==> (#[trigger] c.scenarios@[k])@ == g.scenarios[k].name
}

/// The campaigns, each name once, at its first place.
pub open spec fn distinct_campaigns(cs: Seq<CampaignView>) -> Seq<CampaignView>
    decreases cs.len(),
{
    if cs.len() == 0 {
        Seq::empty()
    } else if campaign_seen(cs, cs.len() - 1) {
        distinct_campaigns(cs.drop_last())
    } else {
        distinct_campaigns(cs.drop_last()).push(cs.last())
    }
}

/// The scenarios, each name once, at its first place.
pub open spec fn distinct_scenarios(ss: Seq<ScenarioView>) -> Seq<ScenarioView>
    decreases ss.len(),
{
    if ss.len() == 0 {
        Seq::empty()
    } else if scenario_seen(ss, ss.len() - 1) {
        distinct_scenarios(ss.drop_last())
    } else {
        distinct_scenarios(ss.drop_last()).push(ss.last())
    }
}

/// The scenarios of all campaigns, in order, each campaign and each
/// scenario of a campaign once.
pub open spec fn all_scenarios(cs: Seq<CampaignView>) -> Seq<ScenarioView>
    decreases cs.len(),
{
    if cs.len() == 0 {
        Seq::empty()
    } else if campaign_seen(cs, cs.len() - 1) {
        all_scenarios(cs.drop_last())
    } else {
        all_scenarios(cs.drop_last()) + distinct_scenarios(cs.last().scenarios)
    }
}

/// The paths of some scenarios of campaign `cname`, with their names,
/// each scenario once.
pub open spec fn scenario_paths(cname: Seq<char>, ss: Seq<ScenarioView>) -> Seq<(Seq<char>, Seq<char>, PathView)>
    decreases ss.len(),
{
    if ss.len() == 0 {
        Seq::empty()
    } else if scenario_seen(ss, ss.len() - 1) {
        scenario_paths(cname, ss.drop_last())
    } else {
        let s = ss.last();
        scenario_paths(cname, ss.drop_last()) + Seq::new(s.paths.len(), |k: int| (cname, s.name, s.paths[k]))
    }
}

/// The paths of all scenarios, with their campaign's and scenario's names,
/// each campaign once.
pub open spec fn all_paths(cs: Seq<CampaignView>) -> Seq<(Seq<char>, Seq<char>, PathView)>
    decreases cs.len(),
{
    if cs.len() == 0 {
        Seq::empty()
    } else if campaign_seen(cs, cs.len() - 1) {
        all_paths(cs.drop_last())
    } else {
        all_paths(cs.drop_last()) + scenario_paths(cs.last().name, cs.last().scenarios)
    }
}

/// The first location id and rule of each check of some scenarios, each
/// scenario once.
pub open spec fn scenario_check_rules(ss: Seq<ScenarioView>) -> Seq<(i64, Logic)>
    decreases ss.len(),
{
    if ss.len() == 0 {
        Seq::empty()
    } else if scenario_seen(ss, ss.len() - 1) {
        scenario_check_rules(ss.drop_last())
    } else {
        let s = ss.last();
        scenario_check_rules(ss.drop_last()) + Seq::new(s.checks.len(), |k: int| (s.checks[k].ids[0], s.checks[k].logic))
    }
}

/// The first location id and rule of each check of all scenarios, each
/// campaign once.
pub open spec fn all_check_rules(cs: Seq<CampaignView>) -> Seq<(i64, Logic)>
    decreases cs.len(),
{
    if cs.len() == 0 {
        Seq::empty()
    } else if campaign_seen(cs, cs.len() - 1) {
        all_check_rules(cs.drop_last())
    } else {
        all_check_rules(cs.drop_last()) + scenario_check_rules(cs.last().scenarios)
    }
}

/// The keys and ids of some location id entries.
pub open spec fn location_id_views(v: Seq<LocationId>) -> Seq<(LocationKey, i64)> {
    v.map_values(|l: LocationId| ((l.campaign@, l.scenario@, l.code, l.n), l.id))
}

/// The names and paths of some path rules.
pub open spec fn path_rule_views(v: Seq<PathRule>) -> Seq<(Seq<char>, Seq<char>, PathView)> {
    v.map_values(|r: PathRule| (r.campaign@, r.scenario@, PathView { from: r.from, to: r.to, logic: r.logic@ }))
}

/// The ids and rules of some location rules.
pub open spec fn location_rule_views(v: Seq<(i64, crate::generate::logic::LogicTerm)>) -> Seq<(i64, Logic)> {
    v.map_values(|r: (i64, crate::generate::logic::LogicTerm)| (r.0, r.1@))
}

/// The tables hold what the generated lookup functions hold: the
/// datapackage's items, location ids and goals, the cards, the campaigns
/// and every scenario (each name once), the rule of every path and of
/// every check's first location.
pub open spec fn tables_from(t: Tables, cards: Seq<CardView>, cs: Seq<CampaignView>, p: Datapackage) -> bool {
    &&& client_item_views(t.items@) == item_views(p.item_from_id@)
    &&& t.cards@.len() == cards.len()
    &&& forall|i: int| 0 <= i < cards.len() ==> card_agrees(#[trigger] t.cards@[i], cards[i])
    &&& t.campaigns@.len() == distinct_campaigns(cs).len()
    &&& forall|i: int| 0 <= i < distinct_campaigns(cs).len() ==> campaign_agrees(#[trigger] t.campaigns@[i], distinct_campaigns(cs)[i])
    &&& t.scenarios@.len() == all_scenarios(cs).len()
    &&& forall|i: int| 0 <= i < all_scenarios(cs).len() ==> scenario_agrees(#[trigger] t.scenarios@[i], all_scenarios(cs)[i])
    &&& location_id_views(t.clue_ids@) == location_map_view(p.clue_ids@)
    &&& location_id_views(t.victory_ids@) == location_map_view(p.victory_ids@)
    &&& path_rule_views(t.path_rules@) == all_paths(cs)
    &&& location_rule_views(t.location_rules@) == all_check_rules(cs)
    &&& goal_map_view(t.goal_locations@) == goal_map_view(p.goal_locations@)
}

fn client_item(it: &crate::generate::ids::Item) -> (res: Item)
    ensures
        item_value(res) == it@,
{
    match it {
        crate::generate::ids::Item::Unlock((c, u)) => Item::Unlock((c.clone(), u.clone())),
        crate::generate::ids::Item::ScenarioUnlock((c, s)) => Item::ScenarioUnlock((c.clone(), s.clone())),
        crate::generate::ids::Item::Xp((c, x)) => Item::Xp((c.clone(), *x)),
        crate::generate::ids::Item::ScenarioCard((c, k)) => Item::ScenarioCard((c.clone(), *k)),
        crate::generate::ids::Item::CampaignFiller((c, f)) => Item::CampaignFiller((c.clone(), f.clone())),
    }
}

fn client_card(c: &crate::generate::card::Card) -> (res: Card)
    ensures
        card_agrees(res, c@),
{
    let image = match &c.image {
        Some(s) => Some(s.clone()),
        None => None,
    };
    Card { code: c.code, name: c.name.clone(), image, clues: c.clues, victory: c.victory, unique: c.unique }
}

fn client_scenario(s: &crate::generate::data::Scenario) -> (res: Scenario)
    ensures
        scenario_agrees(res, s@),
{
    let ghost g = s@;
    let mut locks: Vec<Lock> = Vec::new();
    let mut i: usize = 0;
    while i < s.locks.len()
        invariant
            g == s@,
            i <= s.locks@.len(),
            locks@.len() == i,
            forall|k: int| 0 <= k < i ==> lock_agrees(#[trigger] locks@[k], g.locks[k]),
        decreases s.locks@.len() - i,
    {
        let l = &s.locks[i];
        proof { assert(g.locks[i as int] == l@); }
        locks.push(Lock { name: l.name.clone(), rule: l.rule.clone(), neg_rule: l.neg_rule.clone() });
        i = i + 1;
    }
    let mut paths: Vec<Path> = Vec::new();
    let mut i: usize = 0;
    while i < s.paths.len()
        invariant
            g == s@,
            i <= s.paths@.len(),
            paths@.len() == i,
            forall|k: int| 0 <= k < i ==> (#[trigger] paths@[k]).from == g.paths[k].from && paths@[k].to == g.paths[k].to,
        decreases s.paths@.len() - i,
    {
        let p = &s.paths[i];
        proof { assert(g.paths[i as int] == p@); }
        paths.push(Path { from: p.from, to: p.to });
        i = i + 1;
    }
    let mut checks: Vec<Check> = Vec::new();
    let mut i: usize = 0;
    while i < s.checks.len()
        invariant
            g == s@,
            i <= s.checks@.len(),
            checks@.len() == i,
            forall|k: int| 0 <= k < i ==> check_agrees(#[trigger] checks@[k], g.checks[k]),
        decreases s.checks@.len() - i,
    {
        let c = &s.checks[i];
        proof { assert(g.checks[i as int] == c@); }
        let ids = copy_values(&c.ids);
        checks.push(Check { code: c.code, description: c.description.clone(), count: c.count, victory: c.victory, ids });
        i = i + 1;
    }
    Scenario {
        name: s.name.clone(),
        always: s.always.clone(),
        locks,
        locations: copy_values(&s.locations),
        begin: copy_values(&s.begin),
        paths,
        checks,
    }
}

fn push_path_rules(rules: &mut Vec<PathRule>, cname: &String, s: &crate::generate::data::Scenario)
    ensures
        path_rule_views(final(rules)@) == path_rule_views(old(rules)@) + Seq::new(s@.paths.len(), |k: int| (cname@, s@.name, s@.paths[k])),
{
    let ghost added = Seq::new(s@.paths.len(), |k: int| (cname@, s@.name, s@.paths[k]));
    let ghost head = path_rule_views(rules@);
    let mut k: usize = 0;
    while k < s.paths.len()
        invariant
            added == Seq::new(s@.paths.len(), |k: int| (cname@, s@.name, s@.paths[k])),
            k <= s.paths@.len(),
            path_rule_views(rules@) == head + added.take(k as int),
        decreases s.paths@.len() - k,
    {
        let p = &s.paths[k];
        proof { assert(s@.paths[k as int] == p@); }
        rules.push(PathRule { campaign: cname.clone(), scenario: s.name.clone(), from: p.from, to: p.to, logic: p.logic.copy() });
        proof {
            assert(head + added.take(k + 1) =~= (head + added.take(k as int)).push(added[k as int]));
        }
        k = k + 1;
    }
    proof { assert(added.take(k as int) =~= added); }
}

fn push_check_rules(rules: &mut Vec<(i64, crate::generate::logic::LogicTerm)>, s: &crate::generate::data::Scenario)
    requires
        forall|k: int| 0 <= k < s@.checks.len() ==> (#[trigger] s@.checks[k]).ids.len() > 0,
    ensures
        location_rule_views(final(rules)@) == location_rule_views(old(rules)@) + Seq::new(s@.checks.len(), |k: int| (s@.checks[k].ids[0], s@.checks[k].logic)),
{
    let ghost added = Seq::new(s@.checks.len(), |k: int| (s@.checks[k].ids[0], s@.checks[k].logic));
    let ghost head = location_rule_views(rules@);
    let mut k: usize = 0;
    while k < s.checks.len()
        invariant
            added == Seq::new(s@.checks.len(), |k: int| (s@.checks[k].ids[0], s@.checks[k].logic)),
            forall|k: int| 0 <= k < s@.checks.len() ==> (#[trigger] s@.checks[k]).ids.len() > 0,
            k <= s.checks@.len(),
            location_rule_views(rules@) == head + added.take(k as int),
        decreases s.checks@.len() - k,
    {
        let c = &s.checks[k];
        proof { assert(s@.checks[k as int] == c@); }
        rules.push((c.ids[0], c.logic.copy()));
        proof {
            assert(head + added.take(k + 1) =~= (head + added.take(k as int)).push(added[k as int]));
        }
        k = k + 1;
    }
    proof { assert(added.take(k as int) =~= added); }
}

fn location_ids(m: &Vec<(crate::generate::locations::Location, i64)>) -> (res: Vec<LocationId>)
    ensures
        location_id_views(res@) == location_map_view(m@),
{
    let mut r: Vec<LocationId> = Vec::new();
    let mut i: usize = 0;
    while i < m.len()
        invariant
            i <= m@.len(),
            location_id_views(r@) == location_map_view(m@).take(i as int),
        decreases m@.len() - i,
    {
        let e = &m[i];
        r.push(LocationId { campaign: e.0.campaign.clone(), scenario: e.0.scenario.clone(), code: e.0.code, n: e.0.n, id: e.1 });
        proof { assert(location_map_view(m@).take(i + 1) =~= location_map_view(m@).take(i as int).push(location_map_view(m@)[i as int])); }
        i = i + 1;
    }
    proof { assert(location_map_view(m@).take(i as int) =~= location_map_view(m@)); }
    r
}

/// The client's tables for the cards, the data with its location ids and
/// the datapackage.
pub fn client_tables(cards: &Vec<crate::generate::card::Card>, data: &crate::generate::data::Data, p: &Datapackage) -> (res: Tables)
    requires
        checks_have_ids(campaign_views(data.campaigns@)),
    ensures
        tables_from(res, card_views(cards@), campaign_views(data.campaigns@), *p),
{
    let ghost cs = campaign_views(data.campaigns@);
    let mut items: Vec<(i64, Item)> = Vec::new();
    let mut i: usize = 0;
    while i < p.item_from_id.len()
        invariant
            i <= p.item_from_id@.len(),
            client_item_views(items@) == item_views(p.item_from_id@).take(i as int),
        decreases p.item_from_id@.len() - i,
    {
        let e = &p.item_from_id[i];
        items.push((e.0, client_item(&e.1)));
        proof { assert(item_views(p.item_from_id@).take(i + 1) =~= item_views(p.item_from_id@).take(i as int).push(item_views(p.item_from_id@)[i as int])); }
        i = i + 1;
    }
    proof { assert(item_views(p.item_from_id@).take(i as int) =~= item_views(p.item_from_id@)); }
    let mut client_cards: Vec<Card> = Vec::new();
    let mut i: usize = 0;
    while i < cards.len()
        invariant
            i <= cards@.len(),
            client_cards@.len() == i,
            forall|k: int| 0 <= k < i ==> card_agrees(#[trigger] client_cards@[k], card_views(cards@)[k]),
        decreases cards@.len() - i,
    {
        client_cards.push(client_card(&cards[i]));
        i = i + 1;
    }
    let mut campaigns: Vec<Campaign> = Vec::new();
    let mut scenarios: Vec<Scenario> = Vec::new();
    let mut path_rules: Vec<PathRule> = Vec::new();
    let mut location_rules: Vec<(i64, crate::generate::logic::LogicTerm)> = Vec::new();
    let mut ci: usize = 0;
    proof { assert(cs.take(0) =~= Seq::<CampaignView>::empty()); }
    while ci < data.campaigns.len()
        invariant
            cs == campaign_views(data.campaigns@),
            checks_have_ids(cs),
            ci <= cs.len(),
            campaigns@.len() == distinct_campaigns(cs.take(ci as int)).len(),
            forall|k: int| 0 <= k < campaigns@.len() ==> campaign_agrees(#[trigger] campaigns@[k], distinct_campaigns(cs.take(ci as int))[k]),
            scenarios@.len() == all_scenarios(cs.take(ci as int)).len(),
            forall|k: int| 0 <= k < scenarios@.len() ==> scenario_agrees(#[trigger] scenarios@[k], all_scenarios(cs.take(ci as int))[k]),
            path_rule_views(path_rules@) == all_paths(cs.take(ci as int)),
            location_rule_views(location_rules@) == all_check_rules(cs.take(ci as int)),
        decreases cs.len() - ci,
    {
        let c = &data.campaigns[ci];
        let ghost cv = c@;
        let ghost done = cs.take(ci as int);
        proof {
            assert(cs[ci as int] == cv);
            assert(cs.take(ci + 1).drop_last() =~= done);
            assert(cs.take(ci + 1).last() == cv);
            lemma_campaign_seen_take(cs, ci as int);
            assert(cv.scenarios.take(0) =~= Seq::<ScenarioView>::empty());
            assert(all_scenarios(done) + distinct_scenarios(cv.scenarios.take(0)) =~= all_scenarios(done));
            assert(all_paths(done) + scenario_paths(cv.name, cv.scenarios.take(0)) =~= all_paths(done));
            assert(all_check_rules(done) + scenario_check_rules(cv.scenarios.take(0)) =~= all_check_rules(done));
        }
        if !campaign_seen_exec(&data.campaigns, ci) {
            let mut names: Vec<String> = Vec::new();
            let mut si: usize = 0;
            while si < c.scenarios.len()
                invariant
                    cs == campaign_views(data.campaigns@),
                    checks_have_ids(cs),
                    ci < cs.len(),
                    cv == c@,
                    cv == cs[ci as int],
                    done == cs.take(ci as int),
                    si <= c.scenarios@.len(),
                    names@.len() == si,
                    forall|k: int| 0 <= k < si ==> (#[trigger] names@[k])@ == cv.scenarios[k].name,
                    scenarios@.len() == (all_scenarios(done) + distinct_scenarios(cv.scenarios.take(si as int))).len(),
                    forall|k: int| 0 <= k < scenarios@.len() ==> scenario_agrees(#[trigger] scenarios@[k], (all_scenarios(done) + distinct_scenarios(cv.scenarios.take(si as int)))[k]),
                    path_rule_views(path_rules@) == all_paths(done) + scenario_paths(cv.name, cv.scenarios.take(si as int)),
                    location_rule_views(location_rules@) == all_check_rules(done) + scenario_check_rules(cv.scenarios.take(si as int)),
                decreases c.scenarios@.len() - si,
            {
                let s = &c.scenarios[si];
                let ghost sv = s@;
                proof {
                    assert(cv.scenarios[si as int] == sv);
                    assert(cv.scenarios.take(si + 1).drop_last() =~= cv.scenarios.take(si as int));
                    assert(cv.scenarios.take(si + 1).last() == sv);
                    lemma_scenario_seen_take(cv.scenarios, si as int);
                }
                names.push(s.name.clone());
                if !scenario_seen_exec(&c.scenarios, si) {
                    proof {
                        assert forall|k: int| 0 <= k < sv.checks.len() implies (#[trigger] sv.checks[k]).ids.len() > 0 by {
                            assert(cs[ci as int].scenarios[si as int].checks[k].ids.len() > 0);
                        }
                    }
                    let ghost before = all_scenarios(done) + distinct_scenarios(cv.scenarios.take(si as int));
                    scenarios.push(client_scenario(s));
                    proof {
                        assert(all_scenarios(done) + distinct_scenarios(cv.scenarios.take(si + 1)) =~= before.push(sv));
                    }
                    let ghost pr = all_paths(done) + scenario_paths(cv.name, cv.scenarios.take(si as int));
                    push_path_rules(&mut path_rules, &c.name, s);
                    proof {
                        assert(all_paths(done) + scenario_paths(cv.name, cv.scenarios.take(si + 1))
                            =~= pr + Seq::new(sv.paths.len(), |k: int| (cv.name, sv.name, sv.paths[k])));
                    }
                    let ghost lr = all_check_rules(done) + scenario_check_rules(cv.scenarios.take(si as int));
                    push_check_rules(&mut location_rules, s);
                    proof {
                        assert(all_check_rules(done) + scenario_check_rules(cv.scenarios.take(si + 1))
                            =~= lr + Seq::new(sv.checks.len(), |k: int| (sv.checks[k].ids[0], sv.checks[k].logic)));
                    }
                }
                si = si + 1;
            }
            proof {
                assert(cv.scenarios.take(si as int) =~= cv.scenarios);
                assert(all_scenarios(cs.take(ci + 1)) == all_scenarios(done) + distinct_scenarios(cv.scenarios));
                assert(all_paths(cs.take(ci + 1)) == all_paths(done) + scenario_paths(cv.name, cv.scenarios));
                assert(all_check_rules(cs.take(ci + 1)) == all_check_rules(done) + scenario_check_rules(cv.scenarios));
                assert(distinct_campaigns(cs.take(ci + 1)) == distinct_campaigns(done).push(cv));
            }
            campaigns.push(Campaign { name: c.name.clone(), scenarios: names });
        }
        ci = ci + 1;
    }
    proof { assert(cs.take(ci as int) =~= cs); }
    let mut goal_locations: Vec<(i64, String)> = Vec::new();
    let mut i: usize = 0;
    while i < p.goal_locations.len()
        invariant
            i <= p.goal_locations@.len(),
            goal_map_view(goal_locations@) == goal_map_view(p.goal_locations@).take(i as int),
        decreases p.goal_locations@.len() - i,
    {
        let e = &p.goal_locations[i];
        goal_locations.push((e.0, e.1.clone()));
        proof { assert(goal_map_view(p.goal_locations@).take(i + 1) =~= goal_map_view(p.goal_locations@).take(i as int).push(goal_map_view(p.goal_locations@)[i as int])); }
        i = i + 1;
    }
    proof { assert(goal_map_view(p.goal_locations@).take(i as int) =~= goal_map_view(p.goal_locations@)); }
    Tables {
        items,
        cards: client_cards,
        campaigns,
        scenarios,
        clue_ids: location_ids(&p.clue_ids),
        victory_ids: location_ids(&p.victory_ids),
        path_rules,
        location_rules,
        goal_locations,
    }
}

}
