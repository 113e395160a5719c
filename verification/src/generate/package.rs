//! The datapackage: items by id, the ids of clue and victory locations,
//! the goal locations of the campaigns, and the `Id.py` listing of names
//! and ids.

use vstd::prelude::*;
use crate::cardcode::Code;
use crate::collections::{first_where, lemma_first_where, lemma_first_where_at, lemma_first_where_none};
use crate::generate::data::{Data, Campaign, Scenario};
use crate::generate::locations::{Location, LocationEntry, LocationTarget, Target, entry_views, card_for, lookup_card,
    location_requests_of, number_locations, assign_check_ids, requests_upto, numbered, request_keys, request_views,
    locations_known, ids_added, targets_exist, ids_for, lemma_requests_targets, requests_check, same_campaign, same_scenario};
use crate::generate::card::{Card, unique_name_spec};
use crate::generate::ids::{Item, ItemView, IdError, item_ids, item_views, all_items, distinct_ids, id_overflow, hashes_fit, overflows};
use crate::text::{int_text, push_str, push_i64};
use crate::generate::name_hash::{NameHash, ustr_hash};

verus! {

/// Matches a pair with key `k`.
pub open spec fn key_is<K, V>(k: K) -> spec_fn((K, V)) -> bool {
    |e: (K, V)| e.0 == k
}

/// `m` with `k` mapped to `v`: the first pair with key `k` gets the new
/// value, or the pair is appended.
pub open spec fn put<K, V>(m: Seq<(K, V)>, k: K, v: V) -> Seq<(K, V)> {
    let i = first_where(m, key_is(k));
    if i >= 0 { m.update(i, (k, v)) } else { m.push((k, v)) }
}

/// The pairs put in turn into an empty map.
pub open spec fn put_all<K, V>(ps: Seq<(K, V)>) -> Seq<(K, V)>
    decreases ps.len(),
{
    if ps.len() == 0 {
        Seq::empty()
    } else {
        put(put_all(ps.drop_last()), ps.last().0, ps.last().1)
    }
}

/// The value of a location key.
pub type LocationKey = (Seq<char>, Seq<char>, Code, i64);

impl Location {
    pub open spec fn key(self) -> LocationKey {
        (self.campaign@, self.scenario@, self.code, self.n)
    }
}

/// The clue locations among `es`, keyed, in order.
pub open spec fn clue_pairs(es: Seq<(i64, Seq<char>, Target)>) -> Seq<(LocationKey, i64)>
    decreases es.len(),
{
    if es.len() == 0 {
        Seq::empty()
    } else {
        let rest = clue_pairs(es.drop_last());
        match es.last().2 {
            Target::Clue(c, s, k, n) => rest.push(((c, s, k, n), es.last().0)),
            _ => rest,
        }
    }
}

/// The victory locations among `es`, keyed, in order.
pub open spec fn victory_pairs(es: Seq<(i64, Seq<char>, Target)>) -> Seq<(LocationKey, i64)>
    decreases es.len(),
{
    if es.len() == 0 {
        Seq::empty()
    } else {
        let rest = victory_pairs(es.drop_last());
        match es.last().2 {
            Target::Victory(c, s, k, n) => rest.push(((c, s, k, n), es.last().0)),
            _ => rest,
        }
    }
}

/// The keys and ids of a location map.
pub open spec fn location_map_view(m: Seq<(Location, i64)>) -> Seq<(LocationKey, i64)> {
    m.map_values(|e: (Location, i64)| (e.0.key(), e.1))
}

fn same_location(a: &Location, b: &Location) -> (res: bool)
    ensures
        res == (a.key() == b.key()),
{
    a.campaign == b.campaign && a.scenario == b.scenario && a.code == b.code && a.n == b.n
}

fn copy_location(l: &Location) -> (res: Location)
    ensures
        res.key() == l.key(),
{
    Location { campaign: l.campaign.clone(), scenario: l.scenario.clone(), code: l.code, n: l.n }
}

/// Maps a location to an id in a location map.
fn put_location(m: &mut Vec<(Location, i64)>, k: Location, v: i64)
    ensures
        location_map_view(final(m)@) == put(location_map_view(old(m)@), k.key(), v),
{
    let ghost mv = location_map_view(m@);
    let ghost p = key_is::<LocationKey, i64>(k.key());
    let mut i: usize = 0;
    while i < m.len()
        invariant
            mv == location_map_view(m@),
            m@ == old(m)@,
            p == key_is::<LocationKey, i64>(k.key()),
            i <= m@.len(),
            forall|j: int| 0 <= j < i ==> !p(#[trigger] mv[j]),
        decreases m@.len() - i,
    {
        if same_location(&m[i].0, &k) {
            proof {
                assert(mv[i as int] == (m@[i as int].0.key(), m@[i as int].1));
                lemma_first_where_at(mv, p, i as int);
            }
            m.set(i, (k, v));
            proof {
                assert(location_map_view(m@) =~= mv.update(i as int, (k.key(), v)));
            }
            return;
        }
        proof { assert(mv[i as int] == (m@[i as int].0.key(), m@[i as int].1)); }
        i = i + 1;
    }
    proof { lemma_first_where_none(mv, p); }
    let ghost kk = k.key();
    m.push((k, v));
    proof {
        assert(location_map_view(m@) =~= mv.push((kk, v)));
    }
}

/// The clue locations and the victory locations of `entries`, each a map
/// from location to id, the later of two same locations winning.
pub fn location_maps(entries: &Vec<LocationEntry>) -> (res: (Vec<(Location, i64)>, Vec<(Location, i64)>))
    ensures
        location_map_view(res.0@) == put_all(clue_pairs(entry_views(entries@))),
        location_map_view(res.1@) == put_all(victory_pairs(entry_views(entries@))),
{
    let ghost es = entry_views(entries@);
    let mut clues: Vec<(Location, i64)> = Vec::new();
    let mut victories: Vec<(Location, i64)> = Vec::new();
    proof {
        assert(location_map_view(clues@) =~= Seq::<(LocationKey, i64)>::empty());
        assert(location_map_view(victories@) =~= Seq::<(LocationKey, i64)>::empty());
    }
    let mut j: usize = 0;
    while j < entries.len()
        invariant
            es == entry_views(entries@),
            j <= es.len(),
            location_map_view(clues@) == put_all(clue_pairs(es.take(j as int))),
            location_map_view(victories@) == put_all(victory_pairs(es.take(j as int))),
        decreases es.len() - j,
    {
        let e = &entries[j];
        proof {
            assert(es[j as int] == e@);
            assert(es.take(j + 1).drop_last() =~= es.take(j as int));
            assert(es.take(j + 1).last() == e@);
        }
        match &e.target {
            LocationTarget::Clue(l) => {
                put_location(&mut clues, copy_location(l), e.id);
                proof {
                    let cp = clue_pairs(es.take(j as int));
                    assert(clue_pairs(es.take(j + 1)) == cp.push((l.key(), e.id)));
                    assert(cp.push((l.key(), e.id)).drop_last() =~= cp);
                    assert(victory_pairs(es.take(j + 1)) == victory_pairs(es.take(j as int)));
                }
            },
            LocationTarget::Victory(l) => {
                put_location(&mut victories, copy_location(l), e.id);
                proof {
                    let vp = victory_pairs(es.take(j as int));
                    assert(victory_pairs(es.take(j + 1)) == vp.push((l.key(), e.id)));
                    assert(vp.push((l.key(), e.id)).drop_last() =~= vp);
                    assert(clue_pairs(es.take(j + 1)) == clue_pairs(es.take(j as int)));
                }
            },
            LocationTarget::Check(_, _, _) => {
                proof {
                    assert(clue_pairs(es.take(j + 1)) == clue_pairs(es.take(j as int)));
                    assert(victory_pairs(es.take(j + 1)) == victory_pairs(es.take(j as int)));
                }
            },
        }
        j = j + 1;
    }
    proof { assert(es.take(j as int) =~= es); }
    (clues, victories)
}

/// The goals among the first `n` checks of a scenario: for each goal
/// check, its first id with the campaign's name.
pub open spec fn check_goals(cname: Seq<char>, s: Scenario, n: int) -> Seq<(i64, Seq<char>)>
    decreases n,
{
    if n <= 0 {
        Seq::empty()
    } else {
        let k = s.checks@[n - 1];
        check_goals(cname, s, n - 1) + if k.goal { seq![(k.ids@[0], cname)] } else { Seq::empty() }
    }
}

/// The goals of the first `n` scenarios of a campaign.
pub open spec fn campaign_goals(c: Campaign, n: int) -> Seq<(i64, Seq<char>)>
    decreases n,
{
    if n <= 0 {
        Seq::empty()
    } else {
        let s = c.scenarios@[n - 1];
        campaign_goals(c, n - 1) + check_goals(c.name@, s, s.checks@.len() as int)
    }
}

/// The goals of the first `n` campaigns.
pub open spec fn goals_upto(cs: Seq<Campaign>, n: int) -> Seq<(i64, Seq<char>)>
    decreases n,
{
    if n <= 0 {
        Seq::empty()
    } else {
        goals_upto(cs, n - 1) + campaign_goals(cs[n - 1], cs[n - 1].scenarios@.len() as int)
    }
}

/// Every goal check has an id.
pub open spec fn goals_have_ids(cs: Seq<Campaign>) -> bool {
    forall|cx: int, sx: int, ki: int| 0 <= cx < cs.len() && 0 <= sx < cs[cx].scenarios@.len() && 0 <= ki < cs[cx].scenarios@[sx].checks@.len()
        && (#[trigger] cs[cx].scenarios@[sx].checks@[ki]).goal ==> cs[cx].scenarios@[sx].checks@[ki].ids@.len() > 0
}

/// The ids and campaign names of a goal map.
pub open spec fn goal_map_view(m: Seq<(i64, String)>) -> Seq<(i64, Seq<char>)> {
    m.map_values(|e: (i64, String)| (e.0, e.1@))
}

fn put_goal(m: &mut Vec<(i64, String)>, k: i64, v: String)
    ensures
        goal_map_view(final(m)@) == put(goal_map_view(old(m)@), k, v@),
{
    let ghost mv = goal_map_view(m@);
    let ghost p = key_is::<i64, Seq<char>>(k);
    let mut i: usize = 0;
    while i < m.len()
        invariant
            mv == goal_map_view(m@),
            m@ == old(m)@,
            p == key_is::<i64, Seq<char>>(k),
            i <= m@.len(),
            forall|j: int| 0 <= j < i ==> !p(#[trigger] mv[j]),
        decreases m@.len() - i,
    {
        proof { assert(mv[i as int] == (m@[i as int].0, m@[i as int].1@)); }
        if m[i].0 == k {
            proof { lemma_first_where_at(mv, p, i as int); }
            let ghost vv = v@;
            m.set(i, (k, v));
            proof { assert(goal_map_view(m@) =~= mv.update(i as int, (k, vv))); }
            return;
        }
        i = i + 1;
    }
    proof { lemma_first_where_none(mv, p); }
    let ghost vv = v@;
    m.push((k, v));
    proof { assert(goal_map_view(m@) =~= mv.push((k, vv))); }
}

proof fn lemma_put_all_push<K, V>(ps: Seq<(K, V)>, x: (K, V))
    ensures
        put_all(ps.push(x)) == put(put_all(ps), x.0, x.1),
{
    assert(ps.push(x).drop_last() =~= ps);
}

fn scenario_goals(m: &mut Vec<(i64, String)>, c: &Campaign, s: &Scenario, Ghost(prev): Ghost<Seq<(i64, Seq<char>)>>)
    requires
        goal_map_view(old(m)@) == put_all(prev),
        forall|ki: int| 0 <= ki < s.checks@.len() && (#[trigger] s.checks@[ki]).goal ==> s.checks@[ki].ids@.len() > 0,
    ensures
        goal_map_view(final(m)@) == put_all(prev + check_goals(c.name@, *s, s.checks@.len() as int)),
{
    let mut ki: usize = 0;
    proof { assert(prev + check_goals(c.name@, *s, 0) =~= prev); }
    while ki < s.checks.len()
        invariant
            ki <= s.checks@.len(),
            forall|k: int| 0 <= k < s.checks@.len() && (#[trigger] s.checks@[k]).goal ==> s.checks@[k].ids@.len() > 0,
            goal_map_view(m@) == put_all(prev + check_goals(c.name@, *s, ki as int)),
        decreases s.checks@.len() - ki,
    {
        let k = &s.checks[ki];
        let ghost before = prev + check_goals(c.name@, *s, ki as int);
        if k.goal {
            put_goal(m, k.ids[0], c.name.clone());
            proof {
                lemma_put_all_push(before, (k.ids@[0], c.name@));
                assert(prev + check_goals(c.name@, *s, ki + 1) =~= before.push((k.ids@[0], c.name@)));
            }
        } else {
            proof {
                assert(prev + check_goals(c.name@, *s, ki + 1) =~= before);
            }
        }
        ki = ki + 1;
    }
}

/// The goal locations: for each goal check of each scenario of each
/// campaign, in order, its first id mapped to the campaign's name (the
/// later of two same ids winning).
pub fn goal_locations(data: &Data) -> (res: Vec<(i64, String)>)
    requires
        goals_have_ids(data.campaigns@),
    ensures
        goal_map_view(res@) == put_all(goals_upto(data.campaigns@, data.campaigns@.len() as int)),
{
    let ghost cs = data.campaigns@;
    let mut m: Vec<(i64, String)> = Vec::new();
    proof { assert(goal_map_view(m@) =~= put_all(goals_upto(cs, 0))); }
    let mut cx: usize = 0;
    while cx < data.campaigns.len()
        invariant
            cs == data.campaigns@,
            goals_have_ids(cs),
            cx <= cs.len(),
            goal_map_view(m@) == put_all(goals_upto(cs, cx as int)),
        decreases cs.len() - cx,
    {
        let c = &data.campaigns[cx];
        let ghost base = goals_upto(cs, cx as int);
        let mut sx: usize = 0;
        proof { assert(base + campaign_goals(*c, 0) =~= base); }
        while sx < c.scenarios.len()
            invariant
                cs == data.campaigns@,
                goals_have_ids(cs),
                cx < cs.len(),
                *c == cs[cx as int],
                sx <= c.scenarios@.len(),
                goal_map_view(m@) == put_all(base + campaign_goals(*c, sx as int)),
            decreases c.scenarios@.len() - sx,
        {
            let s = &c.scenarios[sx];
            proof {
                assert forall|ki: int| 0 <= ki < s.checks@.len() && (#[trigger] s.checks@[ki]).goal implies s.checks@[ki].ids@.len() > 0 by {
                    assert(cs[cx as int].scenarios@[sx as int].checks@[ki] == s.checks@[ki]);
                }
            }
            scenario_goals(&mut m, c, s, Ghost(base + campaign_goals(*c, sx as int)));
            proof {
                assert(base + campaign_goals(*c, sx + 1) =~= base + campaign_goals(*c, sx as int) + check_goals(c.name@, *s, s.checks@.len() as int));
            }
            sx = sx + 1;
        }
        proof {
            assert(goals_upto(cs, cx + 1) == base + campaign_goals(*c, c.scenarios@.len() as int));
        }
        cx = cx + 1;
    }
    m
}

/// The name an item is listed under in `Id.py`; `None` for a scenario
/// card that is not in the card list.
pub open spec fn item_name(cards: Seq<Card>, it: ItemView) -> Option<Seq<char>> {
    match it {
        ItemView::Unlock(c, u) => Some(c + " - "@ + u),
        ItemView::ScenarioUnlock(c, s) => Some(c + " - "@ + s),
        ItemView::Xp(c, x) => Some(c + " - "@ + int_text(x as int) + " XP"@),
        ItemView::ScenarioCard(c, k) => match card_for(cards, k) {
            Some(card) => Some(c + " - "@ + unique_name_spec(card@)),
            None => None,
        },
        ItemView::CampaignFiller(c, f) => Some(c + " - "@ + f),
    }
}

/// One `"name":id,` entry of a Python dict.
pub open spec fn dict_entry(name: Seq<char>, id: i64) -> Seq<char> {
    "\""@ + name + "\":"@ + int_text(id as int) + ","@
}

/// Every scenario card among the items is in the card list.
pub open spec fn item_names_known(cards: Seq<Card>, items: Seq<(i64, ItemView)>) -> bool {
    forall|j: int| 0 <= j < items.len() ==> #[trigger] item_name(cards, items[j].1) is Some
}

/// The dict entries of the items, in order.
pub open spec fn item_lines(cards: Seq<Card>, items: Seq<(i64, ItemView)>) -> Seq<char>
    decreases items.len(),
{
    if items.len() == 0 {
        Seq::empty()
    } else {
        item_lines(cards, items.drop_last()) + dict_entry(item_name(cards, items.last().1).unwrap(), items.last().0)
    }
}

/// The dict entries of the locations, in order.
pub open spec fn location_lines(es: Seq<(i64, Seq<char>, Target)>) -> Seq<char>
    decreases es.len(),
{
    if es.len() == 0 {
        Seq::empty()
    } else {
        location_lines(es.drop_last()) + dict_entry(es.last().1, es.last().0)
    }
}

/// The text of `Id.py`: the dict from item names to ids, then the dict
/// from location names to ids.
pub open spec fn id_py(cards: Seq<Card>, items: Seq<(i64, ItemView)>, es: Seq<(i64, Seq<char>, Target)>) -> Seq<char> {
    "# This file is generated as part of the compilation of the client\nitem_name_to_id={"@
        + item_lines(cards, items) + "}\nlocation_name_to_id={"@ + location_lines(es) + "}\n"@
}

fn push_dict_entry(buf: &mut String, name: &str, id: i64)
    ensures
        final(buf)@ == old(buf)@ + dict_entry(name@, id),
{
    push_str(buf, "\"");
    push_str(buf, name);
    push_str(buf, "\":");
    push_i64(buf, id);
    push_str(buf, ",");
}

/// Appends the name of an item; gives back the code of a scenario card
/// that is not in the card list.
fn push_item_name(buf: &mut String, it: &Item, cards: &Vec<Card>) -> (missing: Option<Code>)
    ensures
        missing is None <==> item_name(cards@, it@) is Some,
        missing is None ==> final(buf)@ == old(buf)@ + item_name(cards@, it@).unwrap(),
        missing matches Some(k) ==> it@ matches ItemView::ScenarioCard(_, kk) && kk == k,
{
    match it {
        Item::Unlock((c, u)) => { push_str(buf, c.as_str()); push_str(buf, " - "); push_str(buf, u.as_str()); None },
        Item::ScenarioUnlock((c, sn)) => { push_str(buf, c.as_str()); push_str(buf, " - "); push_str(buf, sn.as_str()); None },
        Item::Xp((c, x)) => { push_str(buf, c.as_str()); push_str(buf, " - "); push_i64(buf, *x); push_str(buf, " XP"); None },
        Item::ScenarioCard((c, k)) => {
            match lookup_card(cards, *k) {
                Some(i) => {
                    let name = cards[i].unique_name();
                    push_str(buf, c.as_str()); push_str(buf, " - "); push_str(buf, name.as_str());
                    None
                },
                None => Some(*k),
            }
        },
        Item::CampaignFiller((c, f)) => { push_str(buf, c.as_str()); push_str(buf, " - "); push_str(buf, f.as_str()); None },
    }
}

/// The text of `Id.py`; fails on the first scenario card that is not in
/// the card list.
pub fn id_py_text(items: &Vec<(i64, Item)>, entries: &Vec<LocationEntry>, cards: &Vec<Card>) -> (res: Result<String, IdError>)
    ensures
        match res {
            Ok(t) => t@ == id_py(cards@, item_views(items@), entry_views(entries@)),
            Err(IdError::MissingCard(k)) => exists|j: int| 0 <= j < items@.len()
                && ((#[trigger] items@[j]).1@ matches ItemView::ScenarioCard(_, kk) && kk == k) && card_for(cards@, k) is None,
            Err(_) => false,
        },
        res is Ok <==> item_names_known(cards@, item_views(items@)),
{
    let ghost iv = item_views(items@);
    let ghost es = entry_views(entries@);
    let mut t = String::new();
    push_str(&mut t, "# This file is generated as part of the compilation of the client\nitem_name_to_id={");
    let ghost head = t@;
    let mut j: usize = 0;
    proof { assert(iv.take(0) =~= Seq::<(i64, ItemView)>::empty()); }
    while j < items.len()
        invariant
            iv == item_views(items@),
            j <= iv.len(),
            t@ == head + item_lines(cards@, iv.take(j as int)),
            item_names_known(cards@, iv.take(j as int)),
        decreases iv.len() - j,
    {
        let (id, it) = (&items[j].0, &items[j].1);
        proof {
            assert(iv[j as int] == (*id, it@));
            assert(iv.take(j + 1).drop_last() =~= iv.take(j as int));
            assert(iv.take(j + 1).last() == (*id, it@));
        }
        let mut name = String::new();
        match push_item_name(&mut name, it, cards) {
            Some(k) => {
                proof {
                    assert(!(item_name(cards@, iv[j as int].1) is Some));
                }
                return Err(IdError::MissingCard(k));
            },
            None => {},
        }
        push_dict_entry(&mut t, name.as_str(), *id);
        proof {
            assert forall|q: int| 0 <= q < iv.take(j + 1).len() implies #[trigger] item_name(cards@, iv.take(j + 1)[q].1) is Some by {
                if q < j { assert(iv.take(j + 1)[q] == iv.take(j as int)[q]); }
            }
        }
        j = j + 1;
    }
    proof { assert(iv.take(j as int) =~= iv); }
    push_str(&mut t, "}\nlocation_name_to_id={");
    let ghost mid = t@;
    let mut q: usize = 0;
    proof { assert(es.take(0) =~= Seq::<(i64, Seq<char>, Target)>::empty()); }
    while q < entries.len()
        invariant
            es == entry_views(entries@),
            q <= es.len(),
            t@ == mid + location_lines(es.take(q as int)),
        decreases es.len() - q,
    {
        let e = &entries[q];
        proof {
            assert(es[q as int] == e@);
            assert(es.take(q + 1).drop_last() =~= es.take(q as int));
        }
        push_dict_entry(&mut t, e.name.as_str(), e.id);
        q = q + 1;
    }
    proof { assert(es.take(q as int) =~= es); }
    push_str(&mut t, "}\n");
    Ok(t)
}

/// The datapackage: items by id (in the order they were numbered), the
/// ids of clue and victory locations, and the goal locations.
pub struct Datapackage {
    pub item_from_id: Vec<(i64, Item)>,
    pub clue_ids: Vec<(Location, i64)>,
    pub victory_ids: Vec<(Location, i64)>,
    pub goal_locations: Vec<(i64, String)>,
}

/// The hashes `uh` and `fh` were computed from the names at their
/// places: `ur` and `fr` hold, at the same places, the records of the
/// hash calls, each with the name hashed and the hash it gave.
pub open spec fn hashes_named(cs: Seq<Campaign>, uh: Seq<Vec<u64>>, fh: Seq<Vec<u64>>, ur: Seq<Seq<NameHash>>, fr: Seq<Seq<NameHash>>) -> bool {
    &&& ur.len() == cs.len()
    &&& fr.len() == cs.len()
    &&& forall|c: int, i: int| 0 <= c < cs.len() && 0 <= i < cs[c].unlocks@.len() ==> {
        &&& (#[trigger] ur[c][i]).name() == cs[c].unlocks@[i]@
        &&& ur[c][i].hash_value() == uh[c]@[i]
    }
    &&& forall|c: int, i: int| 0 <= c < cs.len() && 0 <= i < cs[c].filler@.len() ==> {
        &&& (#[trigger] fr[c][i]).name() == cs[c].filler@[i].name@
        &&& fr[c][i].hash_value() == fh[c]@[i]
    }
}

/// The hashes of the unlock names and of the filler names of each
/// campaign, with the records of the hash calls.
fn name_hashes(data: &Data) -> (res: (Vec<Vec<u64>>, Vec<Vec<u64>>, Ghost<Seq<Seq<NameHash>>>, Ghost<Seq<Seq<NameHash>>>))
    ensures
        hashes_fit(data.campaigns@, res.0@, res.1@),
        hashes_named(data.campaigns@, res.0@, res.1@, res.2@, res.3@),
{
    let ghost cs = data.campaigns@;
    let mut uh: Vec<Vec<u64>> = Vec::new();
    let mut fh: Vec<Vec<u64>> = Vec::new();
    let ghost mut ur: Seq<Seq<NameHash>> = Seq::empty();
    let ghost mut fr: Seq<Seq<NameHash>> = Seq::empty();
    let mut cx: usize = 0;
    while cx < data.campaigns.len()
        invariant
            cs == data.campaigns@,
            cx <= cs.len(),
            uh@.len() == cx,
            fh@.len() == cx,
            ur.len() == cx,
            fr.len() == cx,
            forall|c: int| 0 <= c < cx ==> (#[trigger] uh@[c])@.len() == cs[c].unlocks@.len(),
            forall|c: int| 0 <= c < cx ==> (#[trigger] fh@[c])@.len() == cs[c].filler@.len(),
            forall|c: int, i: int| 0 <= c < cx && 0 <= i < cs[c].unlocks@.len() ==> {
                &&& (#[trigger] ur[c][i]).name() == cs[c].unlocks@[i]@
                &&& ur[c][i].hash_value() == uh@[c]@[i]
            },
            forall|c: int, i: int| 0 <= c < cx && 0 <= i < cs[c].filler@.len() ==> {
                &&& (#[trigger] fr[c][i]).name() == cs[c].filler@[i].name@
                &&& fr[c][i].hash_value() == fh@[c]@[i]
            },
        decreases cs.len() - cx,
    {
        let c = &data.campaigns[cx];
        let mut u: Vec<u64> = Vec::new();
        let ghost mut ru: Seq<NameHash> = Seq::empty();
        let mut i: usize = 0;
        while i < c.unlocks.len()
            invariant
                i <= c.unlocks@.len(),
                u@.len() == i,
                ru.len() == i,
                forall|k: int| 0 <= k < i ==> (#[trigger] ru[k]).name() == c.unlocks@[k]@ && ru[k].hash_value() == u@[k],
            decreases c.unlocks@.len() - i,
        {
            let h = ustr_hash(c.unlocks[i].as_str());
            u.push(h.get());
            proof { ru = ru.push(h); }
            i = i + 1;
        }
        let mut f: Vec<u64> = Vec::new();
        let ghost mut rf: Seq<NameHash> = Seq::empty();
        let mut i: usize = 0;
        while i < c.filler.len()
            invariant
                i <= c.filler@.len(),
                f@.len() == i,
                rf.len() == i,
                forall|k: int| 0 <= k < i ==> (#[trigger] rf[k]).name() == c.filler@[k].name@ && rf[k].hash_value() == f@[k],
            decreases c.filler@.len() - i,
        {
            let h = ustr_hash(c.filler[i].name.as_str());
            f.push(h.get());
            proof { rf = rf.push(h); }
            i = i + 1;
        }
        proof {
            assert(cs[cx as int] == *c);
        }
        uh.push(u);
        fh.push(f);
        proof {
            ur = ur.push(ru);
            fr = fr.push(rf);
        }
        cx = cx + 1;
    }
    (uh, fh, Ghost(ur), Ghost(fr))
}

/// Every check has at least one location id.
pub open spec fn all_checks_have_ids(cs: Seq<Campaign>) -> bool {
    forall|cx: int, sx: int, ki: int| 0 <= cx < cs.len() && 0 <= sx < cs[cx].scenarios@.len() && 0 <= ki < cs[cx].scenarios@[sx].checks@.len()
        ==> (#[trigger] cs[cx].scenarios@[sx].checks@[ki]).ids@.len() > 0
}

/// The numbered locations of the data.
pub open spec fn location_entries(cs: Seq<Campaign>, cards: Seq<Card>) -> Seq<(i64, Seq<char>, Target)> {
    numbered(requests_upto(cs, cards, cs.len() as int))
}

/// Ids can be given to everything in `cs` with these name hashes: item
/// ids are distinct, no counter overflows, and every card the locations
/// and item names need is in the card list.
pub open spec fn ids_fine(cs: Seq<Campaign>, cards: Seq<Card>, uh: Seq<Vec<u64>>, fh: Seq<Vec<u64>>) -> bool {
    let items = all_items(cs, uh, fh);
    &&& distinct_ids(items)
    &&& !id_overflow(cs, uh, fh)
    &&& locations_known(cs, cards)
    &&& !overflows(request_keys(requests_upto(cs, cards, cs.len() as int)))
    &&& item_names_known(cards, items)
}

/// What `generate_id_py` gives for the data `cs`, given the name hashes:
/// on success the datapackage, the text of `Id.py` and the data `new`
/// with the location ids of each check; each error with the inputs on
/// which it comes.  The items are numbered first, and a fault there is a
/// repeated id or a counter that cannot count; once they are numbered
/// without fault, the error is a card missing for a location, else a
/// location counter that cannot count, else a card missing for an item
/// name, in that order.
pub open spec fn id_outcome(cs: Seq<Campaign>, cards: Seq<Card>, uh: Seq<Vec<u64>>, fh: Seq<Vec<u64>>,
    res: Result<(Datapackage, String), IdError>, new: Seq<Campaign>) -> bool
{
    let items = all_items(cs, uh, fh);
    let es = location_entries(cs, cards);
    &&& res is Ok <==> ids_fine(cs, cards, uh, fh)
    &&& match res {
        Ok((p, t)) => {
            &&& item_views(p.item_from_id@) == items
            &&& location_map_view(p.clue_ids@) == put_all(clue_pairs(es))
            &&& location_map_view(p.victory_ids@) == put_all(victory_pairs(es))
            &&& ids_added(cs, new, es)
            &&& all_checks_have_ids(new)
            &&& goal_map_view(p.goal_locations@) == put_all(goals_upto(new, new.len() as int))
            &&& t@ == id_py(cards, items, es)
        },
        Err(e) => {
            let items_ok = distinct_ids(items) && !id_overflow(cs, uh, fh);
            let keys_overflow = overflows(request_keys(requests_upto(cs, cards, cs.len() as int)));
            &&& new == cs
            &&& match e {
                IdError::DuplicateItemId(d) => !distinct_ids(items)
                    && exists|i: int| 0 <= i < items.len() && (#[trigger] items[i]).0 == d,
                IdError::CounterOverflow => id_overflow(cs, uh, fh) || keys_overflow,
                IdError::MissingCard(k) => !locations_known(cs, cards) || !item_names_known(cards, items),
            }
            &&& !items_ok ==> !(e is MissingCard)
            &&& items_ok ==> match e {
                IdError::DuplicateItemId(_) => false,
                IdError::CounterOverflow => locations_known(cs, cards) && keys_overflow,
                IdError::MissingCard(_) => !locations_known(cs, cards) || (!keys_overflow && !item_names_known(cards, items)),
            }
        },
    }
}

/// Numbers every item and location of the data, gives each check the ids
/// of its locations, and writes the text of `Id.py`.  Item ids that rest
/// on a name's hash (unlocks and filler) hold for the hashes of this
/// process, computed from the names at their places.  An id given twice, a counter that cannot count further, or a
/// card missing from the card list is returned as an [`IdError`] rather
/// than a panic.
pub fn generate_id_py(cards: &Vec<Card>, data: &mut Data) -> (res: Result<(Datapackage, String), IdError>)
    ensures
        exists|uh: Seq<Vec<u64>>, fh: Seq<Vec<u64>>, ur: Seq<Seq<NameHash>>, fr: Seq<Seq<NameHash>>|
            hashes_fit(old(data).campaigns@, uh, fh)
            && #[trigger] hashes_named(old(data).campaigns@, uh, fh, ur, fr)
            && #[trigger] id_outcome(old(data).campaigns@, cards@, uh, fh, res, final(data).campaigns@),
{
    let ghost cs = data.campaigns@;
    let (uh, fh, Ghost(ur), Ghost(fr)) = name_hashes(data);
    proof { assert(hashes_named(cs, uh@, fh@, ur, fr)); }
    let ghost fine = distinct_ids(all_items(cs, uh@, fh@)) && !id_overflow(cs, uh@, fh@) && locations_known(cs, cards@)
        && !overflows(request_keys(requests_upto(cs, cards@, cs.len() as int))) && item_names_known(cards@, all_items(cs, uh@, fh@));
    let items = match item_ids(data, &uh, &fh) {
        Ok(v) => v,
        Err(e) => {
            proof { assert(id_outcome(cs, cards@, uh@, fh@, Err(e), data.campaigns@)); }
            return Err(e);
        },
    };
    let reqs = match location_requests_of(data, cards) {
        Ok(v) => v,
        Err(e) => {
            proof { assert(id_outcome(cs, cards@, uh@, fh@, Err(e), data.campaigns@)); }
            return Err(e);
        },
    };
    let entries = match number_locations(&reqs) {
        Ok(v) => v,
        Err(e) => {
            proof { assert(id_outcome(cs, cards@, uh@, fh@, Err(e), data.campaigns@)); }
            return Err(e);
        },
    };
    let text = match id_py_text(&items, &entries, cards) {
        Ok(t) => t,
        Err(e) => {
            proof { assert(id_outcome(cs, cards@, uh@, fh@, Err(e), data.campaigns@)); }
            return Err(e);
        },
    };
    let ghost es = entry_views(entries@);
    proof {
        lemma_requests_targets(cs, cards@, cs.len() as int);
        let rs = requests_upto(cs, cards@, cs.len() as int);
        assert forall|j: int| 0 <= j < es.len() implies match (#[trigger] es[j]).2 {
            Target::Check(cx, sx, ki) => 0 <= cx < cs.len() && 0 <= sx < cs[cx].scenarios@.len() && 0 <= ki < cs[cx].scenarios@[sx].checks@.len(),
            _ => true,
        } by {
            assert(es[j].2 == rs[j].target);
        }
    }
    assign_check_ids(data, &entries);
    let (clue_ids, victory_ids) = location_maps(&entries);
    proof {
        let new = data.campaigns@;
        let rs = requests_upto(cs, cards@, cs.len() as int);
        assert forall|cx: int, sx: int, ki: int| 0 <= cx < new.len() && 0 <= sx < new[cx].scenarios@.len() && 0 <= ki < new[cx].scenarios@[sx].checks@.len()
            implies (#[trigger] new[cx].scenarios@[sx].checks@[ki]).ids@.len() > 0 by {
            assert(same_campaign(cs[cx], new[cx]));
            assert(same_scenario(cs[cx].scenarios@[sx], new[cx].scenarios@[sx]));
            assert(requests_check(rs, cx, sx, ki));
            let j = choose|j: int| 0 <= j < rs.len() && (#[trigger] rs[j]).target == Target::Check(cx, sx, ki);
            assert(es[j].2 == Target::Check(cx, sx, ki));
            let p = |e: (i64, Seq<char>, Target)| e.2 == Target::Check(cx, sx, ki);
            es.lemma_filter_contains(p, j);
            assert(ids_for(es, cx, sx, ki).len() > 0);
        }
    }
    let goal_locations = goal_locations(data);
    let p = Datapackage { item_from_id: items, clue_ids, victory_ids, goal_locations };
    proof { assert(id_outcome(cs, cards@, uh@, fh@, Ok((p, text)), data.campaigns@)); }
    Ok((p, text))
}

} // verus!
