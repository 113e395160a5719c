//! The Rust source of the client's lookup functions: each a `match` with
//! one arm per item, location, card, campaign, scenario, path or check.

use vstd::prelude::*;
use crate::cardcode::Code;
use crate::generate::card::{Card, CardView, unique_name_spec};
use crate::generate::data::{Data, Campaign, Scenario, Lock, Path, Check, CampaignView, ScenarioView, LockView, PathView, CheckView, campaign_views, scenario_views,
    campaign_seen, scenario_seen, campaign_seen_exec, scenario_seen_exec, lemma_campaign_seen_take, lemma_scenario_seen_take};
use crate::text::{join_strings, views};
use crate::generate::ids::{Item, ItemView, item_views, code_int};
use crate::generate::locations::Location;
use crate::generate::package::{LocationKey, location_map_view, goal_map_view};
use crate::generate::logic::rust_expr;
use crate::text::{int_text, push_str, push_i64, push_usize, join};

verus! {

/// The texts one after the other.
pub open spec fn concat(parts: Seq<Seq<char>>) -> Seq<char>
    decreases parts.len(),
{
    if parts.len() == 0 {
        Seq::empty()
    } else {
        concat(parts.drop_last()) + parts.last()
    }
}

/// `"text"`: the text in double quotes.
pub open spec fn quoted(s: Seq<char>) -> Seq<char> {
    "\""@ + s + "\""@
}

/// The closing lines of a lookup function.
pub open spec fn match_end() -> Seq<char> {
    "    _ => None\n  }\n}\n\n"@
}

/// Decimal text of a code's integer.
pub open spec fn code_text_int(k: Code) -> Seq<char> {
    int_text(code_int(k) as int)
}

/// The arm of `item_from_id` for an item.
pub open spec fn item_arm(id: i64, it: ItemView) -> Seq<char> {
    "    "@ + int_text(id as int) + " => Some(Item::"@ + match it {
        ItemView::Unlock(c, u) => "Unlock(("@ + quoted(c) + ", "@ + quoted(u) + "))),\n"@,
        ItemView::ScenarioUnlock(c, s) => "ScenarioUnlock(("@ + quoted(c) + ", "@ + quoted(s) + "))),\n"@,
        ItemView::Xp(c, x) => "Xp(("@ + quoted(c) + ", "@ + int_text(x as int) + "))),\n"@,
        ItemView::ScenarioCard(c, k) => "ScenarioCard(("@ + quoted(c) + ", Code::from("@ + code_text_int(k) + ")))),\n"@,
        ItemView::CampaignFiller(c, f) => "CampaignFiller(("@ + quoted(c) + ", "@ + quoted(f) + "))),\n"@,
    }
}

/// The source of `item_from_id`.
pub open spec fn item_from_id_text(items: Seq<(i64, ItemView)>) -> Seq<char> {
    "pub fn item_from_id(id: i64) -> Option<Item> {\n  match id {\n"@
        + concat(Seq::new(items.len(), |k: int| item_arm(items[k].0, items[k].1))) + match_end()
}

pub proof fn lemma_concat_push(parts: Seq<Seq<char>>, x: Seq<char>)
    ensures
        concat(parts.push(x)) == concat(parts) + x,
{
    assert(parts.push(x).drop_last() =~= parts);
}

fn push_quoted(buf: &mut String, s: &str)
    ensures
        final(buf)@ == old(buf)@ + quoted(s@),
{
    push_str(buf, "\"");
    push_str(buf, s);
    push_str(buf, "\"");
}

/// Appends the source of `item_from_id`: one arm per item.
pub fn push_item_from_id(buf: &mut String, items: &Vec<(i64, Item)>)
    ensures
        final(buf)@ == old(buf)@ + item_from_id_text(item_views(items@)),
{
    let ghost iv = item_views(items@);
    let ghost arms = Seq::new(iv.len(), |k: int| item_arm(iv[k].0, iv[k].1));
    push_str(buf, "pub fn item_from_id(id: i64) -> Option<Item> {\n  match id {\n");
    let ghost head = buf@;
    let mut k: usize = 0;
    assert(arms.take(0) =~= Seq::<Seq<char>>::empty());
    while k < items.len()
        invariant
            iv == item_views(items@),
            arms == Seq::new(iv.len(), |k: int| item_arm(iv[k].0, iv[k].1)),
            k <= iv.len(),
            buf@ == head + concat(arms.take(k as int)),
        decreases iv.len() - k,
    {
        let ghost before = buf@;
        let id = items[k].0;
        push_str(buf, "    ");
        push_i64(buf, id);
        push_str(buf, " => Some(Item::");
        match &items[k].1 {
            Item::Unlock((c, u)) => {
                push_str(buf, "Unlock((");
                push_quoted(buf, c.as_str());
                push_str(buf, ", ");
                push_quoted(buf, u.as_str());
                push_str(buf, "))),\n");
            },
            Item::ScenarioUnlock((c, s)) => {
                push_str(buf, "ScenarioUnlock((");
                push_quoted(buf, c.as_str());
                push_str(buf, ", ");
                push_quoted(buf, s.as_str());
                push_str(buf, "))),\n");
            },
            Item::Xp((c, x)) => {
                push_str(buf, "Xp((");
                push_quoted(buf, c.as_str());
                push_str(buf, ", ");
                push_i64(buf, *x);
                push_str(buf, "))),\n");
            },
            Item::ScenarioCard((c, code)) => {
                push_str(buf, "ScenarioCard((");
                push_quoted(buf, c.as_str());
                push_str(buf, ", Code::from(");
                push_i64(buf, code.i64());
                push_str(buf, ")))),\n");
            },
            Item::CampaignFiller((c, f)) => {
                push_str(buf, "CampaignFiller((");
                push_quoted(buf, c.as_str());
                push_str(buf, ", ");
                push_quoted(buf, f.as_str());
                push_str(buf, "))),\n");
            },
        }
        proof {
            assert(iv[k as int] == (id, items@[k as int].1@));
            assert(buf@ =~= before + item_arm(id, items@[k as int].1@));
            assert(arms.take(k + 1) =~= arms.take(k as int).push(arms[k as int]));
            lemma_concat_push(arms.take(k as int), arms[k as int]);
        }
        k = k + 1;
    }
    assert(arms.take(k as int) =~= arms);
    push_str(buf, "    _ => None\n  }\n}\n\n");
}

/// The arm of a location-id lookup for a location.
pub open spec fn location_arm(k: LocationKey, id: i64) -> Seq<char> {
    "    ("@ + quoted(k.0) + ", "@ + quoted(k.1) + ", "@ + code_text_int(k.2) + ", "@ + int_text(k.3 as int)
        + ") => Some("@ + int_text(id as int) + "),\n"@
}

/// The source of a location-id lookup named `name`.
pub open spec fn location_ids_text(name: Seq<char>, m: Seq<(LocationKey, i64)>) -> Seq<char> {
    "pub fn "@ + name + "(campaign: &str, scenario: &str, code: Code, n: i64) -> Option<i64> {\n  match (campaign, scenario, code.i64(), n) {\n"@
        + concat(Seq::new(m.len(), |k: int| location_arm(m[k].0, m[k].1))) + match_end()
}

fn push_location_ids(buf: &mut String, name: &str, m: &Vec<(Location, i64)>)
    ensures
        final(buf)@ == old(buf)@ + location_ids_text(name@, location_map_view(m@)),
{
    let ghost mv = location_map_view(m@);
    let ghost arms = Seq::new(mv.len(), |k: int| location_arm(mv[k].0, mv[k].1));
    push_str(buf, "pub fn ");
    push_str(buf, name);
    push_str(buf, "(campaign: &str, scenario: &str, code: Code, n: i64) -> Option<i64> {\n  match (campaign, scenario, code.i64(), n) {\n");
    let ghost head = buf@;
    let mut k: usize = 0;
    assert(arms.take(0) =~= Seq::<Seq<char>>::empty());
    while k < m.len()
        invariant
            mv == location_map_view(m@),
            arms == Seq::new(mv.len(), |k: int| location_arm(mv[k].0, mv[k].1)),
            k <= mv.len(),
            buf@ == head + concat(arms.take(k as int)),
        decreases mv.len() - k,
    {
        let ghost before = buf@;
        let l = &m[k].0;
        push_str(buf, "    (");
        push_quoted(buf, l.campaign.as_str());
        push_str(buf, ", ");
        push_quoted(buf, l.scenario.as_str());
        push_str(buf, ", ");
        push_i64(buf, l.code.i64());
        push_str(buf, ", ");
        push_i64(buf, l.n);
        push_str(buf, ") => Some(");
        push_i64(buf, m[k].1);
        push_str(buf, "),\n");
        proof {
            assert(mv[k as int] == (l.key(), m@[k as int].1));
            assert(buf@ =~= before + location_arm(l.key(), m@[k as int].1));
            assert(arms.take(k + 1) =~= arms.take(k as int).push(arms[k as int]));
            lemma_concat_push(arms.take(k as int), arms[k as int]);
        }
        k = k + 1;
    }
    assert(arms.take(k as int) =~= arms);
    push_str(buf, "    _ => None\n  }\n}\n\n");
}

/// Appends the source of `get_clue_id`: one arm per clue location.
pub fn push_get_clue_id(buf: &mut String, clue_ids: &Vec<(Location, i64)>)
    ensures
        final(buf)@ == old(buf)@ + location_ids_text("get_clue_id"@, location_map_view(clue_ids@)),
{
    push_location_ids(buf, "get_clue_id", clue_ids);
}

/// Appends the source of `get_victory_id`: one arm per victory location.
pub fn push_get_victory_id(buf: &mut String, victory_ids: &Vec<(Location, i64)>)
    ensures
        final(buf)@ == old(buf)@ + location_ids_text("get_victory_id"@, location_map_view(victory_ids@)),
{
    push_location_ids(buf, "get_victory_id", victory_ids);
}

/// The arm of `is_goal_location` for a goal.
pub open spec fn goal_arm(id: i64, campaign: Seq<char>) -> Seq<char> {
    "    "@ + int_text(id as int) + " => Some("@ + quoted(campaign) + "),\n"@
}

/// The source of `is_goal_location`.
pub open spec fn goal_text(m: Seq<(i64, Seq<char>)>) -> Seq<char> {
    "pub fn is_goal_location(first_id: i64) -> Option<&'static str> {\n  match first_id {\n"@
        + concat(Seq::new(m.len(), |k: int| goal_arm(m[k].0, m[k].1))) + match_end()
}

/// Appends the source of `is_goal_location`: one arm per goal.
pub fn push_is_goal_location(buf: &mut String, goals: &Vec<(i64, String)>)
    ensures
        final(buf)@ == old(buf)@ + goal_text(goal_map_view(goals@)),
{
    let ghost mv = goal_map_view(goals@);
    let ghost arms = Seq::new(mv.len(), |k: int| goal_arm(mv[k].0, mv[k].1));
    push_str(buf, "pub fn is_goal_location(first_id: i64) -> Option<&'static str> {\n  match first_id {\n");
    let ghost head = buf@;
    let mut k: usize = 0;
    assert(arms.take(0) =~= Seq::<Seq<char>>::empty());
    while k < goals.len()
        invariant
            mv == goal_map_view(goals@),
            arms == Seq::new(mv.len(), |k: int| goal_arm(mv[k].0, mv[k].1)),
            k <= mv.len(),
            buf@ == head + concat(arms.take(k as int)),
        decreases mv.len() - k,
    {
        let ghost before = buf@;
        push_str(buf, "    ");
        push_i64(buf, goals[k].0);
        push_str(buf, " => Some(");
        push_quoted(buf, goals[k].1.as_str());
        push_str(buf, "),\n");
        proof {
            assert(mv[k as int] == (goals@[k as int].0, goals@[k as int].1@));
            assert(buf@ =~= before + goal_arm(goals@[k as int].0, goals@[k as int].1@));
            assert(arms.take(k + 1) =~= arms.take(k as int).push(arms[k as int]));
            lemma_concat_push(arms.take(k as int), arms[k as int]);
        }
        k = k + 1;
    }
    assert(arms.take(k as int) =~= arms);
    push_str(buf, "    _ => None\n  }\n}\n\n");
}

/// `true` or `false`.
pub open spec fn bool_text(b: bool) -> Seq<char> {
    if b { "true"@ } else { "false"@ }
}

/// The arm of `get_card` for a card.
pub open spec fn card_arm(c: CardView) -> Seq<char> {
    "    "@ + code_text_int(c.code) + " => Some(Card {code: Code::from("@ + code_text_int(c.code) + "), name: "@
        + quoted(unique_name_spec(c)) + ", image: "@
        + match c.image { Some(i) => "Some("@ + quoted(i) + ")"@, None => "None"@ }
        + ", clues: "@ + int_text(c.clues as int) + ", victory: "@ + int_text(c.victory as int)
        + ", unique: "@ + bool_text(c.unique) + "}),\n"@
}

/// The source of `get_card`.
pub open spec fn get_card_text(cards: Seq<CardView>) -> Seq<char> {
    "pub fn get_card(code: Code) -> Option<Card> {\n  match code.i64() {\n"@
        + concat(Seq::new(cards.len(), |k: int| card_arm(cards[k]))) + match_end()
}

fn push_image(buf: &mut String, image: &Option<String>)
    ensures
        final(buf)@ == old(buf)@ + match *image { Some(i) => "Some("@ + quoted(i@) + ")"@, None => "None"@ },
{
    match image {
        Some(i) => {
            push_str(buf, "Some(");
            push_quoted(buf, i.as_str());
            push_str(buf, ")");
        },
        None => { push_str(buf, "None"); },
    }
}

fn push_card_arm(buf: &mut String, c: &Card)
    ensures
        final(buf)@ == old(buf)@ + card_arm(c@),
{
    let ghost before = buf@;
    push_str(buf, "    ");
    push_i64(buf, c.code.i64());
    push_str(buf, " => Some(Card {code: Code::from(");
    push_i64(buf, c.code.i64());
    push_str(buf, "), name: ");
    let name = c.unique_name();
    push_quoted(buf, name.as_str());
    push_str(buf, ", image: ");
    let ghost mid = buf@;
    push_image(buf, &c.image);
    push_str(buf, ", clues: ");
    push_i64(buf, c.clues);
    push_str(buf, ", victory: ");
    push_i64(buf, c.victory);
    push_str(buf, ", unique: ");
    if c.unique { push_str(buf, "true"); } else { push_str(buf, "false"); }
    push_str(buf, "}),\n");
    proof {
        assert(c@.image == match c.image { Some(i) => Some(i@), None => None::<Seq<char>> });
        assert(buf@ =~= before + card_arm(c@));
    }
}

/// Appends the source of `get_card`: one arm per card.
pub fn push_get_card(buf: &mut String, cards: &Vec<Card>)
    ensures
        final(buf)@ == old(buf)@ + get_card_text(crate::generate::card::card_views(cards@)),
{
    let ghost cv = crate::generate::card::card_views(cards@);
    let ghost arms = Seq::new(cv.len(), |k: int| card_arm(cv[k]));
    push_str(buf, "pub fn get_card(code: Code) -> Option<Card> {\n  match code.i64() {\n");
    let ghost head = buf@;
    let mut k: usize = 0;
    assert(arms.take(0) =~= Seq::<Seq<char>>::empty());
    while k < cards.len()
        invariant
            cv == crate::generate::card::card_views(cards@),
            arms == Seq::new(cv.len(), |k: int| card_arm(cv[k])),
            k <= cv.len(),
            buf@ == head + concat(arms.take(k as int)),
        decreases cv.len() - k,
    {
        let ghost before = buf@;
        let c = &cards[k];
        push_card_arm(buf, c);
        proof {
            assert(cv[k as int] == c@);
            assert(buf@ =~= before + card_arm(c@));
            assert(arms.take(k + 1) =~= arms.take(k as int).push(arms[k as int]));
            lemma_concat_push(arms.take(k as int), arms[k as int]);
        }
        k = k + 1;
    }
    assert(arms.take(k as int) =~= arms);
    push_str(buf, "    _ => None\n  }\n}\n\n");
}

/// `const NAME: [TYPE; N] = [elements, comma-separated];`
pub open spec fn array_decl(name: Seq<char>, ty: Seq<char>, elems: Seq<Seq<char>>) -> Seq<char> {
    "const "@ + name + ": ["@ + ty + "; "@ + int_text(elems.len() as int) + "] = ["@ + join(elems, ","@) + "];"@
}

fn array_decl_exec(name: &str, ty: &str, elems: &Vec<String>) -> (res: String)
    ensures
        res@ == array_decl(name@, ty@, views(elems@)),
{
    let mut t = String::new();
    push_str(&mut t, "const ");
    push_str(&mut t, name);
    push_str(&mut t, ": [");
    push_str(&mut t, ty);
    push_str(&mut t, "; ");
    push_usize(&mut t, elems.len());
    push_str(&mut t, "] = [");
    let j = join_strings(elems, ",");
    push_str(&mut t, j.as_str());
    push_str(&mut t, "];");
    proof { assert(views(elems@).len() == elems@.len()); }
    t
}

/// The name of the array of scenario names of a campaign.
pub open spec fn campaign_array_name(i: i64) -> Seq<char> {
    "CAMPAIGN_"@ + int_text(i as int) + "_SCENARIOS"@
}

/// The array of a campaign's scenario names.
pub open spec fn campaign_array(c: CampaignView) -> Seq<char> {
    array_decl(campaign_array_name(c.i), "&str"@, Seq::new(c.scenarios.len(), |k: int| quoted(c.scenarios[k].name)))
}

/// The arm of `get_campaign` for a campaign.
pub open spec fn campaign_arm(c: CampaignView) -> Seq<char> {
    "    "@ + quoted(c.name) + " => Some(Campaign {name: "@ + quoted(c.name) + ", scenarios: &"@ + campaign_array_name(c.i) + "}),\n"@
}

/// The end of a lookup function followed by its arrays.
pub open spec fn match_end_with(arrays: Seq<Seq<char>>) -> Seq<char> {
    "    _ => None\n  }\n}\n"@ + join(arrays, "\n"@) + "\n"@
}

/// The arms of `get_campaign`, in order: a campaign whose name came
/// before gives no second arm.
pub open spec fn campaign_arms(cs: Seq<CampaignView>) -> Seq<Seq<char>> {
    Seq::new(cs.len(), |k: int| if campaign_seen(cs, k) { Seq::empty() } else { campaign_arm(cs[k]) })
}

/// The arrays of scenario names, one per campaign name, in order.
pub open spec fn campaign_arrays(cs: Seq<CampaignView>) -> Seq<Seq<char>>
    decreases cs.len(),
{
    if cs.len() == 0 {
        Seq::empty()
    } else if campaign_seen(cs, cs.len() - 1) {
        campaign_arrays(cs.drop_last())
    } else {
        campaign_arrays(cs.drop_last()).push(campaign_array(cs.last()))
    }
}

/// The source of `get_campaign` and the arrays it refers to.
pub open spec fn get_campaign_text(cs: Seq<CampaignView>) -> Seq<char> {
    "pub fn get_campaign(campaign: &str) -> Option<Campaign> {\n  match campaign {\n"@
        + concat(campaign_arms(cs))
        + match_end_with(campaign_arrays(cs))
}

fn push_i64_string(t: &mut String, n: i64)
    ensures
        final(t)@ == old(t)@ + int_text(n as int),
{
    push_i64(t, n);
}

fn quoted_string(s: &str) -> (res: String)
    ensures
        res@ == quoted(s@),
{
    let mut t = String::new();
    push_quoted(&mut t, s);
    t
}

fn campaign_array_exec(c: &Campaign) -> (res: String)
    ensures
        res@ == campaign_array(c@),
{
    let mut name = String::new();
    push_str(&mut name, "CAMPAIGN_");
    push_i64(&mut name, c.i);
    push_str(&mut name, "_SCENARIOS");
    let mut elems: Vec<String> = Vec::new();
    let ghost target = Seq::new(c@.scenarios.len(), |k: int| quoted(c@.scenarios[k].name));
    let mut k: usize = 0;
    while k < c.scenarios.len()
        invariant
            k <= c.scenarios@.len(),
            target == Seq::new(c@.scenarios.len(), |k: int| quoted(c@.scenarios[k].name)),
            views(elems@) == target.take(k as int),
        decreases c.scenarios@.len() - k,
    {
        let q = quoted_string(c.scenarios[k].name.as_str());
        proof { assert(c@.scenarios[k as int] == c.scenarios@[k as int]@); }
        let ghost before = elems@;
        elems.push(q);
        proof {
            assert(views(elems@) =~= views(before).push(q@));
            assert(target[k as int] == q@);
            assert(views(elems@) =~= target.take(k + 1));
        }
        k = k + 1;
    }
    proof { assert(target.take(k as int) =~= target); }
    array_decl_exec(name.as_str(), "&str", &elems)
}

/// Appends the source of `get_campaign`: one arm per campaign, then the
/// arrays of their scenario names.
pub fn push_get_campaign(buf: &mut String, data: &Data)
    ensures
        final(buf)@ == old(buf)@ + get_campaign_text(campaign_views(data.campaigns@)),
{
    let ghost cs = campaign_views(data.campaigns@);
    let ghost arms = campaign_arms(cs);
    push_str(buf, "pub fn get_campaign(campaign: &str) -> Option<Campaign> {\n  match campaign {\n");
    let ghost head = buf@;
    let mut arrays: Vec<String> = Vec::new();
    let mut k: usize = 0;
    assert(arms.take(0) =~= Seq::<Seq<char>>::empty());
    assert(cs.take(0) =~= Seq::<CampaignView>::empty());
    assert(views(arrays@) =~= campaign_arrays(cs.take(0)));
    while k < data.campaigns.len()
        invariant
            cs == campaign_views(data.campaigns@),
            arms == campaign_arms(cs),
            k <= cs.len(),
            buf@ == head + concat(arms.take(k as int)),
            views(arrays@) == campaign_arrays(cs.take(k as int)),
        decreases cs.len() - k,
    {
        let c = &data.campaigns[k];
        let ghost upto = cs.take(k + 1);
        proof {
            assert(cs[k as int] == c@);
            assert(upto.drop_last() =~= cs.take(k as int));
            assert(upto.last() == c@);
            lemma_campaign_seen_take(cs, k as int);
            assert(arms.take(k + 1) =~= arms.take(k as int).push(arms[k as int]));
        }
        if campaign_seen_exec(&data.campaigns, k) {
            proof {
                lemma_concat_push(arms.take(k as int), Seq::<char>::empty());
                assert(concat(arms.take(k as int)) + Seq::<char>::empty() =~= concat(arms.take(k as int)));
            }
        } else {
            let ghost before = buf@;
            push_str(buf, "    ");
            push_quoted(buf, c.name.as_str());
            push_str(buf, " => Some(Campaign {name: ");
            push_quoted(buf, c.name.as_str());
            push_str(buf, ", scenarios: &");
            push_str(buf, "CAMPAIGN_");
            push_i64(buf, c.i);
            push_str(buf, "_SCENARIOS");
            push_str(buf, "}),\n");
            let a = campaign_array_exec(c);
            let ghost before_a = arrays@;
            arrays.push(a);
            proof {
                assert(buf@ =~= before + campaign_arm(c@));
                lemma_concat_push(arms.take(k as int), arms[k as int]);
                assert(views(arrays@) =~= views(before_a).push(a@));
            }
        }
        k = k + 1;
    }
    assert(arms.take(k as int) =~= arms);
    assert(cs.take(k as int) =~= cs);
    push_str(buf, "    _ => None\n  }\n}\n");
    let j = join_strings(&arrays, "\n");
    push_str(buf, j.as_str());
    push_str(buf, "\n");
}

/// The prefix of the array names of a scenario.
pub open spec fn scenario_prefix(ci: i64, si: i64) -> Seq<char> {
    "CAMPAIGN_"@ + int_text(ci as int) + "_SCENARIO_"@ + int_text(si as int)
}

/// `Code::from(n)` for a code.
pub open spec fn code_elem(k: Code) -> Seq<char> {
    "Code::from("@ + code_text_int(k) + ")"@
}

pub open spec fn lock_elem(l: LockView) -> Seq<char> {
    "Lock {name: "@ + quoted(l.name) + ", rule: "@ + quoted(l.rule) + ", neg_rule: "@ + quoted(l.neg_rule) + "}"@
}

pub open spec fn path_elem(p: PathView) -> Seq<char> {
    "Path {from: "@ + code_elem(p.from) + ", to: "@ + code_elem(p.to) + "}"@
}

pub open spec fn check_elem(k: CheckView) -> Seq<char> {
    "Check {code: "@ + code_elem(k.code) + ", description: "@
        + quoted(if k.description.len() == 0 { k.name } else { k.description })
        + ", count: "@ + int_text(k.count as int) + ", victory: "@ + int_text(k.victory as int)
        + ", ids: &["@ + join(Seq::new(k.ids.len(), |q: int| int_text(k.ids[q] as int)), ","@) + "]}"@
}

/// The five arrays of a scenario: locks, locations, starting locations,
/// paths and checks.
pub open spec fn scenario_arrays(ci: i64, s: ScenarioView) -> Seq<Seq<char>> {
    let pre = scenario_prefix(ci, s.i);
    seq![
        array_decl(pre + "_LOCKS"@, "Lock"@, Seq::new(s.locks.len(), |k: int| lock_elem(s.locks[k]))),
        array_decl(pre + "_LOCATIONS"@, "Code"@, Seq::new(s.locations.len(), |k: int| code_elem(s.locations[k]))),
        array_decl(pre + "_BEGIN"@, "Code"@, Seq::new(s.begin.len(), |k: int| code_elem(s.begin[k]))),
        array_decl(pre + "_PATHS"@, "Path"@, Seq::new(s.paths.len(), |k: int| path_elem(s.paths[k]))),
        array_decl(pre + "_CHECKS"@, "Check"@, Seq::new(s.checks.len(), |k: int| check_elem(s.checks[k]))),
    ]
}

/// The arm of `get_scenario` for a scenario of the campaign numbered `ci`.
pub open spec fn scenario_arm(ci: i64, s: ScenarioView) -> Seq<char> {
    let pre = scenario_prefix(ci, s.i);
    "    "@ + quoted(s.name) + " => Some(Scenario {name: "@ + quoted(s.name) + ", always: "@ + quoted(s.always)
        + ", locks: &"@ + pre + "_LOCKS"@ + ", locations: &"@ + pre + "_LOCATIONS"@ + ", begin: &"@ + pre + "_BEGIN"@
        + ", paths: &"@ + pre + "_PATHS"@ + ", checks: &"@ + pre + "_CHECKS"@ + "}),\n"@
}

/// The arms of `get_scenario` for the scenarios of a campaign: a scenario
/// whose name came before gives no second arm.
pub open spec fn campaign_scenario_arms(c: CampaignView) -> Seq<Seq<char>> {
    Seq::new(
        c.scenarios.len(),
        |k: int| if scenario_seen(c.scenarios, k) { Seq::empty() } else { scenario_arm(c.i, c.scenarios[k]) },
    )
}

/// The arms of `get_scenario` for the scenarios of the campaigns, in
/// order, each campaign name once.
pub open spec fn scenario_arms(cs: Seq<CampaignView>) -> Seq<Seq<char>>
    decreases cs.len(),
{
    if cs.len() == 0 {
        Seq::empty()
    } else if campaign_seen(cs, cs.len() - 1) {
        scenario_arms(cs.drop_last())
    } else {
        scenario_arms(cs.drop_last()) + campaign_scenario_arms(cs.last())
    }
}

/// The arrays of the scenarios of the campaigns, in order, each campaign
/// name once.
pub open spec fn scenario_arrays_all(cs: Seq<CampaignView>) -> Seq<Seq<char>>
    decreases cs.len(),
{
    if cs.len() == 0 {
        Seq::empty()
    } else if campaign_seen(cs, cs.len() - 1) {
        scenario_arrays_all(cs.drop_last())
    } else {
        let c = cs.last();
        scenario_arrays_all(cs.drop_last()) + campaign_scenario_arrays(c.i, c.scenarios)
    }
}

/// The arrays of some scenarios of the campaign numbered `ci`, in order,
/// each scenario name once.
pub open spec fn campaign_scenario_arrays(ci: i64, ss: Seq<ScenarioView>) -> Seq<Seq<char>>
    decreases ss.len(),
{
    if ss.len() == 0 {
        Seq::empty()
    } else if scenario_seen(ss, ss.len() - 1) {
        campaign_scenario_arrays(ci, ss.drop_last())
    } else {
        campaign_scenario_arrays(ci, ss.drop_last()) + scenario_arrays(ci, ss.last())
    }
}

/// The source of `get_scenario` and the arrays it refers to.
pub open spec fn get_scenario_text(cs: Seq<CampaignView>) -> Seq<char> {
    "pub fn get_scenario(scenario: &str) -> Option<Scenario> {\n  match scenario {\n"@
        + concat(scenario_arms(cs)) + match_end_with(scenario_arrays_all(cs))
}

fn prefix_exec(ci: i64, si: i64) -> (res: String)
    ensures
        res@ == scenario_prefix(ci, si),
{
    let mut t = String::new();
    push_str(&mut t, "CAMPAIGN_");
    push_i64(&mut t, ci);
    push_str(&mut t, "_SCENARIO_");
    push_i64(&mut t, si);
    t
}

fn with_suffix(pre: &String, suffix: &str) -> (res: String)
    ensures
        res@ == pre@ + suffix@,
{
    let mut t = pre.clone();
    push_str(&mut t, suffix);
    t
}

fn code_elem_exec(k: Code) -> (res: String)
    ensures
        res@ == code_elem(k),
{
    let mut t = String::new();
    push_str(&mut t, "Code::from(");
    push_i64(&mut t, k.i64());
    push_str(&mut t, ")");
    t
}

fn code_elems(v: &Vec<Code>) -> (res: Vec<String>)
    ensures
        views(res@) == Seq::new(v@.len(), |k: int| code_elem(v@[k])),
{
    let ghost target = Seq::new(v@.len(), |k: int| code_elem(v@[k]));
    let mut out: Vec<String> = Vec::new();
    let mut k: usize = 0;
    while k < v.len()
        invariant
            k <= v@.len(),
            target == Seq::new(v@.len(), |k: int| code_elem(v@[k])),
            views(out@) == target.take(k as int),
        decreases v@.len() - k,
    {
        let e = code_elem_exec(v[k]);
        let ghost before = out@;
        out.push(e);
        proof {
            assert(views(out@) =~= views(before).push(e@));
            assert(views(out@) =~= target.take(k + 1));
        }
        k = k + 1;
    }
    assert(target.take(k as int) =~= target);
    out
}

fn lock_elems(v: &Vec<Lock>) -> (res: Vec<String>)
    ensures
        views(res@) == Seq::new(v@.len(), |k: int| lock_elem(v@[k]@)),
{
    let ghost target = Seq::new(v@.len(), |k: int| lock_elem(v@[k]@));
    let mut out: Vec<String> = Vec::new();
    let mut k: usize = 0;
    while k < v.len()
        invariant
            k <= v@.len(),
            target == Seq::new(v@.len(), |k: int| lock_elem(v@[k]@)),
            views(out@) == target.take(k as int),
        decreases v@.len() - k,
    {
        let l = &v[k];
        let mut e = String::new();
        push_str(&mut e, "Lock {name: ");
        push_quoted(&mut e, l.name.as_str());
        push_str(&mut e, ", rule: ");
        push_quoted(&mut e, l.rule.as_str());
        push_str(&mut e, ", neg_rule: ");
        push_quoted(&mut e, l.neg_rule.as_str());
        push_str(&mut e, "}");
        let ghost before = out@;
        out.push(e);
        proof {
            assert(e@ =~= lock_elem(l@));
            assert(views(out@) =~= views(before).push(e@));
            assert(views(out@) =~= target.take(k + 1));
        }
        k = k + 1;
    }
    assert(target.take(k as int) =~= target);
    out
}

fn path_elems(v: &Vec<Path>) -> (res: Vec<String>)
    ensures
        views(res@) == Seq::new(v@.len(), |k: int| path_elem(v@[k]@)),
{
    let ghost target = Seq::new(v@.len(), |k: int| path_elem(v@[k]@));
    let mut out: Vec<String> = Vec::new();
    let mut k: usize = 0;
    while k < v.len()
        invariant
            k <= v@.len(),
            target == Seq::new(v@.len(), |k: int| path_elem(v@[k]@)),
            views(out@) == target.take(k as int),
        decreases v@.len() - k,
    {
        let p = &v[k];
        let mut e = String::new();
        push_str(&mut e, "Path {from: ");
        let a = code_elem_exec(p.from);
        push_str(&mut e, a.as_str());
        push_str(&mut e, ", to: ");
        let b = code_elem_exec(p.to);
        push_str(&mut e, b.as_str());
        push_str(&mut e, "}");
        let ghost before = out@;
        out.push(e);
        proof {
            assert(e@ =~= path_elem(p@));
            assert(views(out@) =~= views(before).push(e@));
            assert(views(out@) =~= target.take(k + 1));
        }
        k = k + 1;
    }
    assert(target.take(k as int) =~= target);
    out
}

fn check_elem_exec(c: &Check) -> (res: String)
    ensures
        res@ == check_elem(c@),
{
    let mut e = String::new();
    push_str(&mut e, "Check {code: ");
    let a = code_elem_exec(c.code);
    push_str(&mut e, a.as_str());
    push_str(&mut e, ", description: ");
    if c.description.as_str().is_empty() {
        push_quoted(&mut e, c.name.as_str());
    } else {
        push_quoted(&mut e, c.description.as_str());
    }
    push_str(&mut e, ", count: ");
    push_i64(&mut e, c.count);
    push_str(&mut e, ", victory: ");
    push_i64(&mut e, c.victory);
    push_str(&mut e, ", ids: &[");
    let ghost target = Seq::new(c@.ids.len(), |q: int| int_text(c@.ids[q] as int));
    let mut ids: Vec<String> = Vec::new();
    let mut k: usize = 0;
    while k < c.ids.len()
        invariant
            k <= c.ids@.len(),
            target == Seq::new(c@.ids.len(), |q: int| int_text(c@.ids[q] as int)),
            c@.ids == c.ids@,
            views(ids@) == target.take(k as int),
        decreases c.ids@.len() - k,
    {
        let mut t = String::new();
        push_i64(&mut t, c.ids[k]);
        let ghost before = ids@;
        ids.push(t);
        proof {
            assert(t@ =~= int_text(c.ids@[k as int] as int));
            assert(views(ids@) =~= views(before).push(t@));
            assert(views(ids@) =~= target.take(k + 1));
        }
        k = k + 1;
    }
    assert(target.take(k as int) =~= target);
    let j = join_strings(&ids, ",");
    push_str(&mut e, j.as_str());
    push_str(&mut e, "]}");
    e
}

fn check_elems(v: &Vec<Check>) -> (res: Vec<String>)
    ensures
        views(res@) == Seq::new(v@.len(), |k: int| check_elem(v@[k]@)),
{
    let ghost target = Seq::new(v@.len(), |k: int| check_elem(v@[k]@));
    let mut out: Vec<String> = Vec::new();
    let mut k: usize = 0;
    while k < v.len()
        invariant
            k <= v@.len(),
            target == Seq::new(v@.len(), |k: int| check_elem(v@[k]@)),
            views(out@) == target.take(k as int),
        decreases v@.len() - k,
    {
        let e = check_elem_exec(&v[k]);
        let ghost before = out@;
        out.push(e);
        proof {
            assert(views(out@) =~= views(before).push(e@));
            assert(views(out@) =~= target.take(k + 1));
        }
        k = k + 1;
    }
    assert(target.take(k as int) =~= target);
    out
}

fn push_scenario_arrays(arrays: &mut Vec<String>, ci: i64, s: &Scenario)
    ensures
        views(final(arrays)@) == views(old(arrays)@) + scenario_arrays(ci, s@),
{
    let pre = prefix_exec(ci, s.i);
    let a0 = array_decl_exec(with_suffix(&pre, "_LOCKS").as_str(), "Lock", &lock_elems(&s.locks));
    let a1 = array_decl_exec(with_suffix(&pre, "_LOCATIONS").as_str(), "Code", &code_elems(&s.locations));
    let a2 = array_decl_exec(with_suffix(&pre, "_BEGIN").as_str(), "Code", &code_elems(&s.begin));
    let a3 = array_decl_exec(with_suffix(&pre, "_PATHS").as_str(), "Path", &path_elems(&s.paths));
    let a4 = array_decl_exec(with_suffix(&pre, "_CHECKS").as_str(), "Check", &check_elems(&s.checks));
    let ghost before = views(arrays@);
    proof {
        let sv = s@;
        assert(Seq::new(s.locks@.len(), |k: int| lock_elem(s.locks@[k]@)) =~= Seq::new(sv.locks.len(), |k: int| lock_elem(sv.locks[k])));
        assert(Seq::new(s.paths@.len(), |k: int| path_elem(s.paths@[k]@)) =~= Seq::new(sv.paths.len(), |k: int| path_elem(sv.paths[k])));
        assert(Seq::new(s.checks@.len(), |k: int| check_elem(s.checks@[k]@)) =~= Seq::new(sv.checks.len(), |k: int| check_elem(sv.checks[k])));
    }
    arrays.push(a0);
    arrays.push(a1);
    arrays.push(a2);
    arrays.push(a3);
    arrays.push(a4);
    proof {
        assert(views(arrays@) =~= before + seq![a0@, a1@, a2@, a3@, a4@]);
        assert(scenario_arrays(ci, s@) =~= seq![a0@, a1@, a2@, a3@, a4@]);
    }
}

fn push_scenario_arm(buf: &mut String, ci: i64, s: &Scenario)
    ensures
        final(buf)@ == old(buf)@ + scenario_arm(ci, s@),
{
    let ghost before = buf@;
    let pre = prefix_exec(ci, s.i);
    push_str(buf, "    ");
    push_quoted(buf, s.name.as_str());
    push_str(buf, " => Some(Scenario {name: ");
    push_quoted(buf, s.name.as_str());
    push_str(buf, ", always: ");
    push_quoted(buf, s.always.as_str());
    push_str(buf, ", locks: &");
    push_str(buf, pre.as_str());
    push_str(buf, "_LOCKS");
    push_str(buf, ", locations: &");
    push_str(buf, pre.as_str());
    push_str(buf, "_LOCATIONS");
    push_str(buf, ", begin: &");
    push_str(buf, pre.as_str());
    push_str(buf, "_BEGIN");
    push_str(buf, ", paths: &");
    push_str(buf, pre.as_str());
    push_str(buf, "_PATHS");
    push_str(buf, ", checks: &");
    push_str(buf, pre.as_str());
    push_str(buf, "_CHECKS");
    push_str(buf, "}),\n");
    assert(buf@ =~= before + scenario_arm(ci, s@));
}

/// Appends the source of `get_scenario`: one arm per scenario of each
/// campaign, then the arrays of their locks, locations, starting
/// locations, paths and checks.
#[verifier::rlimit(60)]
pub fn push_get_scenario(buf: &mut String, data: &Data)
    ensures
        final(buf)@ == old(buf)@ + get_scenario_text(campaign_views(data.campaigns@)),
{
    let ghost cs = campaign_views(data.campaigns@);
    push_str(buf, "pub fn get_scenario(scenario: &str) -> Option<Scenario> {\n  match scenario {\n");
    let ghost head = buf@;
    let mut arrays: Vec<String> = Vec::new();
    let mut ci: usize = 0;
    assert(cs.take(0) =~= Seq::<CampaignView>::empty());
    assert(views(arrays@) =~= scenario_arrays_all(cs.take(0)));
    while ci < data.campaigns.len()
        invariant
            cs == campaign_views(data.campaigns@),
            ci <= cs.len(),
            buf@ == head + concat(scenario_arms(cs.take(ci as int))),
            views(arrays@) == scenario_arrays_all(cs.take(ci as int)),
        decreases cs.len() - ci,
    {
        let c = &data.campaigns[ci];
        let ghost cv = c@;
        let ghost arms_before = scenario_arms(cs.take(ci as int));
        let ghost arrs_before = scenario_arrays_all(cs.take(ci as int));
        let ghost carms = campaign_scenario_arms(cv);
        proof {
            assert(cs[ci as int] == cv);
            assert(cs.take(ci + 1).drop_last() =~= cs.take(ci as int));
            assert(cs.take(ci + 1).last() == cv);
            lemma_campaign_seen_take(cs, ci as int);
            assert(carms.take(0) =~= Seq::<Seq<char>>::empty());
            assert(arms_before + carms.take(0) =~= arms_before);
            assert(cv.scenarios.take(0) =~= Seq::<ScenarioView>::empty());
            assert(arrs_before + campaign_scenario_arrays(cv.i, cv.scenarios.take(0)) =~= arrs_before);
        }
        if !campaign_seen_exec(&data.campaigns, ci) {
            let mut si: usize = 0;
            while si < c.scenarios.len()
                invariant
                    cv == c@,
                    carms == campaign_scenario_arms(cv),
                    si <= c.scenarios@.len(),
                    buf@ == head + concat(arms_before + carms.take(si as int)),
                    views(arrays@) == arrs_before + campaign_scenario_arrays(cv.i, cv.scenarios.take(si as int)),
                decreases c.scenarios@.len() - si,
            {
                let s = &c.scenarios[si];
                proof {
                    assert(cv.scenarios[si as int] == s@);
                    assert(arms_before + carms.take(si + 1) =~= (arms_before + carms.take(si as int)).push(carms[si as int]));
                    assert(cv.scenarios.take(si + 1).drop_last() =~= cv.scenarios.take(si as int));
                    assert(cv.scenarios.take(si + 1).last() == s@);
                    lemma_scenario_seen_take(cv.scenarios, si as int);
                }
                if scenario_seen_exec(&c.scenarios, si) {
                    proof {
                        lemma_concat_push(arms_before + carms.take(si as int), Seq::<char>::empty());
                        assert(concat(arms_before + carms.take(si as int)) + Seq::<char>::empty()
                            =~= concat(arms_before + carms.take(si as int)));
                    }
                } else {
                    push_scenario_arm(buf, c.i, s);
                    push_scenario_arrays(&mut arrays, c.i, s);
                    proof {
                        lemma_concat_push(arms_before + carms.take(si as int), carms[si as int]);
                    }
                }
                si = si + 1;
            }
            proof {
                assert(carms.take(si as int) =~= carms);
                assert(cv.scenarios.take(si as int) =~= cv.scenarios);
            }
        }
        ci = ci + 1;
    }
    assert(cs.take(ci as int) =~= cs);
    push_str(buf, "    _ => None\n  }\n}\n");
    let j = join_strings(&arrays, "\n");
    push_str(buf, j.as_str());
    push_str(buf, "\n");
}

/// The closing lines of a rule lookup.
pub open spec fn false_end() -> Seq<char> {
    "    _ => false\n  }\n}\n\n"@
}

/// The arm of `can_follow_path` for a path of a scenario of a campaign.
pub open spec fn path_arm(cname: Seq<char>, sname: Seq<char>, p: PathView) -> Seq<char> {
    "    ("@ + quoted(cname) + ","@ + quoted(sname) + ","@ + code_text_int(p.from) + ","@ + code_text_int(p.to)
        + ") => "@ + rust_expr(p.logic) + ",\n"@
}

/// The arms for the paths of some scenarios of a campaign, each scenario
/// name once.
pub open spec fn scenarios_path_arms(cname: Seq<char>, ss: Seq<ScenarioView>) -> Seq<Seq<char>>
    decreases ss.len(),
{
    if ss.len() == 0 {
        Seq::empty()
    } else if scenario_seen(ss, ss.len() - 1) {
        scenarios_path_arms(cname, ss.drop_last())
    } else {
        let s = ss.last();
        scenarios_path_arms(cname, ss.drop_last()) + Seq::new(s.paths.len(), |k: int| path_arm(cname, s.name, s.paths[k]))
    }
}

/// The arms for the paths of the campaigns, each campaign name once.
pub open spec fn path_arms(cs: Seq<CampaignView>) -> Seq<Seq<char>>
    decreases cs.len(),
{
    if cs.len() == 0 {
        Seq::empty()
    } else if campaign_seen(cs, cs.len() - 1) {
        path_arms(cs.drop_last())
    } else {
        path_arms(cs.drop_last()) + scenarios_path_arms(cs.last().name, cs.last().scenarios)
    }
}

/// The source of `can_follow_path`.
pub open spec fn can_follow_path_text(cs: Seq<CampaignView>) -> Seq<char> {
    "pub fn can_follow_path(campaign: &str, scenario: &str, from: Code, to: Code, state: &State) -> bool {\n  match (campaign, scenario, from.i64(), to.i64()) {\n"@
        + concat(path_arms(cs)) + false_end()
}

fn push_path_arms(buf: &mut String, cname: &String, s: &Scenario)
    ensures
        final(buf)@ == old(buf)@ + concat(Seq::new(s@.paths.len(), |k: int| path_arm(cname@, s@.name, s@.paths[k]))),
{
    let ghost arms = Seq::new(s@.paths.len(), |k: int| path_arm(cname@, s@.name, s@.paths[k]));
    let ghost head = buf@;
    let mut k: usize = 0;
    assert(arms.take(0) =~= Seq::<Seq<char>>::empty());
    while k < s.paths.len()
        invariant
            arms == Seq::new(s@.paths.len(), |k: int| path_arm(cname@, s@.name, s@.paths[k])),
            k <= s.paths@.len(),
            buf@ == head + concat(arms.take(k as int)),
        decreases s.paths@.len() - k,
    {
        let p = &s.paths[k];
        let ghost before = buf@;
        push_str(buf, "    (");
        push_quoted(buf, cname.as_str());
        push_str(buf, ",");
        push_quoted(buf, s.name.as_str());
        push_str(buf, ",");
        push_i64(buf, p.from.i64());
        push_str(buf, ",");
        push_i64(buf, p.to.i64());
        push_str(buf, ") => ");
        let e = p.logic.as_rust_expr();
        push_str(buf, e.as_str());
        push_str(buf, ",\n");
        proof {
            assert(s@.paths[k as int] == p@);
            assert(buf@ =~= before + arms[k as int]);
            assert(arms.take(k + 1) =~= arms.take(k as int).push(arms[k as int]));
            lemma_concat_push(arms.take(k as int), arms[k as int]);
        }
        k = k + 1;
    }
    assert(arms.take(k as int) =~= arms);
}

pub proof fn lemma_concat_add(a: Seq<Seq<char>>, b: Seq<Seq<char>>)
    ensures
        concat(a + b) == concat(a) + concat(b),
    decreases b.len(),
{
    if b.len() == 0 {
        assert(a + b =~= a);
    } else {
        lemma_concat_add(a, b.drop_last());
        assert((a + b).drop_last() =~= a + b.drop_last());
        assert((a + b).last() == b.last());
    }
}

/// Appends the source of `can_follow_path`: one arm per path of each
/// scenario of each campaign, giving the path's rule.
pub fn push_can_follow_path(buf: &mut String, data: &Data)
    ensures
        final(buf)@ == old(buf)@ + can_follow_path_text(campaign_views(data.campaigns@)),
{
    let ghost cs = campaign_views(data.campaigns@);
    push_str(buf, "pub fn can_follow_path(campaign: &str, scenario: &str, from: Code, to: Code, state: &State) -> bool {\n  match (campaign, scenario, from.i64(), to.i64()) {\n");
    let ghost head = buf@;
    let mut ci: usize = 0;
    assert(cs.take(0) =~= Seq::<CampaignView>::empty());
    while ci < data.campaigns.len()
        invariant
            cs == campaign_views(data.campaigns@),
            ci <= cs.len(),
            buf@ == head + concat(path_arms(cs.take(ci as int))),
        decreases cs.len() - ci,
    {
        let c = &data.campaigns[ci];
        let ghost cv = c@;
        let ghost before = path_arms(cs.take(ci as int));
        proof {
            assert(cs[ci as int] == cv);
            assert(cs.take(ci + 1).drop_last() =~= cs.take(ci as int));
            assert(cs.take(ci + 1).last() == cv);
            lemma_campaign_seen_take(cs, ci as int);
            assert(cv.scenarios.take(0) =~= Seq::<ScenarioView>::empty());
            assert(before + scenarios_path_arms(cv.name, cv.scenarios.take(0)) =~= before);
        }
        if !campaign_seen_exec(&data.campaigns, ci) {
            let mut si: usize = 0;
            while si < c.scenarios.len()
                invariant
                    cv == c@,
                    si <= c.scenarios@.len(),
                    buf@ == head + concat(before + scenarios_path_arms(cv.name, cv.scenarios.take(si as int))),
                decreases c.scenarios@.len() - si,
            {
                let s = &c.scenarios[si];
                proof {
                    assert(cv.scenarios[si as int] == s@);
                    assert(cv.scenarios.take(si + 1).drop_last() =~= cv.scenarios.take(si as int));
                    assert(cv.scenarios.take(si + 1).last() == s@);
                    lemma_scenario_seen_take(cv.scenarios, si as int);
                }
                if !scenario_seen_exec(&c.scenarios, si) {
                    push_path_arms(buf, &c.name, s);
                    proof {
                        let sa = Seq::new(s@.paths.len(), |k: int| path_arm(cv.name, s@.name, s@.paths[k]));
                        let prev = before + scenarios_path_arms(cv.name, cv.scenarios.take(si as int));
                        assert(before + scenarios_path_arms(cv.name, cv.scenarios.take(si + 1)) =~= prev + sa);
                        lemma_concat_add(prev, sa);
                    }
                }
                si = si + 1;
            }
            proof { assert(cv.scenarios.take(si as int) =~= cv.scenarios); }
        }
        ci = ci + 1;
    }
    assert(cs.take(ci as int) =~= cs);
    push_str(buf, "    _ => false\n  }\n}\n\n");
}

/// Every check has a location id.
pub open spec fn checks_have_ids(cs: Seq<CampaignView>) -> bool {
    forall|cx: int, sx: int, k: int| 0 <= cx < cs.len() && 0 <= sx < cs[cx].scenarios.len() && 0 <= k < cs[cx].scenarios[sx].checks.len()
        ==> (#[trigger] cs[cx].scenarios[sx].checks[k]).ids.len() > 0
}

/// The arm of `can_send_location` for a check.
pub open spec fn check_arm(k: CheckView) -> Seq<char> {
    "    "@ + int_text(k.ids[0] as int) + " => "@ + rust_expr(k.logic) + ",\n"@
}

/// The arms for the checks of some scenarios, each scenario name once.
pub open spec fn scenarios_check_arms(ss: Seq<ScenarioView>) -> Seq<Seq<char>>
    decreases ss.len(),
{
    if ss.len() == 0 {
        Seq::empty()
    } else if scenario_seen(ss, ss.len() - 1) {
        scenarios_check_arms(ss.drop_last())
    } else {
        let s = ss.last();
        scenarios_check_arms(ss.drop_last()) + Seq::new(s.checks.len(), |k: int| check_arm(s.checks[k]))
    }
}

/// The arms for the checks of the campaigns, each campaign name once.
pub open spec fn check_arms(cs: Seq<CampaignView>) -> Seq<Seq<char>>
    decreases cs.len(),
{
    if cs.len() == 0 {
        Seq::empty()
    } else if campaign_seen(cs, cs.len() - 1) {
        check_arms(cs.drop_last())
    } else {
        check_arms(cs.drop_last()) + scenarios_check_arms(cs.last().scenarios)
    }
}

/// The source of `can_send_location`.
pub open spec fn can_send_location_text(cs: Seq<CampaignView>) -> Seq<char> {
    "pub fn can_send_location(first_id: i64, state: &State) -> bool {\n  match first_id {\n"@
        + concat(check_arms(cs)) + false_end()
}

fn push_check_arms(buf: &mut String, s: &Scenario)
    requires
        forall|k: int| 0 <= k < s@.checks.len() ==> (#[trigger] s@.checks[k]).ids.len() > 0,
    ensures
        final(buf)@ == old(buf)@ + concat(Seq::new(s@.checks.len(), |k: int| check_arm(s@.checks[k]))),
{
    let ghost arms = Seq::new(s@.checks.len(), |k: int| check_arm(s@.checks[k]));
    let ghost head = buf@;
    let mut k: usize = 0;
    assert(arms.take(0) =~= Seq::<Seq<char>>::empty());
    while k < s.checks.len()
        invariant
            arms == Seq::new(s@.checks.len(), |k: int| check_arm(s@.checks[k])),
            forall|k: int| 0 <= k < s@.checks.len() ==> (#[trigger] s@.checks[k]).ids.len() > 0,
            k <= s.checks@.len(),
            buf@ == head + concat(arms.take(k as int)),
        decreases s.checks@.len() - k,
    {
        let c = &s.checks[k];
        proof { assert(s@.checks[k as int] == c@); }
        let ghost before = buf@;
        push_str(buf, "    ");
        push_i64(buf, c.ids[0]);
        push_str(buf, " => ");
        let e = c.logic.as_rust_expr();
        push_str(buf, e.as_str());
        push_str(buf, ",\n");
        proof {
            assert(buf@ =~= before + arms[k as int]);
            assert(arms.take(k + 1) =~= arms.take(k as int).push(arms[k as int]));
            lemma_concat_push(arms.take(k as int), arms[k as int]);
        }
        k = k + 1;
    }
    assert(arms.take(k as int) =~= arms);
}

/// Appends the source of `can_send_location`: one arm per check, keyed by
/// its first location id, giving the check's rule.
pub fn push_can_send_location(buf: &mut String, data: &Data)
    requires
        checks_have_ids(campaign_views(data.campaigns@)),
    ensures
        final(buf)@ == old(buf)@ + can_send_location_text(campaign_views(data.campaigns@)),
{
    let ghost cs = campaign_views(data.campaigns@);
    push_str(buf, "pub fn can_send_location(first_id: i64, state: &State) -> bool {\n  match first_id {\n");
    let ghost head = buf@;
    let mut ci: usize = 0;
    assert(cs.take(0) =~= Seq::<CampaignView>::empty());
    while ci < data.campaigns.len()
        invariant
            cs == campaign_views(data.campaigns@),
            checks_have_ids(cs),
            ci <= cs.len(),
            buf@ == head + concat(check_arms(cs.take(ci as int))),
        decreases cs.len() - ci,
    {
        let c = &data.campaigns[ci];
        let ghost cv = c@;
        let ghost before = check_arms(cs.take(ci as int));
        proof {
            assert(cs[ci as int] == cv);
            assert(cs.take(ci + 1).drop_last() =~= cs.take(ci as int));
            assert(cs.take(ci + 1).last() == cv);
            lemma_campaign_seen_take(cs, ci as int);
            assert(cv.scenarios.take(0) =~= Seq::<ScenarioView>::empty());
            assert(before + scenarios_check_arms(cv.scenarios.take(0)) =~= before);
        }
        if !campaign_seen_exec(&data.campaigns, ci) {
            let mut si: usize = 0;
            while si < c.scenarios.len()
                invariant
                    cv == c@,
                    cs == campaign_views(data.campaigns@),
                    ci < cs.len(),
                    cs[ci as int] == cv,
                    checks_have_ids(cs),
                    si <= c.scenarios@.len(),
                    buf@ == head + concat(before + scenarios_check_arms(cv.scenarios.take(si as int))),
                decreases c.scenarios@.len() - si,
            {
                let s = &c.scenarios[si];
                proof {
                    assert(cv.scenarios[si as int] == s@);
                    assert(cv.scenarios.take(si + 1).drop_last() =~= cv.scenarios.take(si as int));
                    assert(cv.scenarios.take(si + 1).last() == s@);
                    lemma_scenario_seen_take(cv.scenarios, si as int);
                }
                if !scenario_seen_exec(&c.scenarios, si) {
                    proof {
                        assert forall|k: int| 0 <= k < s@.checks.len() implies (#[trigger] s@.checks[k]).ids.len() > 0 by {
                            assert(cs[ci as int].scenarios[si as int].checks[k] == s@.checks[k]);
                        }
                    }
                    push_check_arms(buf, s);
                    proof {
                        let sa = Seq::new(s@.checks.len(), |k: int| check_arm(s@.checks[k]));
                        let prev = before + scenarios_check_arms(cv.scenarios.take(si as int));
                        assert(before + scenarios_check_arms(cv.scenarios.take(si + 1)) =~= prev + sa);
                        lemma_concat_add(prev, sa);
                    }
                }
                si = si + 1;
            }
            proof { assert(cv.scenarios.take(si as int) =~= cv.scenarios); }
        }
        ci = ci + 1;
    }
    assert(cs.take(ci as int) =~= cs);
    push_str(buf, "    _ => false\n  }\n}\n\n");
}

} // verus!
