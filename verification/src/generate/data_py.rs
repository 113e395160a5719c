//! `Data.py`: the campaigns and scenarios as Python values, with the rules
//! of paths and checks as Python lambdas.

use vstd::prelude::*;
use crate::cardcode::Code;
use crate::generate::card::{Card, unique_name_spec};
use crate::generate::data::{Data, Campaign, Scenario, campaign_seen, scenario_seen, campaign_seen_exec, scenario_seen_exec, lemma_campaign_seen_take, Check, Path, Filler, CampaignView, ScenarioView, CheckView, PathView, FillerView,
    campaign_views};
use crate::generate::locations::{card_for, lookup_card, lemma_div_mod, check_name, check_size, check_requests, one_check_requests, Request, Target};
use crate::generate::logic::py_expr;
use crate::generate::source::{concat, quoted, lemma_concat_push};
use crate::text::{int_text, push_str, push_i64, join, join_strings, views};

verus! {

/// The unique name of the card with this code (when there is one).
pub open spec fn card_name(cards: Seq<Card>, k: Code) -> Seq<char> {
    unique_name_spec(card_for(cards, k).unwrap()@)
}

/// Every card that `Data.py` names is in the card list: the scenario
/// cards of each campaign, and the locations, starting locations, path
/// ends and check cards of each scenario.
pub open spec fn py_known(cards: Seq<Card>, cs: Seq<CampaignView>) -> bool {
    &&& forall|cx: int, k: int| 0 <= cx < cs.len() && 0 <= k < cs[cx].scenario_cards.len()
        ==> #[trigger] card_for(cards, cs[cx].scenario_cards[k]) is Some
    &&& forall|cx: int, sx: int| 0 <= cx < cs.len() && 0 <= sx < cs[cx].scenarios.len()
        ==> #[trigger] scenario_known(cards, cs[cx].scenarios[sx])
}

/// Every card that a scenario names is in the card list.
pub open spec fn scenario_known(cards: Seq<Card>, s: ScenarioView) -> bool {
    &&& forall|k: int| 0 <= k < s.locations.len() ==> #[trigger] card_for(cards, s.locations[k]) is Some
    &&& forall|k: int| 0 <= k < s.begin.len() ==> #[trigger] card_for(cards, s.begin[k]) is Some
    &&& forall|k: int| 0 <= k < s.paths.len() ==> #[trigger] card_for(cards, s.paths[k].from) is Some && card_for(cards, s.paths[k].to) is Some
    &&& forall|k: int| 0 <= k < s.checks.len() ==> #[trigger] card_for(cards, s.checks[k].code) is Some
}

/// The scenario names card `k`: as a location, a starting location, an
/// end of a path or the card of a check.
pub open spec fn scenario_names(s: ScenarioView, k: Code) -> bool {
    ||| s.locations.contains(k)
    ||| s.begin.contains(k)
    ||| exists|q: int| 0 <= q < s.paths.len() && (#[trigger] s.paths[q]).from == k
    ||| exists|q: int| 0 <= q < s.paths.len() && (#[trigger] s.paths[q]).to == k
    ||| exists|q: int| 0 <= q < s.checks.len() && (#[trigger] s.checks[q]).code == k
}

/// The data names card `k`: as a scenario card of a campaign or in one
/// of its scenarios.
pub open spec fn names_code(cs: Seq<CampaignView>, k: Code) -> bool {
    exists|cx: int| 0 <= cx < cs.len() && ((#[trigger] cs[cx]).scenario_cards.contains(k)
        || exists|sx: int| 0 <= sx < cs[cx].scenarios.len() && scenario_names(#[trigger] cs[cx].scenarios[sx], k))
}

/// A Python list of strings: `["a","b"]` (`[""]` when empty).
pub open spec fn py_str_list(xs: Seq<Seq<char>>) -> Seq<char> {
    "[\""@ + join(xs, "\",\""@) + "\"]"@
}

pub open spec fn filler_py(f: FillerView) -> Seq<char> {
    "Filler(\""@ + f.name + "\","@ + int_text(f.trap as int) + ",["@
        + join(Seq::new(4, |k: int| int_text(f.quantity[k] as int)), ","@) + "])"@
}

/// The entry of a campaign in the `campaigns` dict.
pub open spec fn campaign_py(cards: Seq<Card>, c: CampaignView) -> Seq<char> {
    quoted(c.name) + ":Campaign("@ + quoted(c.name) + ","@ + int_text(c.xp as int) + ","@
        + py_str_list(Seq::new(c.scenarios.len(), |k: int| c.scenarios[k].name)) + ","@
        + py_str_list(c.unlocks) + ","@
        + py_str_list(Seq::new(c.scenario_cards.len(), |k: int| card_name(cards, c.scenario_cards[k]))) + ",["@
        + join(Seq::new(c.filler.len(), |k: int| filler_py(c.filler[k])), ","@) + "]),"@
}

pub open spec fn location_py(cards: Seq<Card>, k: Code) -> Seq<char> {
    let card = card_for(cards, k).unwrap();
    "Location(\""@ + unique_name_spec(card@) + "\","@ + int_text(card.clues as int) + ","@ + int_text(card.victory as int) + ")"@
}

pub open spec fn path_py(cards: Seq<Card>, p: PathView) -> Seq<char> {
    "Path(\""@ + card_name(cards, p.from) + "\",\""@ + card_name(cards, p.to) + "\",lambda state,player:"@ + py_expr(p.logic) + ")"@
}

/// How many names a check is listed under, for its card's victory points.
pub open spec fn py_check_size(k: CheckView, victory: i64) -> nat {
    let per: int = if k.count > 1 { k.count as int } else { 1 };
    if victory > 0 { (victory * per) as nat } else { per as nat }
}

/// The `j`-th name of a check, for its card's victory points.
pub open spec fn py_check_name(sname: Seq<char>, k: CheckView, victory: i64, j: int) -> Seq<char> {
    let base = sname + " - "@ + k.name;
    if victory > 0 {
        if k.count > 1 {
            base + " Victory "@ + int_text(j / (k.count as int) + 1) + " #"@ + int_text(j % (k.count as int) + 1)
        } else {
            base + " Victory "@ + int_text(j + 1)
        }
    } else if k.count > 1 {
        base + " #"@ + int_text(j + 1)
    } else {
        base
    }
}

pub open spec fn check_py(name: Seq<char>, k: CheckView) -> Seq<char> {
    "Check(\""@ + name + "\","@ + (if k.goal { "1"@ } else { "0"@ }) + ",lambda state,player:"@ + py_expr(k.logic) + ")"@
}

/// The entries of one check: one per name.
pub open spec fn one_check_py(cards: Seq<Card>, sname: Seq<char>, k: CheckView) -> Seq<Seq<char>> {
    let v = card_for(cards, k.code).unwrap().victory;
    Seq::new(py_check_size(k, v), |j: int| check_py(py_check_name(sname, k, v, j), k))
}

/// The entries of the first `n` checks of a scenario.
pub open spec fn checks_py(cards: Seq<Card>, s: ScenarioView, n: int) -> Seq<Seq<char>>
    decreases n,
{
    if n <= 0 {
        Seq::empty()
    } else {
        checks_py(cards, s, n - 1) + one_check_py(cards, s.name, s.checks[n - 1])
    }
}

/// The entry of a scenario in the `scenarios` dict.
pub open spec fn scenario_py(cards: Seq<Card>, c: CampaignView, s: ScenarioView) -> Seq<char> {
    quoted(s.name) + ":Scenario("@ + quoted(s.name) + ","@ + quoted(c.name) + ","@ + int_text(s.logic_xp as int) + ",["@
        + join(Seq::new(s.locations.len(), |k: int| location_py(cards, s.locations[k])), ","@) + "],"@
        + py_str_list(Seq::new(s.begin.len(), |k: int| card_name(cards, s.begin[k]))) + ",["@
        + join(Seq::new(s.paths.len(), |k: int| path_py(cards, s.paths[k])), ","@) + "],["@
        + join(checks_py(cards, s, s.checks.len() as int), ","@) + "]),"@
}

/// The entries of the campaigns, in order: a campaign whose name came
/// before is listed once, at its first place, and gives nothing later.
pub open spec fn campaigns_py(cards: Seq<Card>, cs: Seq<CampaignView>) -> Seq<Seq<char>> {
    Seq::new(cs.len(), |k: int| if campaign_seen(cs, k) { Seq::empty() } else { campaign_py(cards, cs[k]) })
}

/// The entries of the scenarios of one campaign, each name once.
pub open spec fn campaign_scenarios_py(cards: Seq<Card>, c: CampaignView) -> Seq<Seq<char>> {
    Seq::new(
        c.scenarios.len(),
        |k: int| if scenario_seen(c.scenarios, k) { Seq::empty() } else { scenario_py(cards, c, c.scenarios[k]) },
    )
}

/// The entries of the scenarios of the campaigns, in order, each campaign
/// once.
pub open spec fn scenarios_py(cards: Seq<Card>, cs: Seq<CampaignView>) -> Seq<Seq<char>>
    decreases cs.len(),
{
    if cs.len() == 0 {
        Seq::empty()
    } else if campaign_seen(cs, cs.len() - 1) {
        scenarios_py(cards, cs.drop_last())
    } else {
        scenarios_py(cards, cs.drop_last()) + campaign_scenarios_py(cards, cs.last())
    }
}

/// The text of `Data.py`, after the prefix.
pub open spec fn data_py(prefix: Seq<char>, cards: Seq<Card>, cs: Seq<CampaignView>) -> Seq<char> {
    prefix + "campaigns={"@ + concat(campaigns_py(cards, cs))
        + "}\nscenarios={"@ + concat(scenarios_py(cards, cs)) + "}\n"@
}

fn card_name_exec(cards: &Vec<Card>, k: Code) -> (res: String)
    requires
        card_for(cards@, k) is Some,
    ensures
        res@ == card_name(cards@, k),
{
    let i = lookup_card(cards, k).unwrap();
    cards[i].unique_name()
}

fn str_list(xs: &Vec<String>) -> (res: String)
    ensures
        res@ == py_str_list(views(xs@)),
{
    let mut t = String::new();
    push_str(&mut t, "[\"");
    let j = join_strings(xs, "\",\"");
    push_str(&mut t, j.as_str());
    push_str(&mut t, "\"]");
    t
}

fn card_names(cards: &Vec<Card>, ks: &Vec<Code>) -> (res: Vec<String>)
    requires
        forall|k: int| 0 <= k < ks@.len() ==> #[trigger] card_for(cards@, ks@[k]) is Some,
    ensures
        views(res@) == Seq::new(ks@.len(), |k: int| card_name(cards@, ks@[k])),
{
    let ghost target = Seq::new(ks@.len(), |k: int| card_name(cards@, ks@[k]));
    let mut out: Vec<String> = Vec::new();
    let mut k: usize = 0;
    while k < ks.len()
        invariant
            k <= ks@.len(),
            forall|k: int| 0 <= k < ks@.len() ==> #[trigger] card_for(cards@, ks@[k]) is Some,
            target == Seq::new(ks@.len(), |k: int| card_name(cards@, ks@[k])),
            views(out@) == target.take(k as int),
        decreases ks@.len() - k,
    {
        let e = card_name_exec(cards, ks[k]);
        let ghost before = out@;
        out.push(e);
        proof {
            assert(views(out@) =~= views(before).push(e@));
            assert(views(out@) =~= target.take(k + 1));
        }
        k = k + 1;
    }
    assert(target.take(k as int) =~= target);
    out
}

fn filler_py_exec(f: &Filler) -> (res: String)
    ensures
        res@ == filler_py(f@),
{
    let mut t = String::new();
    push_str(&mut t, "Filler(\"");
    push_str(&mut t, f.name.as_str());
    push_str(&mut t, "\",");
    push_i64(&mut t, f.trap as i64);
    push_str(&mut t, ",[");
    let mut qs: Vec<String> = Vec::new();
    let ghost target = Seq::new(4, |k: int| int_text(f@.quantity[k] as int));
    let mut k: usize = 0;
    while k < 4
        invariant
            k <= 4,
            f@.quantity == f.quantity@,
            f.quantity@.len() == 4,
            target == Seq::new(4, |k: int| int_text(f@.quantity[k] as int)),
            views(qs@) == target.take(k as int),
        decreases 4 - k,
    {
        let mut q = String::new();
        push_i64(&mut q, f.quantity[k]);
        let ghost before = qs@;
        qs.push(q);
        proof {
            assert(views(qs@) =~= views(before).push(q@));
            assert(views(qs@) =~= target.take(k + 1));
        }
        k = k + 1;
    }
    assert(target.take(4) =~= target);
    let j = join_strings(&qs, ",");
    push_str(&mut t, j.as_str());
    push_str(&mut t, "])");
    t
}

fn campaign_py_exec(cards: &Vec<Card>, c: &Campaign) -> (res: String)
    requires
        forall|k: int| 0 <= k < c@.scenario_cards.len() ==> #[trigger] card_for(cards@, c@.scenario_cards[k]) is Some,
    ensures
        res@ == campaign_py(cards@, c@),
{
    let mut t = String::new();
    let mut q = String::new();
    push_str(&mut q, "\"");
    push_str(&mut q, c.name.as_str());
    push_str(&mut q, "\"");
    push_str(&mut t, q.as_str());
    push_str(&mut t, ":Campaign(");
    push_str(&mut t, q.as_str());
    push_str(&mut t, ",");
    push_i64(&mut t, c.xp);
    push_str(&mut t, ",");
    let mut names: Vec<String> = Vec::new();
    let ghost sn = Seq::new(c@.scenarios.len(), |k: int| c@.scenarios[k].name);
    let mut k: usize = 0;
    while k < c.scenarios.len()
        invariant
            k <= c.scenarios@.len(),
            sn == Seq::new(c@.scenarios.len(), |k: int| c@.scenarios[k].name),
            views(names@) == sn.take(k as int),
        decreases c.scenarios@.len() - k,
    {
        let n = c.scenarios[k].name.clone();
        proof { assert(c@.scenarios[k as int] == c.scenarios@[k as int]@); }
        let ghost before = names@;
        names.push(n);
        proof {
            assert(views(names@) =~= views(before).push(n@));
            assert(views(names@) =~= sn.take(k + 1));
        }
        k = k + 1;
    }
    assert(sn.take(k as int) =~= sn);
    let a = str_list(&names);
    push_str(&mut t, a.as_str());
    push_str(&mut t, ",");
    let b = str_list(&c.unlocks);
    push_str(&mut t, b.as_str());
    push_str(&mut t, ",");
    assert(c@.scenario_cards == c.scenario_cards@);
    let cn = card_names(cards, &c.scenario_cards);
    let d = str_list(&cn);
    push_str(&mut t, d.as_str());
    push_str(&mut t, ",[");
    let mut fs: Vec<String> = Vec::new();
    let ghost ft = Seq::new(c@.filler.len(), |k: int| filler_py(c@.filler[k]));
    let mut k: usize = 0;
    while k < c.filler.len()
        invariant
            k <= c.filler@.len(),
            ft == Seq::new(c@.filler.len(), |k: int| filler_py(c@.filler[k])),
            views(fs@) == ft.take(k as int),
        decreases c.filler@.len() - k,
    {
        let e = filler_py_exec(&c.filler[k]);
        proof { assert(c@.filler[k as int] == c.filler@[k as int]@); }
        let ghost before = fs@;
        fs.push(e);
        proof {
            assert(views(fs@) =~= views(before).push(e@));
            assert(views(fs@) =~= ft.take(k + 1));
        }
        k = k + 1;
    }
    assert(ft.take(k as int) =~= ft);
    let e = join_strings(&fs, ",");
    push_str(&mut t, e.as_str());
    push_str(&mut t, "]),");
    proof {
        assert(views(c.unlocks@) == c@.unlocks);
    }
    t
}

fn location_py_exec(cards: &Vec<Card>, k: Code) -> (res: String)
    requires
        card_for(cards@, k) is Some,
    ensures
        res@ == location_py(cards@, k),
{
    let i = lookup_card(cards, k).unwrap();
    let card = &cards[i];
    let mut t = String::new();
    push_str(&mut t, "Location(\"");
    let n = card.unique_name();
    push_str(&mut t, n.as_str());
    push_str(&mut t, "\",");
    push_i64(&mut t, card.clues);
    push_str(&mut t, ",");
    push_i64(&mut t, card.victory);
    push_str(&mut t, ")");
    t
}

fn path_py_exec(cards: &Vec<Card>, p: &Path) -> (res: String)
    requires
        card_for(cards@, p.from) is Some,
        card_for(cards@, p.to) is Some,
    ensures
        res@ == path_py(cards@, p@),
{
    let mut t = String::new();
    push_str(&mut t, "Path(\"");
    let a = card_name_exec(cards, p.from);
    push_str(&mut t, a.as_str());
    push_str(&mut t, "\",\"");
    let b = card_name_exec(cards, p.to);
    push_str(&mut t, b.as_str());
    push_str(&mut t, "\",lambda state,player:");
    let e = p.logic.as_py_expr();
    push_str(&mut t, e.as_str());
    push_str(&mut t, ")");
    t
}

fn check_py_exec(name: &String, k: &Check, rule: &String) -> (res: String)
    requires
        rule@ == py_expr(k.logic@),
    ensures
        res@ == check_py(name@, k@),
{
    let mut t = String::new();
    push_str(&mut t, "Check(\"");
    push_str(&mut t, name.as_str());
    push_str(&mut t, "\",");
    if k.goal { push_str(&mut t, "1"); } else { push_str(&mut t, "0"); }
    push_str(&mut t, ",lambda state,player:");
    push_str(&mut t, rule.as_str());
    push_str(&mut t, ")");
    t
}

/// Appends the entries of one check.
fn push_check_entries(out: &mut Vec<String>, cards: &Vec<Card>, sname: &String, k: &Check)
    requires
        card_for(cards@, k.code) is Some,
    ensures
        views(final(out)@) == views(old(out)@) + one_check_py(cards@, sname@, k@),
{
    let ghost base = views(out@);
    let ghost cr = one_check_py(cards@, sname@, k@);
    let i = lookup_card(cards, k.code).unwrap();
    let victory = cards[i].victory;
    let rule = k.logic.as_py_expr();
    let mut prefix = sname.clone();
    push_str(&mut prefix, " - ");
    push_str(&mut prefix, k.name.as_str());
    let ghost per: int = if k.count > 1 { k.count as int } else { 1 };
    proof { assert(base + cr.take(0) =~= base); }
    if victory > 0 {
        let mut v: i64 = 0;
        while v < victory
            invariant
                0 <= v <= victory,
                victory == card_for(cards@, k.code).unwrap().victory,
                cr == one_check_py(cards@, sname@, k@),
                cr.len() == victory * per,
                per == if k.count > 1 { k.count as int } else { 1 },
                rule@ == py_expr(k.logic@),
                prefix@ == sname@ + " - "@ + k.name@,
                views(out@) == base + cr.take(v * per),
            decreases victory - v,
        {
            if k.count > 1 {
                let mut m: i64 = 0;
                while m < k.count
                    invariant
                        0 <= v < victory,
                        0 <= m <= k.count,
                        k.count > 1,
                        victory == card_for(cards@, k.code).unwrap().victory,
                        cr == one_check_py(cards@, sname@, k@),
                        cr.len() == victory * per,
                        per == k.count,
                        rule@ == py_expr(k.logic@),
                        prefix@ == sname@ + " - "@ + k.name@,
                        views(out@) == base + cr.take(v * per + m),
                    decreases k.count - m,
                {
                    let mut name = prefix.clone();
                    push_str(&mut name, " Victory ");
                    push_i64(&mut name, v + 1);
                    push_str(&mut name, " #");
                    push_i64(&mut name, m + 1);
                    let e = check_py_exec(&name, k, &rule);
                    proof {
                        lemma_div_mod(v as int, per, m as int);
                        assert(v * per + m < cr.len()) by (nonlinear_arith)
                            requires v < victory, m < per, cr.len() == victory * per, per > 0, v >= 0;
                        assert(cr[v * per + m] == e@);
                    }
                    let ghost before = out@;
                    out.push(e);
                    proof {
                        assert(views(out@) =~= views(before).push(e@));
                        assert(cr.take(v * per + m + 1) =~= cr.take(v * per + m).push(e@));
                    }
                    m = m + 1;
                }
                proof { lemma_div_mod(v as int, per, 0); }
            } else {
                let mut name = prefix.clone();
                push_str(&mut name, " Victory ");
                push_i64(&mut name, v + 1);
                let e = check_py_exec(&name, k, &rule);
                proof { assert(cr[v as int] == e@); }
                let ghost before = out@;
                out.push(e);
                proof {
                    assert(views(out@) =~= views(before).push(e@));
                    assert(cr.take(v + 1) =~= cr.take(v as int).push(e@));
                }
            }
            v = v + 1;
        }
        proof { assert(cr.take(v * per) =~= cr); }
    } else if k.count > 1 {
        let mut m: i64 = 0;
        while m < k.count
            invariant
                0 <= m <= k.count,
                k.count > 1,
                victory <= 0,
                victory == card_for(cards@, k.code).unwrap().victory,
                cr == one_check_py(cards@, sname@, k@),
                cr.len() == k.count,
                rule@ == py_expr(k.logic@),
                prefix@ == sname@ + " - "@ + k.name@,
                views(out@) == base + cr.take(m as int),
            decreases k.count - m,
        {
            let mut name = prefix.clone();
            push_str(&mut name, " #");
            push_i64(&mut name, m + 1);
            let e = check_py_exec(&name, k, &rule);
            proof { assert(cr[m as int] == e@); }
            let ghost before = out@;
            out.push(e);
            proof {
                assert(views(out@) =~= views(before).push(e@));
                assert(cr.take(m + 1) =~= cr.take(m as int).push(e@));
            }
            m = m + 1;
        }
        proof { assert(cr.take(m as int) =~= cr); }
    } else {
        let e = check_py_exec(&prefix, k, &rule);
        proof {
            assert(cr.len() == 1);
            assert(cr[0] == e@);
        }
        let ghost before = out@;
        out.push(e);
        proof {
            assert(views(out@) =~= views(before).push(e@));
            assert(cr =~= seq![e@]);
        }
    }
}

fn scenario_py_exec(cards: &Vec<Card>, c: &Campaign, s: &Scenario) -> (res: String)
    requires
        scenario_known(cards@, s@),
    ensures
        res@ == scenario_py(cards@, c@, s@),
{
    let ghost sv = s@;
    let mut t = String::new();
    let mut q = String::new();
    push_str(&mut q, "\"");
    push_str(&mut q, s.name.as_str());
    push_str(&mut q, "\"");
    push_str(&mut t, q.as_str());
    push_str(&mut t, ":Scenario(");
    push_str(&mut t, q.as_str());
    push_str(&mut t, ",");
    push_str(&mut t, "\"");
    push_str(&mut t, c.name.as_str());
    push_str(&mut t, "\"");
    push_str(&mut t, ",");
    push_i64(&mut t, s.logic_xp);
    push_str(&mut t, ",[");
    let mut ls: Vec<String> = Vec::new();
    let ghost lt = Seq::new(sv.locations.len(), |k: int| location_py(cards@, sv.locations[k]));
    let mut k: usize = 0;
    while k < s.locations.len()
        invariant
            sv == s@,
            scenario_known(cards@, sv),
            k <= s.locations@.len(),
            lt == Seq::new(sv.locations.len(), |k: int| location_py(cards@, sv.locations[k])),
            views(ls@) == lt.take(k as int),
        decreases s.locations@.len() - k,
    {
        proof { assert(card_for(cards@, sv.locations[k as int]) is Some); }
        let e = location_py_exec(cards, s.locations[k]);
        let ghost before = ls@;
        ls.push(e);
        proof {
            assert(views(ls@) =~= views(before).push(e@));
            assert(views(ls@) =~= lt.take(k + 1));
        }
        k = k + 1;
    }
    assert(lt.take(k as int) =~= lt);
    let j = join_strings(&ls, ",");
    push_str(&mut t, j.as_str());
    push_str(&mut t, "],");
    proof {
        assert forall|k: int| 0 <= k < s.begin@.len() implies #[trigger] card_for(cards@, s.begin@[k]) is Some by {
            assert(card_for(cards@, sv.begin[k]) is Some);
        }
    }
    let bn = card_names(cards, &s.begin);
    let b = str_list(&bn);
    push_str(&mut t, b.as_str());
    push_str(&mut t, ",[");
    let mut ps: Vec<String> = Vec::new();
    let ghost pt = Seq::new(sv.paths.len(), |k: int| path_py(cards@, sv.paths[k]));
    let mut k: usize = 0;
    while k < s.paths.len()
        invariant
            sv == s@,
            scenario_known(cards@, sv),
            k <= s.paths@.len(),
            pt == Seq::new(sv.paths.len(), |k: int| path_py(cards@, sv.paths[k])),
            views(ps@) == pt.take(k as int),
        decreases s.paths@.len() - k,
    {
        proof {
            assert(sv.paths[k as int] == s.paths@[k as int]@);
            assert(card_for(cards@, sv.paths[k as int].from) is Some && card_for(cards@, sv.paths[k as int].to) is Some);
        }
        let e = path_py_exec(cards, &s.paths[k]);
        let ghost before = ps@;
        ps.push(e);
        proof {
            assert(views(ps@) =~= views(before).push(e@));
            assert(views(ps@) =~= pt.take(k + 1));
        }
        k = k + 1;
    }
    assert(pt.take(k as int) =~= pt);
    let j = join_strings(&ps, ",");
    push_str(&mut t, j.as_str());
    push_str(&mut t, "],[");
    let mut cks: Vec<String> = Vec::new();
    let mut k: usize = 0;
    assert(views(cks@) =~= checks_py(cards@, sv, 0));
    while k < s.checks.len()
        invariant
            sv == s@,
            scenario_known(cards@, sv),
            k <= s.checks@.len(),
            views(cks@) == checks_py(cards@, sv, k as int),
        decreases s.checks@.len() - k,
    {
        proof {
            assert(sv.checks[k as int] == s.checks@[k as int]@);
            assert(card_for(cards@, sv.checks[k as int].code) is Some);
        }
        push_check_entries(&mut cks, cards, &s.name, &s.checks[k]);
        k = k + 1;
    }
    let j = join_strings(&cks, ",");
    push_str(&mut t, j.as_str());
    push_str(&mut t, "]),");
    proof {
        assert(Seq::new(s.begin@.len(), |k: int| card_name(cards@, s.begin@[k])) =~= Seq::new(sv.begin.len(), |k: int| card_name(cards@, sv.begin[k])));
    }
    t
}

/// The text of `Data.py`: the prefix, then the dict of campaigns and the
/// dict of scenarios.
fn data_py_exec(prefix: &str, cards: &Vec<Card>, data: &Data) -> (res: String)
    requires
        py_known(cards@, campaign_views(data.campaigns@)),
    ensures
        res@ == data_py(prefix@, cards@, campaign_views(data.campaigns@)),
{
    let ghost cs = campaign_views(data.campaigns@);
    let mut t = String::new();
    push_str(&mut t, prefix);
    push_str(&mut t, "campaigns={");
    let ghost head = t@;
    let ghost ce = campaigns_py(cards@, cs);
    let mut k: usize = 0;
    assert(ce.take(0) =~= Seq::<Seq<char>>::empty());
    while k < data.campaigns.len()
        invariant
            cs == campaign_views(data.campaigns@),
            py_known(cards@, cs),
            ce == campaigns_py(cards@, cs),
            k <= cs.len(),
            t@ == head + concat(ce.take(k as int)),
        decreases cs.len() - k,
    {
        let c = &data.campaigns[k];
        proof {
            assert(cs[k as int] == c@);
            assert(ce.take(k + 1) =~= ce.take(k as int).push(ce[k as int]));
        }
        if campaign_seen_exec(&data.campaigns, k) {
            proof {
                assert(ce[k as int] == Seq::<char>::empty());
                lemma_concat_push(ce.take(k as int), Seq::<char>::empty());
                assert(concat(ce.take(k as int)) + Seq::<char>::empty() =~= concat(ce.take(k as int)));
            }
        } else {
            proof {
                assert forall|q: int| 0 <= q < c@.scenario_cards.len() implies #[trigger] card_for(cards@, c@.scenario_cards[q]) is Some by {
                    assert(card_for(cards@, cs[k as int].scenario_cards[q]) is Some);
                }
            }
            let e = campaign_py_exec(cards, c);
            push_str(&mut t, e.as_str());
            proof {
                assert(ce[k as int] == e@);
                lemma_concat_push(ce.take(k as int), e@);
            }
        }
        k = k + 1;
    }
    assert(ce.take(k as int) =~= ce);
    push_str(&mut t, "}\nscenarios={");
    let ghost mid = t@;
    let mut ci: usize = 0;
    assert(cs.take(0) =~= Seq::<CampaignView>::empty());
    while ci < data.campaigns.len()
        invariant
            cs == campaign_views(data.campaigns@),
            py_known(cards@, cs),
            ci <= cs.len(),
            t@ == mid + concat(scenarios_py(cards@, cs.take(ci as int))),
        decreases cs.len() - ci,
    {
        let c = &data.campaigns[ci];
        let ghost cv = c@;
        let ghost before = scenarios_py(cards@, cs.take(ci as int));
        let ghost se = campaign_scenarios_py(cards@, cv);
        let ghost upto = cs.take(ci + 1);
        proof {
            assert(cs[ci as int] == cv);
            assert(upto.drop_last() =~= cs.take(ci as int));
            assert(upto.last() == cv);
            assert(before + se.take(0) =~= before);
        }
        let seen = campaign_seen_exec(&data.campaigns, ci);
        proof { lemma_campaign_seen_take(cs, ci as int); }
        if !seen {
            let mut si: usize = 0;
            while si < c.scenarios.len()
                invariant
                    cv == c@,
                    cs == campaign_views(data.campaigns@),
                    ci < cs.len(),
                    cs[ci as int] == cv,
                    py_known(cards@, cs),
                    se == campaign_scenarios_py(cards@, cv),
                    si <= c.scenarios@.len(),
                    t@ == mid + concat(before + se.take(si as int)),
                decreases c.scenarios@.len() - si,
            {
                let s = &c.scenarios[si];
                proof {
                    assert(cv.scenarios[si as int] == s@);
                    assert(before + se.take(si + 1) =~= (before + se.take(si as int)).push(se[si as int]));
                }
                if scenario_seen_exec(&c.scenarios, si) {
                    proof {
                        assert(se[si as int] == Seq::<char>::empty());
                        lemma_concat_push(before + se.take(si as int), Seq::<char>::empty());
                        assert(concat(before + se.take(si as int)) + Seq::<char>::empty() =~= concat(before + se.take(si as int)));
                    }
                } else {
                    proof {
                        assert(scenario_known(cards@, cs[ci as int].scenarios[si as int]));
                    }
                    let e = scenario_py_exec(cards, c, s);
                    push_str(&mut t, e.as_str());
                    proof {
                        assert(se[si as int] == e@);
                        lemma_concat_push(before + se.take(si as int), e@);
                    }
                }
                si = si + 1;
            }
            proof { assert(se.take(si as int) =~= se); }
        }
        ci = ci + 1;
    }
    assert(cs.take(ci as int) =~= cs);
    push_str(&mut t, "}\n");
    t
}

fn first_unknown(cards: &Vec<Card>, ks: &Vec<Code>) -> (res: Option<Code>)
    ensures
        res is None <==> forall|k: int| 0 <= k < ks@.len() ==> #[trigger] card_for(cards@, ks@[k]) is Some,
        res matches Some(k) ==> card_for(cards@, k) is None && ks@.contains(k),
{
    let mut k: usize = 0;
    while k < ks.len()
        invariant
            k <= ks@.len(),
            forall|q: int| 0 <= q < k ==> #[trigger] card_for(cards@, ks@[q]) is Some,
        decreases ks@.len() - k,
    {
        if lookup_card(cards, ks[k]).is_none() {
            proof { assert(ks@[k as int] == ks@[k as int]); }
            return Some(ks[k]);
        }
        k = k + 1;
    }
    None
}

fn scenario_unknown(cards: &Vec<Card>, s: &Scenario) -> (res: Option<Code>)
    ensures
        res is None <==> scenario_known(cards@, s@),
        res matches Some(k) ==> card_for(cards@, k) is None && scenario_names(s@, k),
{
    match first_unknown(cards, &s.locations) { Some(k) => { return Some(k); }, None => {} }
    match first_unknown(cards, &s.begin) { Some(k) => { return Some(k); }, None => {} }
    let mut k: usize = 0;
    while k < s.paths.len()
        invariant
            k <= s.paths@.len(),
            forall|q: int| 0 <= q < k ==> #[trigger] card_for(cards@, s@.paths[q].from) is Some && card_for(cards@, s@.paths[q].to) is Some,
        decreases s.paths@.len() - k,
    {
        proof { assert(s@.paths[k as int] == s.paths@[k as int]@); }
        if lookup_card(cards, s.paths[k].from).is_none() {
            proof { assert(card_for(cards@, s@.paths[k as int].from) is None); assert(s@.paths[k as int].from == s.paths[k as int].from); }
            return Some(s.paths[k].from);
        }
        if lookup_card(cards, s.paths[k].to).is_none() {
            proof { assert(card_for(cards@, s@.paths[k as int].to) is None); assert(s@.paths[k as int].to == s.paths[k as int].to); }
            return Some(s.paths[k].to);
        }
        k = k + 1;
    }
    let mut k: usize = 0;
    while k < s.checks.len()
        invariant
            k <= s.checks@.len(),
            forall|q: int| 0 <= q < s.paths@.len() ==> #[trigger] card_for(cards@, s@.paths[q].from) is Some && card_for(cards@, s@.paths[q].to) is Some,
            forall|q: int| 0 <= q < k ==> #[trigger] card_for(cards@, s@.checks[q].code) is Some,
            forall|q: int| 0 <= q < s@.locations.len() ==> #[trigger] card_for(cards@, s@.locations[q]) is Some,
            forall|q: int| 0 <= q < s@.begin.len() ==> #[trigger] card_for(cards@, s@.begin[q]) is Some,
        decreases s.checks@.len() - k,
    {
        proof { assert(s@.checks[k as int] == s.checks@[k as int]@); }
        if lookup_card(cards, s.checks[k].code).is_none() {
            proof { assert(card_for(cards@, s@.checks[k as int].code) is None); assert(s@.checks[k as int].code == s.checks[k as int].code); }
            return Some(s.checks[k].code);
        }
        k = k + 1;
    }
    None
}

/// The first card that `Data.py` would name and the card list lacks.
fn missing_card(cards: &Vec<Card>, data: &Data) -> (res: Option<Code>)
    ensures
        res is None <==> py_known(cards@, campaign_views(data.campaigns@)),
        res matches Some(k) ==> card_for(cards@, k) is None && names_code(campaign_views(data.campaigns@), k),
{
    let ghost cs = campaign_views(data.campaigns@);
    let mut ci: usize = 0;
    while ci < data.campaigns.len()
        invariant
            cs == campaign_views(data.campaigns@),
            ci <= cs.len(),
            forall|cx: int, k: int| 0 <= cx < ci && 0 <= k < cs[cx].scenario_cards.len()
                ==> #[trigger] card_for(cards@, cs[cx].scenario_cards[k]) is Some,
            forall|cx: int, sx: int| 0 <= cx < ci && 0 <= sx < cs[cx].scenarios.len()
                ==> #[trigger] scenario_known(cards@, cs[cx].scenarios[sx]),
        decreases cs.len() - ci,
    {
        let c = &data.campaigns[ci];
        proof { assert(cs[ci as int] == c@); }
        match first_unknown(cards, &c.scenario_cards) {
            Some(k) => {
                proof {
                    let q = choose|q: int| 0 <= q < c.scenario_cards@.len() && !(#[trigger] card_for(cards@, c.scenario_cards@[q]) is Some);
                    assert(card_for(cards@, cs[ci as int].scenario_cards[q]) is None);
                    assert(cs[ci as int].scenario_cards.contains(k));
                }
                return Some(k);
            },
            None => {},
        }
        let mut si: usize = 0;
        while si < c.scenarios.len()
            invariant
                cs == campaign_views(data.campaigns@),
                ci < cs.len(),
                cs[ci as int] == c@,
                si <= c.scenarios@.len(),
                forall|sx: int| 0 <= sx < si ==> #[trigger] scenario_known(cards@, cs[ci as int].scenarios[sx]),
            decreases c.scenarios@.len() - si,
        {
            proof { assert(c@.scenarios[si as int] == c.scenarios@[si as int]@); }
            match scenario_unknown(cards, &c.scenarios[si]) {
                Some(k) => {
                    proof { assert(scenario_names(cs[ci as int].scenarios[si as int], k)); }
                    return Some(k);
                },
                None => {},
            }
            si = si + 1;
        }
        ci = ci + 1;
    }
    None
}

/// The text of `Data.py` (after `prefix`) for the data; fails with the
/// code of a card it names that the card list lacks.
pub fn generate_data_py(prefix: &str, cards: &Vec<Card>, data: &Data) -> (res: Result<String, Code>)
    ensures
        res is Ok <==> py_known(cards@, campaign_views(data.campaigns@)),
        match res {
            Ok(t) => t@ == data_py(prefix@, cards@, campaign_views(data.campaigns@)),
            Err(k) => card_for(cards@, k) is None && names_code(campaign_views(data.campaigns@), k),
        },
{
    match missing_card(cards, data) {
        Some(k) => Err(k),
        None => Ok(data_py_exec(prefix, cards, data)),
    }
}

/// `piece` stands in `t` from place `off` on.
pub open spec fn occurs_at(t: Seq<char>, piece: Seq<char>, off: int) -> bool {
    0 <= off && off + piece.len() <= t.len() && t.subrange(off, off + piece.len()) == piece
}

proof fn lemma_occurs_left(a: Seq<char>, b: Seq<char>, piece: Seq<char>, off: int)
    requires
        occurs_at(a, piece, off),
    ensures
        occurs_at(a + b, piece, off),
{
    assert((a + b).subrange(off, off + piece.len()) =~= a.subrange(off, off + piece.len()));
}

proof fn lemma_occurs_right(a: Seq<char>, b: Seq<char>, piece: Seq<char>, off: int)
    requires
        occurs_at(b, piece, off),
    ensures
        occurs_at(a + b, piece, a.len() + off),
{
    assert((a + b).subrange(a.len() + off, a.len() + off + piece.len()) =~= b.subrange(off, off + piece.len()));
}

/// Each part stands somewhere in the parts joined.
proof fn lemma_join_has_part(parts: Seq<Seq<char>>, sep: Seq<char>, k: int)
    requires
        0 <= k < parts.len(),
    ensures
        exists|off: int| occurs_at(join(parts, sep), parts[k], off),
    decreases parts.len(),
{
    if parts.len() == 1 {
        assert(join(parts, sep).subrange(0, parts[0].len() as int) =~= parts[0]);
        assert(occurs_at(join(parts, sep), parts[k], 0));
    } else if k == parts.len() - 1 {
        let pre = join(parts.drop_last(), sep) + sep;
        assert(join(parts, sep) == pre + parts.last());
        assert(parts.last().subrange(0, parts[k].len() as int) =~= parts[k]);
        assert(occurs_at(parts.last(), parts[k], 0));
        lemma_occurs_right(pre, parts.last(), parts[k], 0);
    } else {
        lemma_join_has_part(parts.drop_last(), sep, k);
        let off = choose|off: int| occurs_at(join(parts.drop_last(), sep), parts.drop_last()[k], off);
        lemma_occurs_left(join(parts.drop_last(), sep), sep + parts.last(), parts[k], off);
        assert(join(parts, sep) == join(parts.drop_last(), sep) + (sep + parts.last()));
    }
}

/// The `Data.py` entry of a scenario lists each of its paths as
/// `Path(origin, destination, rule)`: the shown name of the card the path
/// starts at, then that of the card it leads to, then the path's rule.
pub proof fn lemma_scenario_lists_paths(cards: Seq<Card>, c: CampaignView, s: ScenarioView, k: int)
    requires
        0 <= k < s.paths.len(),
    ensures
        exists|off: int| occurs_at(
            scenario_py(cards, c, s),
            "Path(\""@ + unique_name_spec(card_for(cards, s.paths[k].from).unwrap()@) + "\",\""@
                + unique_name_spec(card_for(cards, s.paths[k].to).unwrap()@) + "\",lambda state,player:"@
                + py_expr(s.paths[k].logic) + ")"@,
            off,
        ),
{
    let ps = Seq::new(s.paths.len(), |q: int| path_py(cards, s.paths[q]));
    let pre = quoted(s.name) + ":Scenario("@ + quoted(s.name) + ","@ + quoted(c.name) + ","@ + int_text(s.logic_xp as int) + ",["@
        + join(Seq::new(s.locations.len(), |q: int| location_py(cards, s.locations[q])), ","@) + "],"@
        + py_str_list(Seq::new(s.begin.len(), |q: int| card_name(cards, s.begin[q]))) + ",["@;
    let post = "],["@ + join(checks_py(cards, s, s.checks.len() as int), ","@) + "]),"@;
    let j = join(ps, ","@);
    assert(scenario_py(cards, c, s) =~= pre + j + post);
    lemma_join_has_part(ps, ","@, k);
    let off = choose|off: int| occurs_at(j, ps[k], off);
    lemma_occurs_right(pre, j, ps[k], off);
    lemma_occurs_left(pre + j, post, ps[k], pre.len() + off);
}

/// `Data.py` lists a check under the names that `Id.py` gives its
/// locations, as many and in the same order, when the check's victory
/// points are those of its card (as they are for every enemy check).
pub proof fn lemma_check_names_agree(s: Scenario, k: Check, victory: i64)
    requires
        k.victory == victory,
    ensures
        py_check_size(k@, victory) == check_size(k),
        forall|j: int| 0 <= j < check_size(k) ==> #[trigger] py_check_name(s@.name, k@, victory, j) == check_name(s, k, j),
{
}

/// The `Data.py` entry of a check location of scenario `s`: the check
/// that it stands for, under the location's name.
pub open spec fn entry_for_request(s: ScenarioView, r: Request) -> Seq<char> {
    match r.target {
        Target::Check(_, _, k) => check_py(r.name, s.checks[k]),
        _ => Seq::empty(),
    }
}

/// The `Check` entries that `Data.py` writes for the first `n` checks of a
/// scenario are, in order, one per location that `Id.py` numbers for
/// those checks, each under that location's name; this holds when each
/// check's victory points are those of its card (as for every enemy
/// check).
pub proof fn lemma_scenario_check_names(cards: Seq<Card>, ci: i64, s: Scenario, cx: int, sx: int, n: int)
    requires
        0 <= n <= s.checks@.len(),
        forall|k: int| 0 <= k < n ==> card_for(cards, (#[trigger] s.checks@[k]).code) is Some
            && card_for(cards, s.checks@[k].code).unwrap().victory == s.checks@[k].victory,
    ensures
        checks_py(cards, s@, n) == check_requests(ci, s, cx, sx, n).map_values(|r: Request| entry_for_request(s@, r)),
    decreases n,
{
    if n > 0 {
        lemma_scenario_check_names(cards, ci, s, cx, sx, n - 1);
        let k = s.checks@[n - 1];
        assert(s@.checks[n - 1] == k@);
        let v = card_for(cards, k.code).unwrap().victory;
        lemma_check_names_agree(s, k, v);
        let prev = check_requests(ci, s, cx, sx, n - 1);
        let one = one_check_requests(ci, s, cx, sx, n - 1);
        let f = |r: Request| entry_for_request(s@, r);
        assert((prev + one).map_values(f) =~= prev.map_values(f) + one.map_values(f));
        assert(one.map_values(f) =~= one_check_py(cards, s@.name, s@.checks[n - 1]));
    }
}

} // verus!
