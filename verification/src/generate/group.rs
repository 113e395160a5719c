//! The data files: records of `field value` lines, separated by empty
//! lines, describing campaigns, their scenarios and the locks of those
//! scenarios.

use vstd::prelude::*;
use crate::cardcode::{Code, valid_code_str, code_of_str};
use crate::generate::card::{Card, unique_name_spec, card_views};
use crate::generate::data::{Data, Campaign, Scenario, Lock, Path, Check, Filler, CampaignView, ScenarioView, LockView,
    PathView, CheckView, FillerView, campaign_views, scenario_views, path_views, check_views, filler_views, string_views, lock_views};
use crate::generate::locations::{card_for, lookup_card};
use crate::generate::logic::{Logic, LogicTerm, parse_spec, parse_logic};
use crate::generate::package::{put, key_is};
use crate::collections::{first_where, lemma_first_where, lemma_first_where_at, lemma_first_where_none, lemma_first_where_same};
use crate::text::{escaped, escape_debug, find_char, split_char, join, parse_i64_spec, parse_i64, chars_of, string_of, split, find, lemma_find_char, push_str, join_strings, views};

verus! {

/// What kind of record the current lines describe.
#[derive(PartialEq, Eq, Structural, Clone, Copy)]
pub enum Kind {
    Nothing,
    Campaign,
    Scenario,
    Lock,
}

/// What is wrong with a line of the data files.
#[derive(PartialEq, Eq, Structural, Clone, Copy)]
pub enum GroupErrorKind {
    /// The experience is not a number.
    BadXp,
    /// The expected level is not a number.
    BadLevel,
    /// A rule was given before the record named its campaign.
    LogicOutsideCampaign,
    /// An enemy's count is not a number.
    BadCount,
    /// A card code is not a valid code.
    BadCode,
    /// An enemy or special card is not in the card list.
    UnknownCard,
    /// A description comes before any check.
    NothingToDescribe,
    /// A name comes before any check.
    NothingToName,
    /// A goal comes before any check.
    NothingToMakeGoal,
    /// A filler line lacks one of its four quantities or its name.
    FillerMissingPart,
    /// A filler quantity is not a number.
    BadFillerQuantity,
    /// The field is not one of the known fields.
    UnknownField,
    /// A line without a value is not one of the bare keywords.
    FieldWithoutValue,
    /// A scenario names no campaign.
    ScenarioWithoutParent,
    /// A scenario's campaign has not been read.
    UnknownCampaign,
    /// A lock names no scenario.
    LockWithoutParent,
    /// A lock's scenario has not been read.
    UnknownScenario,
}

/// An error and the index of the line it comes from.
#[derive(PartialEq, Eq, Structural, Clone, Copy)]
pub struct GroupError {
    pub kind: GroupErrorKind,
    pub line: usize,
}

/// The fields of the record being read.
pub struct Fields {
    pub kind: Kind,
    pub uname: String,
    pub cards: Vec<Code>,
    pub unlocks: Vec<String>,
    pub filler: Vec<Filler>,
    pub parent: Option<String>,
    pub xp: i64,
    pub level: i64,
    pub always: String,
    pub rule: String,
    pub neg_rule: String,
    pub locations: Vec<Code>,
    pub begin: Vec<Code>,
    pub paths: Vec<Path>,
    pub checks: Vec<Check>,
}

/// The value of the fields of a record.
pub struct FieldsView {
    pub kind: Kind,
    pub uname: Seq<char>,
    pub cards: Seq<Code>,
    pub unlocks: Seq<Seq<char>>,
    pub filler: Seq<FillerView>,
    pub parent: Option<Seq<char>>,
    pub xp: i64,
    pub level: i64,
    pub always: Seq<char>,
    pub rule: Seq<char>,
    pub neg_rule: Seq<char>,
    pub locations: Seq<Code>,
    pub begin: Seq<Code>,
    pub paths: Seq<PathView>,
    pub checks: Seq<CheckView>,
}

impl Fields {
    pub open spec fn view(self) -> FieldsView {
        FieldsView {
            kind: self.kind,
            uname: self.uname@,
            cards: self.cards@,
            unlocks: string_views(self.unlocks@),
            filler: filler_views(self.filler@),
            parent: match self.parent { Some(p) => Some(p@), None => None },
            xp: self.xp,
            level: self.level,
            always: self.always@,
            rule: self.rule@,
            neg_rule: self.neg_rule@,
            locations: self.locations@,
            begin: self.begin@,
            paths: path_views(self.paths@),
            checks: check_views(self.checks@),
        }
    }
}

/// The fields of a record before any line of it.
pub open spec fn empty_fields() -> FieldsView {
    FieldsView {
        kind: Kind::Nothing,
        uname: Seq::empty(),
        cards: Seq::empty(),
        unlocks: Seq::empty(),
        filler: Seq::empty(),
        parent: None,
        xp: 0,
        level: 0,
        always: Seq::empty(),
        rule: Seq::empty(),
        neg_rule: Seq::empty(),
        locations: Seq::empty(),
        begin: Seq::empty(),
        paths: Seq::empty(),
        checks: Seq::empty(),
    }
}

/// What has been read so far: the current record, the campaigns, and for
/// each scenario name the campaign it was last read in.
pub struct ParseView {
    pub fields: FieldsView,
    pub campaigns: Seq<CampaignView>,
    pub lookup: Seq<(Seq<char>, Seq<char>)>,
}

/// Index of the first occurrence of `p` in `s`, or -1 (std's
/// `str::find` with a string pattern).
pub open spec fn find_sub(s: Seq<char>, p: Seq<char>) -> int
    decreases s.len(),
{
    if p.len() > s.len() {
        -1
    } else if s.take(p.len() as int) == p {
        0
    } else if s.len() == 0 {
        -1
    } else {
        let r = find_sub(s.drop_first(), p);
        if r < 0 { -1 } else { r + 1 }
    }
}

/// Every piece is a valid card code.
pub open spec fn all_codes(ps: Seq<Seq<char>>) -> bool {
    forall|k: int| 0 <= k < ps.len() ==> valid_code_str(#[trigger] ps[k])
}

/// The codes of the pieces.
pub open spec fn codes_of(ps: Seq<Seq<char>>) -> Seq<Code> {
    ps.map_values(|p: Seq<char>| code_of_str(p))
}

/// `s` without its leading `-` characters (std's `trim_start_matches('-')`).
pub open spec fn strip_dashes(s: Seq<char>) -> Seq<char>
    decreases s.len(),
{
    if s.len() > 0 && s[0] == '-' { strip_dashes(s.drop_first()) } else { s }
}

/// The text after the first space of `s` and the text before it.
pub open spec fn before_space(s: Seq<char>) -> Seq<char> {
    s.take(find_char(s, ' '))
}

pub open spec fn after_space(s: Seq<char>) -> Seq<char> {
    s.skip(find_char(s, ' ') + 1)
}

/// The four quantities and the name of a filler line, if it has them.
pub open spec fn filler_parts(v: Seq<char>) -> Option<(Seq<Seq<char>>, Seq<char>)> {
    let r0 = v;
    if find_char(r0, ' ') < 0 { None } else {
    let r1 = after_space(r0);
    if find_char(r1, ' ') < 0 { None } else {
    let r2 = after_space(r1);
    if find_char(r2, ' ') < 0 { None } else {
    let r3 = after_space(r2);
    if find_char(r3, ' ') < 0 { None } else {
        Some((seq![before_space(r0), before_space(r1), before_space(r2), before_space(r3)], after_space(r3)))
    }}}}
}

/// Whether each quantity text reads as a number once its leading dashes
/// are removed.
pub open spec fn quantities_ok(qs: Seq<Seq<char>>) -> bool {
    forall|k: int| 0 <= k < qs.len() ==> parse_i64_spec(strip_dashes(#[trigger] qs[k])) is Some
}

/// The trap bit of a quantity text: it is negative.
pub open spec fn trap_bit(q: Seq<char>, bit: int) -> int {
    if q.len() > 0 && q[0] == '-' { bit } else { 0 }
}

/// The filler item that a filler line describes.
pub open spec fn filler_of(qs: Seq<Seq<char>>, name: Seq<char>) -> FillerView {
    FillerView {
        name,
        trap: (trap_bit(qs[0], 1) + trap_bit(qs[1], 2) + trap_bit(qs[2], 4) + trap_bit(qs[3], 8)) as u8,
        quantity: Seq::new(4, |k: int| parse_i64_spec(strip_dashes(qs[k])).unwrap()),
    }
}

/// The text that separates the places of a path or check from its rule.
pub open spec fn requires_sep() -> Seq<char> {
    " requires "@
}

/// The rule after ` requires ` in `v`, read for the record's campaign.
pub open spec fn rule_of(f: FieldsView, v: Seq<char>, at: int) -> Option<Logic> {
    match f.parent {
        Some(p) => Some(parse_spec(p, v.skip(at + requires_sep().len()))),
        None => None,
    }
}

/// An error at line `i`.
pub open spec fn err_at(k: GroupErrorKind, i: int) -> GroupError {
    GroupError { kind: k, line: i as usize }
}

/// The fields after a `path` line with value `v` at line `i`: a path from
/// the first code to each of the others, with the rule after
/// ` requires ` (none if there is no such text).
pub open spec fn path_step(f: FieldsView, v: Seq<char>, i: int) -> Result<FieldsView, GroupError> {
    let at = find_sub(v, requires_sep());
    let places = if at >= 0 { v.take(at) } else { v };
    let ps = split_char(places, ' ');
    if !all_codes(ps) {
        Err(err_at(GroupErrorKind::BadCode, i))
    } else if at >= 0 && f.parent is None {
        Err(err_at(GroupErrorKind::LogicOutsideCampaign, i))
    } else {
        let logic = if at >= 0 { rule_of(f, v, at).unwrap() } else { Logic::True };
        let from = code_of_str(ps[0]);
        let tos = codes_of(ps.drop_first());
        Ok(FieldsView {
            paths: f.paths + Seq::new(tos.len(), |k: int| PathView { from, to: tos[k], logic }),
            ..f
        })
    }
}

/// The fields after an `enemy` line: a check for defeating the card
/// (given count times), worth its victory points.
pub open spec fn enemy_step(f: FieldsView, v: Seq<char>, i: int, cards: Seq<Card>) -> Result<FieldsView, GroupError> {
    let at = find_sub(v, requires_sep());
    if at >= 0 && f.parent is None {
        Err(err_at(GroupErrorKind::LogicOutsideCampaign, i))
    } else {
        let logic = if at >= 0 { rule_of(f, v, at).unwrap() } else { Logic::True };
        let w = if at >= 0 { v.take(at) } else { v };
        let sp = find_char(w, ' ');
        let code_text = if sp >= 0 { w.take(sp) } else { w };
        if !valid_code_str(code_text) {
            Err(err_at(GroupErrorKind::BadCode, i))
        } else if sp >= 0 && parse_i64_spec(w.skip(sp + 1)) is None {
            Err(err_at(GroupErrorKind::BadCount, i))
        } else {
            let code = code_of_str(code_text);
            let count: i64 = if sp >= 0 { parse_i64_spec(w.skip(sp + 1)).unwrap() } else { 1 };
            match card_for(cards, code) {
                None => Err(err_at(GroupErrorKind::UnknownCard, i)),
                Some(card) => Ok(FieldsView {
                    checks: f.checks.push(CheckView {
                        code,
                        name: unique_name_spec(card@),
                        description: "Defeated"@,
                        logic,
                        count,
                        victory: card.victory,
                        goal: false,
                        ids: Seq::empty(),
                    }),
                    ..f
                }),
            }
        }
    }
}

/// The fields after a `special` line: a check for the card.
pub open spec fn special_step(f: FieldsView, v: Seq<char>, i: int, cards: Seq<Card>) -> Result<FieldsView, GroupError> {
    let at = find_sub(v, requires_sep());
    let code_text = if at >= 0 { v.take(at) } else { v };
    if !valid_code_str(code_text) {
        Err(err_at(GroupErrorKind::BadCode, i))
    } else if at >= 0 && f.parent is None {
        Err(err_at(GroupErrorKind::LogicOutsideCampaign, i))
    } else {
        let logic = if at >= 0 { rule_of(f, v, at).unwrap() } else { Logic::True };
        let code = code_of_str(code_text);
        match card_for(cards, code) {
            None => Err(err_at(GroupErrorKind::UnknownCard, i)),
            Some(card) => Ok(FieldsView {
                checks: f.checks.push(CheckView {
                    code,
                    name: unique_name_spec(card@),
                    description: Seq::empty(),
                    logic,
                    count: 1,
                    victory: 0,
                    goal: false,
                    ids: Seq::empty(),
                }),
                ..f
            }),
        }
    }
}

/// The fields after a `filler` line.
pub open spec fn filler_step(f: FieldsView, v: Seq<char>, i: int) -> Result<FieldsView, GroupError> {
    match filler_parts(v) {
        None => Err(err_at(GroupErrorKind::FillerMissingPart, i)),
        Some((qs, name)) => if !quantities_ok(qs) {
            Err(err_at(GroupErrorKind::BadFillerQuantity, i))
        } else {
            Ok(FieldsView { filler: f.filler.push(filler_of(qs, name)), ..f })
        },
    }
}

/// The fields after a line `field value` at line `i`.
pub open spec fn field_step(f: FieldsView, field: Seq<char>, v: Seq<char>, i: int, cards: Seq<Card>) -> Result<FieldsView, GroupError> {
    if field == "campaign"@ {
        Ok(FieldsView { kind: Kind::Campaign, uname: escaped(v), ..f })
    } else if field == "scenario"@ {
        Ok(FieldsView { kind: Kind::Scenario, uname: escaped(v), ..f })
    } else if field == "lock"@ {
        Ok(FieldsView { kind: Kind::Lock, uname: escaped(v), ..f })
    } else if field == "xp"@ {
        match parse_i64_spec(v) {
            Some(x) => Ok(FieldsView { xp: x, ..f }),
            None => Err(err_at(GroupErrorKind::BadXp, i)),
        }
    } else if field == "in"@ {
        Ok(FieldsView { parent: Some(escaped(v)), ..f })
    } else if field == "level"@ {
        match parse_i64_spec(v) {
            Some(x) => Ok(FieldsView { level: x, ..f }),
            None => Err(err_at(GroupErrorKind::BadLevel, i)),
        }
    } else if field == "always"@ {
        Ok(FieldsView { always: escaped(v), ..f })
    } else if field == "rule"@ {
        Ok(FieldsView { rule: escaped(v), ..f })
    } else if field == "neg_rule"@ {
        Ok(FieldsView { neg_rule: escaped(v), ..f })
    } else if field == "locations"@ || field == "begin"@ || field == "cards"@ {
        let ps = split_char(v, ' ');
        if !all_codes(ps) {
            Err(err_at(GroupErrorKind::BadCode, i))
        } else if field == "locations"@ {
            Ok(FieldsView { locations: codes_of(ps), ..f })
        } else if field == "begin"@ {
            Ok(FieldsView { begin: codes_of(ps), ..f })
        } else {
            Ok(FieldsView { cards: codes_of(ps), ..f })
        }
    } else if field == "path"@ {
        path_step(f, v, i)
    } else if field == "enemy"@ {
        enemy_step(f, v, i, cards)
    } else if field == "special"@ {
        special_step(f, v, i, cards)
    } else if field == "description"@ || field == "name"@ {
        if f.checks.len() == 0 {
            Err(err_at(if field == "name"@ { GroupErrorKind::NothingToName } else { GroupErrorKind::NothingToDescribe }, i))
        } else {
            let last = f.checks.last();
            let changed = if field == "name"@ { CheckView { name: escaped(v), ..last } } else { CheckView { description: escaped(v), ..last } };
            Ok(FieldsView { checks: f.checks.drop_last().push(changed), ..f })
        }
    } else if field == "unlock"@ {
        Ok(FieldsView { unlocks: f.unlocks.push(escaped(v)), ..f })
    } else if field == "filler"@ {
        filler_step(f, v, i)
    } else {
        Err(err_at(GroupErrorKind::UnknownField, i))
    }
}

/// Matches a campaign with this name.
pub open spec fn campaign_named(name: Seq<char>) -> spec_fn(CampaignView) -> bool {
    |c: CampaignView| c.name == name
}

/// Matches a scenario with this name.
pub open spec fn scenario_named(name: Seq<char>) -> spec_fn(ScenarioView) -> bool {
    |s: ScenarioView| s.name == name
}

/// How many different names `ns` holds.
pub open spec fn name_count(ns: Seq<Seq<char>>) -> nat
    decreases ns.len(),
{
    if ns.len() == 0 {
        0
    } else {
        name_count(ns.drop_last()) + if ns.drop_last().contains(ns.last()) { 0nat } else { 1nat }
    }
}

/// The names of some campaigns, in order.
pub open spec fn campaign_name_list(cs: Seq<CampaignView>) -> Seq<Seq<char>> {
    cs.map_values(|c: CampaignView| c.name)
}

/// The names of some scenarios, in order.
pub open spec fn scenario_name_list(ss: Seq<ScenarioView>) -> Seq<Seq<char>> {
    ss.map_values(|s: ScenarioView| s.name)
}

/// Every campaign named `n` replaced by `c`.
pub open spec fn replace_campaign(cs: Seq<CampaignView>, n: Seq<char>, c: CampaignView) -> Seq<CampaignView> {
    cs.map_values(|x: CampaignView| if x.name == n { c } else { x })
}

/// Every scenario named `n` replaced by `s`.
pub open spec fn replace_scenario(ss: Seq<ScenarioView>, n: Seq<char>, s: ScenarioView) -> Seq<ScenarioView> {
    ss.map_values(|x: ScenarioView| if x.name == n { s } else { x })
}

/// What an empty line does: it ends the record, which is added to what has
/// been read, and starts a new one.
pub open spec fn finish_record(st: ParseView, i: int) -> Result<ParseView, GroupError> {
    let f = st.fields;
    let cs = st.campaigns;
    let next = ParseView { fields: empty_fields(), ..st };
    match f.kind {
        Kind::Nothing => Ok(next),
        Kind::Campaign => {
            let c = CampaignView {
                name: f.uname,
                i: name_count(campaign_name_list(cs)) as i64,
                xp: f.xp,
                scenarios: Seq::empty(),
                unlocks: f.unlocks,
                scenario_cards: f.cards,
                filler: f.filler,
            };
            Ok(ParseView { campaigns: replace_campaign(cs, f.uname, c).push(c), ..next })
        },
        Kind::Scenario => match f.parent {
            None => Err(err_at(GroupErrorKind::ScenarioWithoutParent, i)),
            Some(p) => {
                let ci = first_where(cs, campaign_named(p));
                if ci < 0 {
                    Err(err_at(GroupErrorKind::UnknownCampaign, i))
                } else {
                    let c = cs[ci];
                    let s = ScenarioView {
                        name: f.uname,
                        i: name_count(scenario_name_list(c.scenarios)) as i64,
                        logic_xp: f.level,
                        always: f.always,
                        locks: Seq::empty(),
                        locations: f.locations,
                        begin: f.begin,
                        paths: f.paths,
                        checks: f.checks,
                    };
                    let c2 = CampaignView { scenarios: replace_scenario(c.scenarios, f.uname, s).push(s), ..c };
                    Ok(ParseView {
                        campaigns: replace_campaign(cs, p, c2),
                        lookup: put(st.lookup, f.uname, p),
                        ..next
                    })
                }
            },
        },
        Kind::Lock => match f.parent {
            None => Err(err_at(GroupErrorKind::LockWithoutParent, i)),
            Some(p) => {
                let li = first_where(st.lookup, key_is(p));
                if li < 0 {
                    Err(err_at(GroupErrorKind::UnknownScenario, i))
                } else {
                    let ci = first_where(cs, campaign_named(st.lookup[li].1));
                    if ci < 0 {
                        Err(err_at(GroupErrorKind::UnknownScenario, i))
                    } else {
                        let c = cs[ci];
                        let si = first_where(c.scenarios, scenario_named(p));
                        if si < 0 {
                            Err(err_at(GroupErrorKind::UnknownScenario, i))
                        } else {
                            let s = c.scenarios[si];
                            let l = LockView { name: f.uname, rule: f.rule, neg_rule: f.neg_rule };
                            let s2 = ScenarioView { locks: s.locks.push(l), ..s };
                            let c2 = CampaignView { scenarios: replace_scenario(c.scenarios, p, s2), ..c };
                            Ok(ParseView { campaigns: replace_campaign(cs, c.name, c2), ..next })
                        }
                    }
                }
            },
        },
    }
}

/// Index of the first empty line at or after `j` (or the number of lines).
pub open spec fn block_end(lines: Seq<Seq<char>>, j: int) -> int
    decreases lines.len() - j,
{
    if j >= lines.len() {
        lines.len() as int
    } else if lines[j].len() == 0 {
        j
    } else {
        block_end(lines, j + 1)
    }
}

/// The text of the lines from `j` to `e`, each escaped, joined with `\n`
/// (a backslash and an `n`).
pub open spec fn block_text(lines: Seq<Seq<char>>, j: int, e: int) -> Seq<char> {
    join(Seq::new((e - j) as nat, |k: int| escaped(lines[j + k])), "\\n"@)
}

/// What the line at `i` does to what has been read; for a block keyword
/// the lines up to the next empty line are its text, and reading goes on
/// after that empty line.
pub open spec fn line_step(lines: Seq<Seq<char>>, i: int, st: ParseView, cards: Seq<Card>) -> Result<(ParseView, int), GroupError> {
    let t = lines[i];
    let sp = find_char(t, ' ');
    let f = st.fields;
    if sp >= 0 {
        match field_step(f, t.take(sp), t.skip(sp + 1), i, cards) {
            Ok(g) => Ok((ParseView { fields: g, ..st }, i + 1)),
            Err(e) => Err(e),
        }
    } else if t == "always"@ || t == "rule"@ || t == "neg_rule"@ {
        let e = block_end(lines, i + 1);
        let text = block_text(lines, i + 1, e);
        let g = if t == "always"@ { FieldsView { always: text, ..f } } else if t == "rule"@ { FieldsView { rule: text, ..f } } else { FieldsView { neg_rule: text, ..f } };
        Ok((ParseView { fields: g, ..st }, if e < lines.len() { e + 1 } else { e }))
    } else if t == "goal"@ {
        if f.checks.len() == 0 {
            Err(err_at(GroupErrorKind::NothingToMakeGoal, i))
        } else {
            let g = FieldsView { checks: f.checks.drop_last().push(CheckView { goal: true, ..f.checks.last() }), ..f };
            Ok((ParseView { fields: g, ..st }, i + 1))
        }
    } else if t.len() == 0 {
        match finish_record(st, i) {
            Ok(st2) => Ok((st2, i + 1)),
            Err(e) => Err(e),
        }
    } else {
        Err(err_at(GroupErrorKind::FieldWithoutValue, i))
    }
}

proof fn lemma_block_end(lines: Seq<Seq<char>>, j: int)
    requires
        0 <= j,
    ensures
        j <= block_end(lines, j) || j > lines.len(),
        block_end(lines, j) <= lines.len(),
        forall|k: int| j <= k < block_end(lines, j) ==> (#[trigger] lines[k]).len() > 0,
        block_end(lines, j) < lines.len() ==> lines[block_end(lines, j)].len() == 0,
    decreases lines.len() - j,
{
    if j < lines.len() && lines[j].len() > 0 {
        lemma_block_end(lines, j + 1);
    }
}

/// Reading from line `i` on, from what has been read so far.
pub open spec fn run(lines: Seq<Seq<char>>, i: int, st: ParseView, cards: Seq<Card>) -> Result<Seq<CampaignView>, GroupError>
    decreases lines.len() - i,
{
    if i < 0 || i >= lines.len() {
        Ok(st.campaigns)
    } else {
        match line_step(lines, i, st, cards) {
            Ok((st2, next)) => if i < next <= lines.len() { run(lines, next, st2, cards) } else { Ok(st2.campaigns) },
            Err(e) => Err(e),
        }
    }
}

/// What the data files say, line by line, from nothing read.
pub open spec fn group_spec(lines: Seq<Seq<char>>, cards: Seq<Card>) -> Result<Seq<CampaignView>, GroupError> {
    run(lines, 0, ParseView { fields: empty_fields(), campaigns: Seq::empty(), lookup: Seq::empty() }, cards)
}

/// Card lists with the same values find the same card for every code.
pub proof fn lemma_card_for_views(a: Seq<Card>, b: Seq<Card>)
    requires
        card_views(a) == card_views(b),
    ensures
        forall|k: Code| (#[trigger] card_for(a, k) is Some) == (card_for(b, k) is Some)
            && (card_for(a, k) is Some ==> card_for(a, k).unwrap()@ == card_for(b, k).unwrap()@),
{
    assert(a.len() == card_views(a).len() && b.len() == card_views(b).len());
    assert forall|k: Code| (#[trigger] card_for(a, k) is Some) == (card_for(b, k) is Some)
        && (card_for(a, k) is Some ==> card_for(a, k).unwrap()@ == card_for(b, k).unwrap()@) by {
        let p = crate::generate::locations::code_pred(k);
        assert forall|j: int| 0 <= j < a.len() implies p(#[trigger] a[j]) == p(b[j]) by {
            assert(card_views(a)[j] == a[j]@ && card_views(b)[j] == b[j]@);
        }
        lemma_first_where_same(a, p, b, p);
        lemma_first_where(a, p);
        let i = first_where(a, p);
        if i >= 0 {
            assert(card_views(a)[i] == a[i]@ && card_views(b)[i] == b[i]@);
        }
    }
}

/// The data files read the same with card lists of the same values.
pub proof fn lemma_group_spec_views(lines: Seq<Seq<char>>, a: Seq<Card>, b: Seq<Card>)
    requires
        card_views(a) == card_views(b),
    ensures
        group_spec(lines, a) == group_spec(lines, b),
{
    lemma_card_for_views(a, b);
    lemma_run_views(lines, 0, ParseView { fields: empty_fields(), campaigns: Seq::empty(), lookup: Seq::empty() }, a, b);
}

proof fn lemma_run_views(lines: Seq<Seq<char>>, i: int, st: ParseView, a: Seq<Card>, b: Seq<Card>)
    requires
        forall|k: Code| (#[trigger] card_for(a, k) is Some) == (card_for(b, k) is Some)
            && (card_for(a, k) is Some ==> card_for(a, k).unwrap()@ == card_for(b, k).unwrap()@),
    ensures
        run(lines, i, st, a) == run(lines, i, st, b),
    decreases lines.len() - i,
{
    if 0 <= i < lines.len() {
        let t = lines[i];
        let sp = find_char(t, ' ');
        if sp >= 0 {
            let f = st.fields;
            let v = t.skip(sp + 1);
            assert(enemy_step(f, v, i, a) == enemy_step(f, v, i, b));
            assert(special_step(f, v, i, a) == special_step(f, v, i, b));
            assert(field_step(f, t.take(sp), v, i, a) == field_step(f, t.take(sp), v, i, b));
        }
        assert(line_step(lines, i, st, a) == line_step(lines, i, st, b));
        match line_step(lines, i, st, a) {
            Ok((st2, next)) => {
                if i < next <= lines.len() {
                    lemma_run_views(lines, next, st2, a, b);
                }
            },
            Err(_) => {},
        }
    }
}

proof fn lemma_step_error_line(lines: Seq<Seq<char>>, i: int, st: ParseView, cards: Seq<Card>)
    requires
        0 <= i < lines.len(),
    ensures
        line_step(lines, i, st, cards) matches Err(e) ==> e.line == i as usize,
{
    let t = lines[i];
    let sp = find_char(t, ' ');
    if sp >= 0 {
        let field = t.take(sp);
        let v = t.skip(sp + 1);
        let f = st.fields;
        if field == "path"@ {
            assert(path_step(f, v, i) matches Err(e) ==> e.line == i as usize);
        } else if field == "enemy"@ {
            assert(enemy_step(f, v, i, cards) matches Err(e) ==> e.line == i as usize);
        } else if field == "special"@ {
            assert(special_step(f, v, i, cards) matches Err(e) ==> e.line == i as usize);
        } else if field == "filler"@ {
            assert(filler_step(f, v, i) matches Err(e) ==> e.line == i as usize);
        }
    } else if t.len() == 0 {
        assert(finish_record(st, i) matches Err(e) ==> e.line == i as usize);
    }
}

/// An error of the data files names one of their lines, at or after `i`.
pub proof fn lemma_error_line_in_range(lines: Seq<Seq<char>>, i: int, st: ParseView, cards: Seq<Card>)
    requires
        0 <= i,
        lines.len() <= usize::MAX,
    ensures
        run(lines, i, st, cards) matches Err(e) ==> i <= e.line < lines.len(),
    decreases lines.len() - i,
{
    if i < lines.len() {
        lemma_step_error_line(lines, i, st, cards);
        match line_step(lines, i, st, cards) {
            Ok((st2, next)) => {
                if i < next <= lines.len() {
                    lemma_error_line_in_range(lines, next, st2, cards);
                }
            },
            Err(e) => {},
        }
    }
}

/// Whether the characters are exactly the literal.
fn eq_lit(cs: &[char], lit: &str) -> (res: bool)
    ensures
        res == (cs@ == lit@),
{
    let l = chars_of(lit);
    if l.len() != cs.len() {
        return false;
    }
    let mut i: usize = 0;
    while i < l.len()
        invariant
            l@ == lit@,
            l@.len() == cs@.len(),
            i <= l@.len(),
            forall|j: int| 0 <= j < i ==> cs@[j] == l@[j],
        decreases l@.len() - i,
    {
        if cs[i] != l[i] {
            return false;
        }
        i = i + 1;
    }
    assert(cs@ =~= l@);
    true
}

/// The characters from `a` up to `b`.
fn sub_chars(cs: &[char], a: usize, b: usize) -> (res: Vec<char>)
    requires
        a <= b <= cs@.len(),
    ensures
        res@ == cs@.subrange(a as int, b as int),
{
    let mut v: Vec<char> = Vec::new();
    let mut i: usize = a;
    while i < b
        invariant
            a <= i <= b,
            b <= cs@.len(),
            v@ == cs@.subrange(a as int, i as int),
        decreases b - i,
    {
        v.push(cs[i]);
        assert(v@ =~= cs@.subrange(a as int, i + 1));
        i = i + 1;
    }
    v
}

/// The escaped text of some characters.
fn escape_chars(cs: &[char]) -> (res: String)
    ensures
        res@ == escaped(cs@),
{
    let s = string_of(cs);
    escape_debug(s.as_str())
}

/// `p` occurs in `s` at `k`.
pub open spec fn occurs_at(s: Seq<char>, p: Seq<char>, k: int) -> bool {
    s.subrange(k, k + p.len()) == p
}

proof fn lemma_find_sub(s: Seq<char>, p: Seq<char>)
    ensures
        -1 <= find_sub(s, p),
        find_sub(s, p) >= 0 ==> find_sub(s, p) <= s.len() - p.len(),
        find_sub(s, p) >= 0 ==> occurs_at(s, p, find_sub(s, p)),
        forall|k: int| 0 <= k <= s.len() - p.len() && (find_sub(s, p) < 0 || k < find_sub(s, p))
            ==> !#[trigger] occurs_at(s, p, k),
    decreases s.len(),
{
    if p.len() > s.len() {
        assert(find_sub(s, p) == -1);
    } else if s.take(p.len() as int) == p {
        assert(find_sub(s, p) == 0);
        assert(s.subrange(0, p.len() as int) =~= s.take(p.len() as int));
    } else if s.len() == 0 {
        assert(find_sub(s, p) == -1);
        assert forall|k: int| 0 <= k <= s.len() - p.len() implies !#[trigger] occurs_at(s, p, k) by {
            assert(k == 0);
            assert(s.subrange(0, p.len() as int) =~= s.take(p.len() as int));
        }
    } else {
        let t = s.drop_first();
        lemma_find_sub(t, p);
        let r = find_sub(t, p);
        assert(find_sub(s, p) == if r < 0 { -1 } else { r + 1 });
        assert forall|k: int| 0 <= k <= s.len() - p.len() && (find_sub(s, p) < 0 || k < find_sub(s, p))
            implies !#[trigger] occurs_at(s, p, k) by {
            if k == 0 {
                assert(s.subrange(0, p.len() as int) =~= s.take(p.len() as int));
            } else {
                assert(s.subrange(k, k + p.len()) =~= t.subrange(k - 1, k - 1 + p.len()));
                assert(!occurs_at(t, p, k - 1));
            }
        }
        if r >= 0 {
            assert(s.subrange(r + 1, r + 1 + p.len()) =~= t.subrange(r, r + p.len()));
        }
    }
}

/// Position of the first occurrence of `p` in `cs`.
fn find_text(cs: &[char], p: &str) -> (res: Option<usize>)
    requires
        cs@.len() <= usize::MAX,
    ensures
        match res {
            Some(k) => find_sub(cs@, p@) == k,
            None => find_sub(cs@, p@) < 0,
        },
{
    let pc = chars_of(p);
    proof { lemma_find_sub(cs@, p@); }
    if pc.len() > cs.len() {
        return None;
    }
    let last: usize = cs.len() - pc.len();
    let mut k: usize = 0;
    while k <= last
        invariant
            pc@ == p@,
            pc@.len() <= cs@.len(),
            cs@.len() <= usize::MAX,
            last == cs@.len() - pc@.len(),
            k <= last + 1,
            forall|q: int| 0 <= q < k ==> !#[trigger] occurs_at(cs@, p@, q),
        decreases last + 1 - k,
    {
        let mut j: usize = 0;
        let mut same = true;
        while j < pc.len()
            invariant
                pc@ == p@,
                pc@.len() <= cs@.len(),
                cs@.len() <= usize::MAX,
                k <= last,
                last == cs@.len() - pc@.len(),
                j <= pc@.len(),
                same == (forall|q: int| 0 <= q < j ==> cs@[k + q] == pc@[q]),
            decreases pc@.len() - j,
        {
            assert(k + j < cs@.len());
            let idx: usize = k + j;
            if cs[idx] != pc[j] {
                same = false;
            }
            j = j + 1;
        }
        if same {
            proof {
                assert(cs@.subrange(k as int, k + p@.len()) =~= p@);
                assert(occurs_at(cs@, p@, k as int));
                lemma_find_sub(cs@, p@);
                if find_sub(cs@, p@) >= 0 && find_sub(cs@, p@) < k {
                    assert(occurs_at(cs@, p@, find_sub(cs@, p@)));
                }
            }
            return Some(k);
        }
        proof {
            let q = choose|q: int| 0 <= q < j && !(cs@[k + q] == pc@[q]);
            assert(cs@.subrange(k as int, k + p@.len())[q] != p@[q]);
            assert(!occurs_at(cs@, p@, k as int));
        }
        if k == last {
            proof {
                lemma_find_sub(cs@, p@);
                if find_sub(cs@, p@) >= 0 {
                    assert(occurs_at(cs@, p@, find_sub(cs@, p@)));
                }
            }
            return None;
        }
        k = k + 1;
    }
    proof { lemma_find_sub(cs@, p@); }
    None
}

/// The values of the pieces of a split.
pub open spec fn piece_views(ps: Seq<Vec<char>>) -> Seq<Seq<char>> {
    ps.map_values(|v: Vec<char>| v@)
}

proof fn lemma_split_nonempty(s: Seq<char>, c: char)
    ensures
        split_char(s, c).len() >= 1,
{
}

/// The codes of the pieces, or `None` if one is not a valid code.
fn codes_of_pieces(ps: &Vec<Vec<char>>) -> (res: Option<Vec<Code>>)
    ensures
        res is Some <==> all_codes(piece_views(ps@)),
        res matches Some(v) ==> v@ == codes_of(piece_views(ps@)),
{
    let ghost pv = piece_views(ps@);
    let mut v: Vec<Code> = Vec::new();
    let mut k: usize = 0;
    while k < ps.len()
        invariant
            pv == piece_views(ps@),
            k <= ps@.len(),
            forall|q: int| 0 <= q < k ==> valid_code_str(#[trigger] pv[q]),
            v@ == codes_of(pv.take(k as int)),
        decreases ps@.len() - k,
    {
        assert(pv[k as int] == ps@[k as int]@);
        match Code::parse_chars(ps[k].as_slice()) {
            Some(c) => {
                v.push(c);
                assert(v@ =~= codes_of(pv.take(k + 1)));
            },
            None => { return None; },
        }
        k = k + 1;
    }
    assert(pv.take(k as int) =~= pv);
    Some(v)
}

impl Fields {
    /// The fields of a record before any line of it.
    pub fn empty() -> (res: Fields)
        ensures
            res@ == empty_fields(),
    {
        let res = Fields {
            kind: Kind::Nothing,
            uname: String::new(),
            cards: Vec::new(),
            unlocks: Vec::new(),
            filler: Vec::new(),
            parent: None,
            xp: 0,
            level: 0,
            always: String::new(),
            rule: String::new(),
            neg_rule: String::new(),
            locations: Vec::new(),
            begin: Vec::new(),
            paths: Vec::new(),
            checks: Vec::new(),
        };
        proof {
            assert(res@.unlocks =~= Seq::<Seq<char>>::empty());
            assert(res@.filler =~= Seq::<FillerView>::empty());
            assert(res@.paths =~= Seq::<PathView>::empty());
            assert(res@.checks =~= Seq::<CheckView>::empty());
            assert(res@.uname =~= Seq::<char>::empty());
            assert(res@.always =~= Seq::<char>::empty());
            assert(res@.rule =~= Seq::<char>::empty());
            assert(res@.neg_rule =~= Seq::<char>::empty());
            assert(res@.cards =~= Seq::<Code>::empty());
            assert(res@.locations =~= Seq::<Code>::empty());
            assert(res@.begin =~= Seq::<Code>::empty());
        }
        res
    }
}

/// Where ` requires ` begins in `v`, and the rule after it.
fn split_requires(v: &[char]) -> (res: Option<(usize, Vec<char>)>)
    requires
        v@.len() <= usize::MAX,
    ensures
        match res {
            Some((k, rest)) => find_sub(v@, requires_sep()) == k && k + requires_sep().len() <= v@.len()
                && rest@ == v@.skip(k + requires_sep().len()),
            None => find_sub(v@, requires_sep()) < 0,
        },
{
    let sep = chars_of(" requires ");
    match find_text(v, " requires ") {
        Some(k) => {
            proof { lemma_find_sub(v@, requires_sep()); }
            let rest = sub_chars(v, k + sep.len(), v.len());
            assert(rest@ =~= v@.skip(k + requires_sep().len()));
            Some((k, rest))
        },
        None => None,
    }
}

fn path_field(f: &mut Fields, v: &[char], i: usize) -> (res: Result<(), GroupError>)
    requires
        v@.len() <= usize::MAX,
    ensures
        match path_step(old(f)@, v@, i as int) {
            Ok(g) => res is Ok && final(f)@ == g,
            Err(e) => res == Err::<(), GroupError>(e),
        },
{
    let req = split_requires(v);
    let places = match &req {
        Some((k, _)) => sub_chars(v, 0, *k),
        None => sub_chars(v, 0, v.len()),
    };
    proof {
        if req is None { assert(places@ =~= v@); } else { assert(places@ =~= v@.take(find_sub(v@, requires_sep()))); }
    }
    let pieces = split(places.as_slice(), ' ');
    proof { lemma_split_nonempty(places@, ' '); }
    let codes = match codes_of_pieces(&pieces) {
        Some(c) => c,
        None => { return Err(GroupError { kind: GroupErrorKind::BadCode, line: i }); },
    };
    let logic = match &req {
        Some((_, rest)) => match &f.parent {
            Some(p) => {
                let r = string_of(rest.as_slice());
                parse_logic(p.as_str(), r.as_str())
            },
            None => { return Err(GroupError { kind: GroupErrorKind::LogicOutsideCampaign, line: i }); },
        },
        None => LogicTerm::True,
    };
    let ghost ps = split_char(places@, ' ');
    let ghost tos = codes_of(ps.drop_first());
    let from = codes[0];
    let ghost base = path_views(f.paths@);
    let ghost lv = logic@;
    let ghost added = Seq::new(tos.len(), |q: int| PathView { from, to: tos[q], logic: lv });
    let mut t: usize = 1;
    proof { assert(base + added.take(0) =~= base); }
    while t < codes.len()
        invariant
            codes@ == codes_of(ps),
            ps.len() >= 1,
            tos == codes_of(ps.drop_first()),
            from == codes@[0],
            lv == logic@,
            added == Seq::new(tos.len(), |q: int| PathView { from, to: tos[q], logic: lv }),
            1 <= t <= codes@.len(),
            path_views(f.paths@) == base + added.take(t - 1),
            f@.kind == old(f)@.kind && f@.uname == old(f)@.uname && f@.cards == old(f)@.cards && f@.unlocks == old(f)@.unlocks
                && f@.filler == old(f)@.filler && f@.parent == old(f)@.parent && f@.xp == old(f)@.xp && f@.level == old(f)@.level
                && f@.always == old(f)@.always && f@.rule == old(f)@.rule && f@.neg_rule == old(f)@.neg_rule
                && f@.locations == old(f)@.locations && f@.begin == old(f)@.begin && f@.checks == old(f)@.checks,
            base == path_views(old(f).paths@),
        decreases codes@.len() - t,
    {
        let path = Path { from, to: codes[t], logic: logic.copy() };
        proof {
            assert(tos[t - 1] == codes@[t as int]);
            assert(added[t - 1] == path@);
        }
        let ghost before = f.paths@;
        f.paths.push(path);
        proof {
            assert(path_views(f.paths@) =~= path_views(before).push(path@));
            assert(added.take(t as int) =~= added.take(t - 1).push(path@));
        }
        t = t + 1;
    }
    proof {
        assert(added.take(t - 1) =~= added);
        assert(f@ =~= FieldsView { paths: base + added, ..old(f)@ });
    }
    Ok(())
}

fn lit_string(lit: &str) -> (res: String)
    ensures
        res@ == lit@,
{
    let mut s = String::new();
    push_str(&mut s, lit);
    s
}

fn enemy_field(f: &mut Fields, v: &[char], i: usize, cards: &Vec<Card>) -> (res: Result<(), GroupError>)
    requires
        v@.len() <= usize::MAX,
    ensures
        match enemy_step(old(f)@, v@, i as int, cards@) {
            Ok(g) => res is Ok && final(f)@ == g,
            Err(e) => res == Err::<(), GroupError>(e),
        },
{
    let req = split_requires(v);
    let logic = match &req {
        Some((_, rest)) => match &f.parent {
            Some(p) => {
                let r = string_of(rest.as_slice());
                parse_logic(p.as_str(), r.as_str())
            },
            None => { return Err(GroupError { kind: GroupErrorKind::LogicOutsideCampaign, line: i }); },
        },
        None => LogicTerm::True,
    };
    let w = match &req {
        Some((k, _)) => sub_chars(v, 0, *k),
        None => sub_chars(v, 0, v.len()),
    };
    proof {
        if req is None { assert(w@ =~= v@); } else { assert(w@ =~= v@.take(find_sub(v@, requires_sep()))); }
    }
    let sp = find(w.as_slice(), ' ');
    proof { lemma_find_char(w@, ' '); }
    let code_text = match sp {
        Some(q) => sub_chars(w.as_slice(), 0, q),
        None => sub_chars(w.as_slice(), 0, w.len()),
    };
    proof {
        if sp is None { assert(code_text@ =~= w@); } else { assert(code_text@ =~= w@.take(find_char(w@, ' '))); }
    }
    let code = match Code::parse_chars(code_text.as_slice()) {
        Some(c) => c,
        None => { return Err(GroupError { kind: GroupErrorKind::BadCode, line: i }); },
    };
    let count: i64 = match sp {
        Some(q) => {
            let ct = sub_chars(w.as_slice(), q + 1, w.len());
            assert(ct@ =~= w@.skip(find_char(w@, ' ') + 1));
            match parse_i64(ct.as_slice()) {
                Some(n) => n,
                None => { return Err(GroupError { kind: GroupErrorKind::BadCount, line: i }); },
            }
        },
        None => 1,
    };
    let ix = match lookup_card(cards, code) {
        Some(ix) => ix,
        None => { return Err(GroupError { kind: GroupErrorKind::UnknownCard, line: i }); },
    };
    let card = &cards[ix];
    let check = Check {
        code,
        name: card.unique_name(),
        description: lit_string("Defeated"),
        logic,
        count,
        victory: card.victory,
        goal: false,
        ids: Vec::new(),
    };
    let ghost before = f.checks@;
    f.checks.push(check);
    proof {
        assert(check@.ids =~= Seq::<i64>::empty());
        assert(check_views(f.checks@) =~= check_views(before).push(check@));
    }
    Ok(())
}

fn special_field(f: &mut Fields, v: &[char], i: usize, cards: &Vec<Card>) -> (res: Result<(), GroupError>)
    requires
        v@.len() <= usize::MAX,
    ensures
        match special_step(old(f)@, v@, i as int, cards@) {
            Ok(g) => res is Ok && final(f)@ == g,
            Err(e) => res == Err::<(), GroupError>(e),
        },
{
    let req = split_requires(v);
    let code_text = match &req {
        Some((k, _)) => sub_chars(v, 0, *k),
        None => sub_chars(v, 0, v.len()),
    };
    proof {
        if req is None { assert(code_text@ =~= v@); } else { assert(code_text@ =~= v@.take(find_sub(v@, requires_sep()))); }
    }
    let code = match Code::parse_chars(code_text.as_slice()) {
        Some(c) => c,
        None => { return Err(GroupError { kind: GroupErrorKind::BadCode, line: i }); },
    };
    let logic = match &req {
        Some((_, rest)) => match &f.parent {
            Some(p) => {
                let r = string_of(rest.as_slice());
                parse_logic(p.as_str(), r.as_str())
            },
            None => { return Err(GroupError { kind: GroupErrorKind::LogicOutsideCampaign, line: i }); },
        },
        None => LogicTerm::True,
    };
    let ix = match lookup_card(cards, code) {
        Some(ix) => ix,
        None => { return Err(GroupError { kind: GroupErrorKind::UnknownCard, line: i }); },
    };
    let card = &cards[ix];
    let check = Check {
        code,
        name: card.unique_name(),
        description: String::new(),
        logic,
        count: 1,
        victory: 0,
        goal: false,
        ids: Vec::new(),
    };
    let ghost before = f.checks@;
    f.checks.push(check);
    proof {
        assert(check@.ids =~= Seq::<i64>::empty());
        assert(check@.description =~= Seq::<char>::empty());
        assert(check_views(f.checks@) =~= check_views(before).push(check@));
    }
    Ok(())
}

/// The text before the first space and the text after it.
fn split_space(s: &[char]) -> (res: Option<(Vec<char>, Vec<char>)>)
    requires
        s@.len() <= usize::MAX,
    ensures
        res is Some <==> find_char(s@, ' ') >= 0,
        res matches Some((a, b)) ==> a@ == before_space(s@) && b@ == after_space(s@) && a@.len() <= s@.len() && b@.len() <= s@.len(),
{
    proof { lemma_find_char(s@, ' '); }
    match find(s, ' ') {
        Some(k) => {
            let a = sub_chars(s, 0, k);
            let b = sub_chars(s, k + 1, s.len());
            assert(a@ =~= before_space(s@));
            assert(b@ =~= after_space(s@));
            Some((a, b))
        },
        None => None,
    }
}

fn strip_dashes_exec(s: &[char]) -> (res: Vec<char>)
    requires
        s@.len() <= usize::MAX,
    ensures
        res@ == strip_dashes(s@),
{
    let mut k: usize = 0;
    assert(s@.skip(0) =~= s@);
    while k < s.len() && s[k] == '-'
        invariant
            k <= s@.len(),
            strip_dashes(s@) == strip_dashes(s@.skip(k as int)),
        decreases s@.len() - k,
    {
        assert(s@.skip(k as int).drop_first() =~= s@.skip(k + 1));
        k = k + 1;
    }
    let r = sub_chars(s, k, s.len());
    assert(r@ =~= s@.skip(k as int));
    r
}

fn quantity_of(q: &Vec<char>) -> (res: Option<(i64, bool)>)
    ensures
        res is Some <==> parse_i64_spec(strip_dashes(q@)) is Some,
        res matches Some((n, neg)) ==> Some(n) == parse_i64_spec(strip_dashes(q@)) && neg == (q@.len() > 0 && q@[0] == '-'),
{
    let _n: usize = q.len();
    let t = strip_dashes_exec(q.as_slice());
    match parse_i64(t.as_slice()) {
        Some(n) => Some((n, q.len() > 0 && q[0] == '-')),
        None => None,
    }
}

fn filler_field(f: &mut Fields, v: &[char], i: usize) -> (res: Result<(), GroupError>)
    requires
        v@.len() <= usize::MAX,
    ensures
        match filler_step(old(f)@, v@, i as int) {
            Ok(g) => res is Ok && final(f)@ == g,
            Err(e) => res == Err::<(), GroupError>(e),
        },
{
    let missing = GroupError { kind: GroupErrorKind::FillerMissingPart, line: i };
    let (q0, r1) = match split_space(v) { Some(p) => p, None => { return Err(missing); } };
    let (q1, r2) = match split_space(r1.as_slice()) { Some(p) => p, None => { return Err(missing); } };
    let (q2, r3) = match split_space(r2.as_slice()) { Some(p) => p, None => { return Err(missing); } };
    let (q3, name) = match split_space(r3.as_slice()) { Some(p) => p, None => { return Err(missing); } };
    let ghost qs = seq![q0@, q1@, q2@, q3@];
    assert(filler_parts(v@) == Some((qs, name@)));
    let bad = GroupError { kind: GroupErrorKind::BadFillerQuantity, line: i };
    let (n0, d0) = match quantity_of(&q0) { Some(p) => p, None => { assert(!quantities_ok(qs)); return Err(bad); } };
    let (n1, d1) = match quantity_of(&q1) { Some(p) => p, None => { assert(!quantities_ok(qs)); return Err(bad); } };
    let (n2, d2) = match quantity_of(&q2) { Some(p) => p, None => { assert(!quantities_ok(qs)); return Err(bad); } };
    let (n3, d3) = match quantity_of(&q3) { Some(p) => p, None => { assert(!quantities_ok(qs)); return Err(bad); } };
    let mut trap: u8 = 0;
    if d0 { trap = trap + 1; }
    if d1 { trap = trap + 2; }
    if d2 { trap = trap + 4; }
    if d3 { trap = trap + 8; }
    let filler = Filler { name: string_of(name.as_slice()), trap, quantity: [n0, n1, n2, n3] };
    proof {
        assert(quantities_ok(qs));
        assert(filler@.quantity =~= Seq::new(4, |k: int| parse_i64_spec(strip_dashes(qs[k])).unwrap()));
        assert(filler@ == filler_of(qs, name@));
    }
    let ghost before = f.filler@;
    f.filler.push(filler);
    proof {
        assert(filler_views(f.filler@) =~= filler_views(before).push(filler@));
    }
    Ok(())
}

/// Applies a line `field value` to the fields of the record.
fn apply_field(f: &mut Fields, field: &[char], v: &[char], i: usize, cards: &Vec<Card>) -> (res: Result<(), GroupError>)
    requires
        v@.len() <= usize::MAX,
    ensures
        match field_step(old(f)@, field@, v@, i as int, cards@) {
            Ok(g) => res is Ok && final(f)@ == g,
            Err(e) => res == Err::<(), GroupError>(e),
        },
{
    if eq_lit(field, "campaign") {
        f.kind = Kind::Campaign;
        f.uname = escape_chars(v);
        Ok(())
    } else if eq_lit(field, "scenario") {
        f.kind = Kind::Scenario;
        f.uname = escape_chars(v);
        Ok(())
    } else if eq_lit(field, "lock") {
        f.kind = Kind::Lock;
        f.uname = escape_chars(v);
        Ok(())
    } else if eq_lit(field, "xp") {
        match parse_i64(v) {
            Some(x) => { f.xp = x; Ok(()) },
            None => Err(GroupError { kind: GroupErrorKind::BadXp, line: i }),
        }
    } else if eq_lit(field, "in") {
        f.parent = Some(escape_chars(v));
        Ok(())
    } else if eq_lit(field, "level") {
        match parse_i64(v) {
            Some(x) => { f.level = x; Ok(()) },
            None => Err(GroupError { kind: GroupErrorKind::BadLevel, line: i }),
        }
    } else if eq_lit(field, "always") {
        f.always = escape_chars(v);
        Ok(())
    } else if eq_lit(field, "rule") {
        f.rule = escape_chars(v);
        Ok(())
    } else if eq_lit(field, "neg_rule") {
        f.neg_rule = escape_chars(v);
        Ok(())
    } else if eq_lit(field, "locations") || eq_lit(field, "begin") || eq_lit(field, "cards") {
        let pieces = split(v, ' ');
        match codes_of_pieces(&pieces) {
            Some(codes) => {
                if eq_lit(field, "locations") {
                    f.locations = codes;
                } else if eq_lit(field, "begin") {
                    f.begin = codes;
                } else {
                    f.cards = codes;
                }
                Ok(())
            },
            None => Err(GroupError { kind: GroupErrorKind::BadCode, line: i }),
        }
    } else if eq_lit(field, "path") {
        path_field(f, v, i)
    } else if eq_lit(field, "enemy") {
        enemy_field(f, v, i, cards)
    } else if eq_lit(field, "special") {
        special_field(f, v, i, cards)
    } else if eq_lit(field, "description") || eq_lit(field, "name") {
        let is_name = eq_lit(field, "name");
        let n = f.checks.len();
        if n == 0 {
            return Err(GroupError { kind: if is_name { GroupErrorKind::NothingToName } else { GroupErrorKind::NothingToDescribe }, line: i });
        }
        let text = escape_chars(v);
        let ghost before = f.checks@;
        if is_name {
            f.checks[n - 1].name = text;
        } else {
            f.checks[n - 1].description = text;
        }
        proof {
            assert(check_views(f.checks@) =~= check_views(before).drop_last().push(check_views(f.checks@).last()));
            assert(check_views(before).last() == before[n - 1]@);
        }
        Ok(())
    } else if eq_lit(field, "unlock") {
        let u = escape_chars(v);
        let ghost before = f.unlocks@;
        f.unlocks.push(u);
        proof { assert(string_views(f.unlocks@) =~= string_views(before).push(u@)); }
        Ok(())
    } else if eq_lit(field, "filler") {
        filler_field(f, v, i)
    } else {
        Err(GroupError { kind: GroupErrorKind::UnknownField, line: i })
    }
}

/// The names in the scenario lookup.
pub open spec fn lookup_view(v: Seq<(String, String)>) -> Seq<(Seq<char>, Seq<char>)> {
    v.map_values(|e: (String, String)| (e.0@, e.1@))
}

/// What has been read, as a value.
pub open spec fn parse_view(f: Fields, cs: Seq<Campaign>, lookup: Seq<(String, String)>) -> ParseView {
    ParseView { fields: f@, campaigns: campaign_views(cs), lookup: lookup_view(lookup) }
}

fn find_campaign(cs: &Vec<Campaign>, name: &String) -> (res: Option<usize>)
    ensures
        match res {
            Some(k) => k < cs@.len() && first_where(campaign_views(cs@), campaign_named(name@)) == k,
            None => first_where(campaign_views(cs@), campaign_named(name@)) < 0,
        },
{
    let ghost v = campaign_views(cs@);
    let ghost p = campaign_named(name@);
    let mut k: usize = 0;
    while k < cs.len()
        invariant
            v == campaign_views(cs@),
            p == campaign_named(name@),
            k <= cs@.len(),
            forall|j: int| 0 <= j < k ==> !p(#[trigger] v[j]),
        decreases cs@.len() - k,
    {
        assert(v[k as int] == cs@[k as int]@);
        if cs[k].name == *name {
            proof { lemma_first_where_at(v, p, k as int); }
            return Some(k);
        }
        k = k + 1;
    }
    proof { lemma_first_where_none(v, p); }
    None
}

fn find_scenario(ss: &Vec<Scenario>, name: &String) -> (res: Option<usize>)
    ensures
        match res {
            Some(k) => k < ss@.len() && first_where(scenario_views(ss@), scenario_named(name@)) == k,
            None => first_where(scenario_views(ss@), scenario_named(name@)) < 0,
        },
{
    let ghost v = scenario_views(ss@);
    let ghost p = scenario_named(name@);
    let mut k: usize = 0;
    while k < ss.len()
        invariant
            v == scenario_views(ss@),
            p == scenario_named(name@),
            k <= ss@.len(),
            forall|j: int| 0 <= j < k ==> !p(#[trigger] v[j]),
        decreases ss@.len() - k,
    {
        assert(v[k as int] == ss@[k as int]@);
        if ss[k].name == *name {
            proof { lemma_first_where_at(v, p, k as int); }
            return Some(k);
        }
        k = k + 1;
    }
    proof { lemma_first_where_none(v, p); }
    None
}

fn find_lookup(m: &Vec<(String, String)>, name: &String) -> (res: Option<usize>)
    ensures
        match res {
            Some(k) => k < m@.len() && first_where(lookup_view(m@), key_is(name@)) == k,
            None => first_where(lookup_view(m@), key_is(name@)) < 0,
        },
{
    let ghost v = lookup_view(m@);
    let ghost p = key_is::<Seq<char>, Seq<char>>(name@);
    let mut k: usize = 0;
    while k < m.len()
        invariant
            v == lookup_view(m@),
            p == key_is::<Seq<char>, Seq<char>>(name@),
            k <= m@.len(),
            forall|j: int| 0 <= j < k ==> !p(#[trigger] v[j]),
        decreases m@.len() - k,
    {
        assert(v[k as int] == (m@[k as int].0@, m@[k as int].1@));
        if m[k].0 == *name {
            proof { lemma_first_where_at(v, p, k as int); }
            return Some(k);
        }
        k = k + 1;
    }
    proof { lemma_first_where_none(v, p); }
    None
}

fn put_lookup(m: &mut Vec<(String, String)>, k: String, v: String)
    ensures
        lookup_view(final(m)@) == put(lookup_view(old(m)@), k@, v@),
{
    let ghost kv = k@;
    let ghost vv = v@;
    let ghost before = lookup_view(m@);
    match find_lookup(m, &k) {
        Some(i) => {
            m.set(i, (k, v));
            proof { assert(lookup_view(m@) =~= before.update(i as int, (kv, vv))); }
        },
        None => {
            m.push((k, v));
            proof { assert(lookup_view(m@) =~= before.push((kv, vv))); }
        },
    }
}

fn count_campaign_names(cs: &Vec<Campaign>) -> (n: usize)
    ensures
        n == name_count(campaign_name_list(campaign_views(cs@))),
{
    let ghost names = campaign_name_list(campaign_views(cs@));
    let mut n: usize = 0;
    let mut k: usize = 0;
    proof { assert(names.take(0) =~= Seq::<Seq<char>>::empty()); }
    while k < cs.len()
        invariant
            names == campaign_name_list(campaign_views(cs@)),
            names.len() == cs@.len(),
            k <= cs@.len(),
            n <= k,
            n == name_count(names.take(k as int)),
        decreases cs@.len() - k,
    {
        let mut seen = false;
        let mut j: usize = 0;
        while j < k
            invariant
                names == campaign_name_list(campaign_views(cs@)),
                names.len() == cs@.len(),
                k < cs@.len(),
                j <= k,
                seen <==> exists|q: int| 0 <= q < j && names[q] == names[k as int],
            decreases k - j,
        {
            assert(names[j as int] == cs@[j as int].name@ && names[k as int] == cs@[k as int].name@);
            if cs[j].name == cs[k].name {
                seen = true;
            }
            j = j + 1;
        }
        proof {
            let t = names.take(k + 1);
            assert(t.drop_last() =~= names.take(k as int));
            assert(t.last() == names[k as int]);
            if seen {
                let q = choose|q: int| 0 <= q < k && names[q] == names[k as int];
                assert(names.take(k as int)[q] == names[k as int]);
            } else {
                assert(!names.take(k as int).contains(names[k as int]));
            }
        }
        if !seen {
            n = n + 1;
        }
        k = k + 1;
    }
    proof { assert(names.take(k as int) =~= names); }
    n
}

fn count_scenario_names(ss: &Vec<Scenario>) -> (n: usize)
    ensures
        n == name_count(scenario_name_list(scenario_views(ss@))),
{
    let ghost names = scenario_name_list(scenario_views(ss@));
    let mut n: usize = 0;
    let mut k: usize = 0;
    proof { assert(names.take(0) =~= Seq::<Seq<char>>::empty()); }
    while k < ss.len()
        invariant
            names == scenario_name_list(scenario_views(ss@)),
            names.len() == ss@.len(),
            k <= ss@.len(),
            n <= k,
            n == name_count(names.take(k as int)),
        decreases ss@.len() - k,
    {
        let mut seen = false;
        let mut j: usize = 0;
        while j < k
            invariant
                names == scenario_name_list(scenario_views(ss@)),
                names.len() == ss@.len(),
                k < ss@.len(),
                j <= k,
                seen <==> exists|q: int| 0 <= q < j && names[q] == names[k as int],
            decreases k - j,
        {
            assert(names[j as int] == ss@[j as int].name@ && names[k as int] == ss@[k as int].name@);
            if ss[j].name == ss[k].name {
                seen = true;
            }
            j = j + 1;
        }
        proof {
            let t = names.take(k + 1);
            assert(t.drop_last() =~= names.take(k as int));
            assert(t.last() == names[k as int]);
            if seen {
                let q = choose|q: int| 0 <= q < k && names[q] == names[k as int];
                assert(names.take(k as int)[q] == names[k as int]);
            } else {
                assert(!names.take(k as int).contains(names[k as int]));
            }
        }
        if !seen {
            n = n + 1;
        }
        k = k + 1;
    }
    proof { assert(names.take(k as int) =~= names); }
    n
}

fn replace_campaigns(cs: &mut Vec<Campaign>, c: &Campaign)
    ensures
        campaign_views(final(cs)@) == replace_campaign(campaign_views(old(cs)@), c@.name, c@),
{
    let ghost target = replace_campaign(campaign_views(cs@), c@.name, c@);
    let ghost start = cs@;
    let mut k: usize = 0;
    while k < cs.len()
        invariant
            target == replace_campaign(campaign_views(start), c@.name, c@),
            cs@.len() == start.len(),
            k <= cs@.len(),
            forall|j: int| 0 <= j < k ==> #[trigger] cs@[j]@ == target[j],
            forall|j: int| k <= j < cs@.len() ==> #[trigger] cs@[j] == start[j],
        decreases cs@.len() - k,
    {
        if cs[k].name == c.name {
            cs.set(k, c.copy());
        }
        k = k + 1;
    }
    assert(campaign_views(cs@) =~= target);
}

fn replace_scenarios(ss: &mut Vec<Scenario>, s: &Scenario)
    ensures
        scenario_views(final(ss)@) == replace_scenario(scenario_views(old(ss)@), s@.name, s@),
{
    let ghost target = replace_scenario(scenario_views(ss@), s@.name, s@);
    let ghost start = ss@;
    let mut k: usize = 0;
    while k < ss.len()
        invariant
            target == replace_scenario(scenario_views(start), s@.name, s@),
            ss@.len() == start.len(),
            k <= ss@.len(),
            forall|j: int| 0 <= j < k ==> #[trigger] ss@[j]@ == target[j],
            forall|j: int| k <= j < ss@.len() ==> #[trigger] ss@[j] == start[j],
        decreases ss@.len() - k,
    {
        if ss[k].name == s.name {
            ss.set(k, s.copy());
        }
        k = k + 1;
    }
    assert(scenario_views(ss@) =~= target);
}

/// Ends the record: adds it to what has been read and starts a new one.
fn finish(fields: &mut Fields, campaigns: &mut Vec<Campaign>, lookup: &mut Vec<(String, String)>, i: usize) -> (res: Result<(), GroupError>)
    ensures
        match finish_record(parse_view(*old(fields), old(campaigns)@, old(lookup)@), i as int) {
            Ok(st) => res is Ok && parse_view(*final(fields), final(campaigns)@, final(lookup)@) == st,
            Err(e) => res == Err::<(), GroupError>(e),
        },
{
    let ghost st = parse_view(*fields, campaigns@, lookup@);
    let ghost cs = campaign_views(campaigns@);
    let mut f = Fields::empty();
    core::mem::swap(&mut f, fields);
    match f.kind {
        Kind::Nothing => Ok(()),
        Kind::Campaign => {
            let n = count_campaign_names(campaigns);
            let c = Campaign {
                name: f.uname,
                i: n as i64,
                xp: f.xp,
                scenarios: Vec::new(),
                unlocks: f.unlocks,
                scenario_cards: f.cards,
                filler: f.filler,
            };
            proof { assert(c@.scenarios =~= Seq::<ScenarioView>::empty()); }
            replace_campaigns(campaigns, &c);
            let ghost mid = campaign_views(campaigns@);
            campaigns.push(c);
            proof {
                assert(campaign_views(campaigns@) =~= mid.push(c@));
            }
            Ok(())
        },
        Kind::Scenario => {
            let p = match f.parent {
                Some(p) => p,
                None => { return Err(GroupError { kind: GroupErrorKind::ScenarioWithoutParent, line: i }); },
            };
            let ci = match find_campaign(campaigns, &p) {
                Some(ci) => ci,
                None => { return Err(GroupError { kind: GroupErrorKind::UnknownCampaign, line: i }); },
            };
            proof { assert(cs[ci as int] == campaigns@[ci as int]@); }
            let n = count_scenario_names(&campaigns[ci].scenarios);
            let uname = f.uname;
            let sc = Scenario {
                name: uname.clone(),
                i: n as i64,
                logic_xp: f.level,
                always: f.always,
                locks: Vec::new(),
                locations: f.locations,
                begin: f.begin,
                paths: f.paths,
                checks: f.checks,
            };
            proof { assert(sc@.locks =~= Seq::<LockView>::empty()); }
            let ghost sv = sc@;
            let ghost cv = campaigns@[ci as int]@;
            let mut c2 = campaigns[ci].copy();
            replace_scenarios(&mut c2.scenarios, &sc);
            let ghost mid = scenario_views(c2.scenarios@);
            c2.scenarios.push(sc);
            proof {
                assert(scenario_views(c2.scenarios@) =~= mid.push(sv));
                assert(c2@ == CampaignView { scenarios: replace_scenario(cv.scenarios, uname@, sv).push(sv), ..cv });
                lemma_first_where(cs, campaign_named(p@));
                assert(c2@.name == p@);
            }
            replace_campaigns(campaigns, &c2);
            put_lookup(lookup, uname, p);
            Ok(())
        },
        Kind::Lock => {
            let p = match f.parent {
                Some(p) => p,
                None => { return Err(GroupError { kind: GroupErrorKind::LockWithoutParent, line: i }); },
            };
            let li = match find_lookup(lookup, &p) {
                Some(li) => li,
                None => { return Err(GroupError { kind: GroupErrorKind::UnknownScenario, line: i }); },
            };
            proof { assert(lookup_view(lookup@)[li as int] == (lookup@[li as int].0@, lookup@[li as int].1@)); }
            let ci = match find_campaign(campaigns, &lookup[li].1) {
                Some(ci) => ci,
                None => { return Err(GroupError { kind: GroupErrorKind::UnknownScenario, line: i }); },
            };
            proof { assert(cs[ci as int] == campaigns@[ci as int]@); }
            let si = match find_scenario(&campaigns[ci].scenarios, &p) {
                Some(si) => si,
                None => { return Err(GroupError { kind: GroupErrorKind::UnknownScenario, line: i }); },
            };
            let lock = Lock { name: f.uname, rule: f.rule, neg_rule: f.neg_rule };
            let ghost lv = lock@;
            let ghost cv = campaigns@[ci as int]@;
            let ghost s_old = campaigns@[ci as int].scenarios@[si as int]@;
            proof { assert(cv.scenarios[si as int] == s_old); }
            let mut s2 = campaigns[ci].scenarios[si].copy();
            let ghost before_locks = lock_views(s2.locks@);
            s2.locks.push(lock);
            proof {
                assert(lock_views(s2.locks@) =~= before_locks.push(lv));
                assert(s2@ == ScenarioView { locks: s_old.locks.push(lv), ..s_old });
                lemma_first_where(cv.scenarios, scenario_named(p@));
                assert(s2@.name == p@);
            }
            let mut c2 = campaigns[ci].copy();
            replace_scenarios(&mut c2.scenarios, &s2);
            proof {
                assert(c2@ == CampaignView { scenarios: replace_scenario(cv.scenarios, p@, s2@), ..cv });
            }
            replace_campaigns(campaigns, &c2);
            Ok(())
        },
    }
}

/// Scenarios of the same name are the same scenario.
pub open spec fn scenarios_agree(ss: Seq<ScenarioView>) -> bool {
    forall|a: int, b: int| 0 <= a < ss.len() && 0 <= b < ss.len() && (#[trigger] ss[a]).name == (#[trigger] ss[b]).name ==> ss[a] == ss[b]
}

/// Campaigns of the same name are the same campaign, and within each
/// campaign scenarios of the same name are the same scenario: each name
/// stands for one record, however often the reading order lists it.
pub open spec fn records_agree(cs: Seq<CampaignView>) -> bool {
    &&& forall|a: int, b: int| 0 <= a < cs.len() && 0 <= b < cs.len() && (#[trigger] cs[a]).name == (#[trigger] cs[b]).name ==> cs[a] == cs[b]
    &&& forall|k: int| 0 <= k < cs.len() ==> scenarios_agree(#[trigger] cs[k].scenarios)
}

proof fn lemma_replace_scenario_agrees(ss: Seq<ScenarioView>, n: Seq<char>, s: ScenarioView, push: bool)
    requires
        scenarios_agree(ss),
        s.name == n,
    ensures
        scenarios_agree(if push { replace_scenario(ss, n, s).push(s) } else { replace_scenario(ss, n, s) }),
{
    let r = replace_scenario(ss, n, s);
    let t = if push { r.push(s) } else { r };
    assert forall|a: int, b: int| 0 <= a < t.len() && 0 <= b < t.len() && (#[trigger] t[a]).name == (#[trigger] t[b]).name implies t[a] == t[b] by {
        if a < ss.len() { assert(t[a] == r[a]); }
        if b < ss.len() { assert(t[b] == r[b]); }
    }
}

proof fn lemma_replace_campaign_agrees(cs: Seq<CampaignView>, n: Seq<char>, c: CampaignView, push: bool)
    requires
        records_agree(cs),
        c.name == n,
        scenarios_agree(c.scenarios),
    ensures
        records_agree(if push { replace_campaign(cs, n, c).push(c) } else { replace_campaign(cs, n, c) }),
{
    let r = replace_campaign(cs, n, c);
    let t = if push { r.push(c) } else { r };
    assert forall|a: int, b: int| 0 <= a < t.len() && 0 <= b < t.len() && (#[trigger] t[a]).name == (#[trigger] t[b]).name implies t[a] == t[b] by {
        if a < cs.len() { assert(t[a] == r[a]); }
        if b < cs.len() { assert(t[b] == r[b]); }
    }
    assert forall|k: int| 0 <= k < t.len() implies scenarios_agree(#[trigger] t[k].scenarios) by {
        if k < cs.len() { assert(t[k] == r[k]); }
    }
}

/// Ending a record keeps each name standing for one record.
pub proof fn lemma_finish_agree(st: ParseView, i: int)
    requires
        records_agree(st.campaigns),
        finish_record(st, i) is Ok,
    ensures
        records_agree(finish_record(st, i)->Ok_0.campaigns),
{
    let f = st.fields;
    let cs = st.campaigns;
    match f.kind {
        Kind::Nothing => {},
        Kind::Campaign => {
            let c = CampaignView {
                name: f.uname,
                i: name_count(campaign_name_list(cs)) as i64,
                xp: f.xp,
                scenarios: Seq::empty(),
                unlocks: f.unlocks,
                scenario_cards: f.cards,
                filler: f.filler,
            };
            lemma_replace_campaign_agrees(cs, f.uname, c, true);
        },
        Kind::Scenario => {
            let p = f.parent.unwrap();
            let ci = first_where(cs, campaign_named(p));
            lemma_first_where(cs, campaign_named(p));
            let c = cs[ci];
            let s = ScenarioView {
                name: f.uname,
                i: name_count(scenario_name_list(c.scenarios)) as i64,
                logic_xp: f.level,
                always: f.always,
                locks: Seq::empty(),
                locations: f.locations,
                begin: f.begin,
                paths: f.paths,
                checks: f.checks,
            };
            lemma_replace_scenario_agrees(c.scenarios, f.uname, s, true);
            let c2 = CampaignView { scenarios: replace_scenario(c.scenarios, f.uname, s).push(s), ..c };
            lemma_replace_campaign_agrees(cs, p, c2, false);
        },
        Kind::Lock => {
            let p = f.parent.unwrap();
            let li = first_where(st.lookup, key_is(p));
            let ci = first_where(cs, campaign_named(st.lookup[li].1));
            lemma_first_where(cs, campaign_named(st.lookup[li].1));
            let c = cs[ci];
            let si = first_where(c.scenarios, scenario_named(p));
            lemma_first_where(c.scenarios, scenario_named(p));
            let s = c.scenarios[si];
            let l = LockView { name: f.uname, rule: f.rule, neg_rule: f.neg_rule };
            let s2 = ScenarioView { locks: s.locks.push(l), ..s };
            lemma_replace_scenario_agrees(c.scenarios, p, s2, false);
            let c2 = CampaignView { scenarios: replace_scenario(c.scenarios, p, s2), ..c };
            lemma_replace_campaign_agrees(cs, c.name, c2, false);
        },
    }
}

/// A `path a b c ...` line keeps the paths read before it and adds, in
/// order, one path from its first code `a` to each of its other codes,
/// every one with the rule after ` requires ` (if any).
pub proof fn lemma_path_line(f: FieldsView, v: Seq<char>, i: int)
    requires
        path_step(f, v, i) is Ok,
    ensures
        ({
            let g = path_step(f, v, i)->Ok_0;
            let at = find_sub(v, requires_sep());
            let ps = split_char(if at >= 0 { v.take(at) } else { v }, ' ');
            &&& ps.len() >= 1
            &&& g.paths.len() == f.paths.len() + ps.len() - 1
            &&& g.paths.take(f.paths.len() as int) == f.paths
            &&& forall|k: int| 0 < k < ps.len() ==> {
                &&& (#[trigger] g.paths[f.paths.len() + k - 1]).from == code_of_str(ps[0])
                &&& g.paths[f.paths.len() + k - 1].to == code_of_str(ps[k])
                &&& g.paths[f.paths.len() + k - 1].logic == g.paths[f.paths.len() as int].logic
            }
        }),
{
    let at = find_sub(v, requires_sep());
    let places = if at >= 0 { v.take(at) } else { v };
    let ps = split_char(places, ' ');
    reveal_with_fuel(split_char, 1);
    assert(ps.len() >= 1);
    let g = path_step(f, v, i)->Ok_0;
    assert(g.paths.take(f.paths.len() as int) =~= f.paths);
}

/// No name occurs twice.
pub open spec fn names_distinct(ns: Seq<Seq<char>>) -> bool {
    forall|a: int, b: int| 0 <= a < b < ns.len() ==> (#[trigger] ns[a]) != (#[trigger] ns[b])
}

/// Scenarios that name each scenario once are numbered by their places.
pub open spec fn scenarios_numbered(ss: Seq<ScenarioView>) -> bool {
    names_distinct(scenario_name_list(ss)) ==> forall|j: int| 0 <= j < ss.len() ==> (#[trigger] ss[j]).i == j
}

/// Campaigns that name each campaign once are numbered by their places,
/// and so are the scenarios of each campaign that names each scenario
/// once.
pub open spec fn numbered_in_order(cs: Seq<CampaignView>) -> bool {
    &&& names_distinct(campaign_name_list(cs)) ==> forall|k: int| 0 <= k < cs.len() ==> (#[trigger] cs[k]).i == k
    &&& forall|k: int| 0 <= k < cs.len() ==> scenarios_numbered(#[trigger] cs[k].scenarios)
}

proof fn lemma_name_count_distinct(ns: Seq<Seq<char>>)
    requires
        names_distinct(ns),
    ensures
        name_count(ns) == ns.len(),
    decreases ns.len(),
{
    if ns.len() > 0 {
        let d = ns.drop_last();
        assert(names_distinct(d)) by {
            assert forall|a: int, b: int| 0 <= a < b < d.len() implies (#[trigger] d[a]) != (#[trigger] d[b]) by {
                assert(d[a] == ns[a] && d[b] == ns[b]);
            }
        }
        lemma_name_count_distinct(d);
        if d.contains(ns.last()) {
            let j = choose|j: int| 0 <= j < d.len() && d[j] == ns.last();
            assert(ns[j] == ns[ns.len() - 1]);
        }
    }
}

/// Pushing a campaign whose name is new onto distinct names: the names
/// before were distinct, and nothing before had the new name.
proof fn lemma_push_distinct(cs: Seq<CampaignView>, n: Seq<char>, c: CampaignView)
    requires
        c.name == n,
        names_distinct(campaign_name_list(replace_campaign(cs, n, c).push(c))),
    ensures
        names_distinct(campaign_name_list(cs)),
        replace_campaign(cs, n, c) == cs,
{
    let r = replace_campaign(cs, n, c);
    let t = campaign_name_list(r.push(c));
    assert forall|k: int| 0 <= k < cs.len() implies (#[trigger] cs[k]).name != n by {
        if cs[k].name == n {
            assert(t[k] == r[k].name);
            assert(t[cs.len() as int] == n);
        }
    }
    assert(r =~= cs);
    assert forall|a: int, b: int| 0 <= a < b < cs.len() implies (#[trigger] campaign_name_list(cs)[a]) != (#[trigger] campaign_name_list(cs)[b]) by {
        assert(t[a] == cs[a].name && t[b] == cs[b].name);
    }
}

/// The same for a scenario pushed onto a campaign's scenarios.
proof fn lemma_push_scenario_distinct(ss: Seq<ScenarioView>, n: Seq<char>, s: ScenarioView)
    requires
        s.name == n,
        names_distinct(scenario_name_list(replace_scenario(ss, n, s).push(s))),
    ensures
        names_distinct(scenario_name_list(ss)),
        replace_scenario(ss, n, s) == ss,
{
    let r = replace_scenario(ss, n, s);
    let t = scenario_name_list(r.push(s));
    assert forall|k: int| 0 <= k < ss.len() implies (#[trigger] ss[k]).name != n by {
        if ss[k].name == n {
            assert(t[k] == r[k].name);
            assert(t[ss.len() as int] == n);
        }
    }
    assert(r =~= ss);
    assert forall|a: int, b: int| 0 <= a < b < ss.len() implies (#[trigger] scenario_name_list(ss)[a]) != (#[trigger] scenario_name_list(ss)[b]) by {
        assert(t[a] == ss[a].name && t[b] == ss[b].name);
    }
}

/// Replacing the campaigns named `n` by one of that name and number keeps
/// the numbering, given that the new campaign's scenarios keep theirs.
proof fn lemma_replace_numbered(cs: Seq<CampaignView>, ci: int, c2: CampaignView)
    requires
        numbered_in_order(cs),
        0 <= ci < cs.len(),
        c2.name == cs[ci].name,
        c2.i == cs[ci].i,
        scenarios_numbered(c2.scenarios),
    ensures
        numbered_in_order(replace_campaign(cs, cs[ci].name, c2)),
{
    let n = cs[ci].name;
    let r = replace_campaign(cs, n, c2);
    assert(campaign_name_list(r) =~= campaign_name_list(cs));
    if names_distinct(campaign_name_list(cs)) {
        assert forall|k: int| 0 <= k < r.len() implies (#[trigger] r[k]).i == k by {
            if cs[k].name == n && k != ci {
                if k < ci {
                    assert(campaign_name_list(cs)[k] == campaign_name_list(cs)[ci]);
                } else {
                    assert(campaign_name_list(cs)[ci] == campaign_name_list(cs)[k]);
                }
            }
        }
    }
    assert forall|k: int| 0 <= k < r.len() implies scenarios_numbered(#[trigger] r[k].scenarios) by {
        assert(scenarios_numbered(cs[k].scenarios));
    }
}

/// At most `n` campaigns, each with at most `n` scenarios.
pub open spec fn sizes_within(cs: Seq<CampaignView>, n: int) -> bool {
    &&& cs.len() <= n
    &&& forall|k: int| 0 <= k < cs.len() ==> (#[trigger] cs[k]).scenarios.len() <= n
}

/// Ending a record keeps the numbering by place, and adds at most one
/// campaign or one scenario to a campaign.
proof fn lemma_finish_numbered(st: ParseView, i: int)
    requires
        numbered_in_order(st.campaigns),
        sizes_within(st.campaigns, i),
        0 <= i < i64::MAX,
        finish_record(st, i) is Ok,
    ensures
        numbered_in_order(finish_record(st, i)->Ok_0.campaigns),
        sizes_within(finish_record(st, i)->Ok_0.campaigns, i + 1),
{
    let f = st.fields;
    let cs = st.campaigns;
    match f.kind {
        Kind::Nothing => {},
        Kind::Campaign => {
            let c = CampaignView {
                name: f.uname,
                i: name_count(campaign_name_list(cs)) as i64,
                xp: f.xp,
                scenarios: Seq::empty(),
                unlocks: f.unlocks,
                scenario_cards: f.cards,
                filler: f.filler,
            };
            let t = replace_campaign(cs, f.uname, c).push(c);
            if names_distinct(campaign_name_list(t)) {
                lemma_push_distinct(cs, f.uname, c);
                lemma_name_count_distinct(campaign_name_list(cs));
                assert forall|k: int| 0 <= k < t.len() implies (#[trigger] t[k]).i == k by {
                    if k < cs.len() { assert(t[k] == cs[k]); }
                }
            }
            assert forall|k: int| 0 <= k < t.len() implies scenarios_numbered(#[trigger] t[k].scenarios) && t[k].scenarios.len() <= i + 1 by {
                if k < cs.len() {
                    let r = replace_campaign(cs, f.uname, c);
                    assert(t[k] == r[k]);
                    assert(scenarios_numbered(cs[k].scenarios));
                } else {
                    assert(t[k] == c);
                }
            }
        },
        Kind::Scenario => {
            let p = f.parent.unwrap();
            let ci = first_where(cs, campaign_named(p));
            lemma_first_where(cs, campaign_named(p));
            let c = cs[ci];
            let s = ScenarioView {
                name: f.uname,
                i: name_count(scenario_name_list(c.scenarios)) as i64,
                logic_xp: f.level,
                always: f.always,
                locks: Seq::empty(),
                locations: f.locations,
                begin: f.begin,
                paths: f.paths,
                checks: f.checks,
            };
            let ns = replace_scenario(c.scenarios, f.uname, s).push(s);
            assert(scenarios_numbered(c.scenarios));
            if names_distinct(scenario_name_list(ns)) {
                lemma_push_scenario_distinct(c.scenarios, f.uname, s);
                lemma_name_count_distinct(scenario_name_list(c.scenarios));
                assert forall|j: int| 0 <= j < ns.len() implies (#[trigger] ns[j]).i == j by {
                    if j < c.scenarios.len() { assert(ns[j] == c.scenarios[j]); }
                }
            }
            let c2 = CampaignView { scenarios: ns, ..c };
            lemma_replace_numbered(cs, ci, c2);
            let r = replace_campaign(cs, p, c2);
            assert forall|k: int| 0 <= k < r.len() implies (#[trigger] r[k]).scenarios.len() <= i + 1 by {
                assert(cs[k].scenarios.len() <= i);
            }
        },
        Kind::Lock => {
            let p = f.parent.unwrap();
            let li = first_where(st.lookup, key_is(p));
            let ci = first_where(cs, campaign_named(st.lookup[li].1));
            lemma_first_where(cs, campaign_named(st.lookup[li].1));
            let c = cs[ci];
            let si = first_where(c.scenarios, scenario_named(p));
            lemma_first_where(c.scenarios, scenario_named(p));
            let s = c.scenarios[si];
            let l = LockView { name: f.uname, rule: f.rule, neg_rule: f.neg_rule };
            let s2 = ScenarioView { locks: s.locks.push(l), ..s };
            let ns = replace_scenario(c.scenarios, p, s2);
            assert(scenarios_numbered(c.scenarios));
            assert(scenario_name_list(ns) =~= scenario_name_list(c.scenarios));
            if names_distinct(scenario_name_list(ns)) {
                assert forall|j: int| 0 <= j < ns.len() implies (#[trigger] ns[j]).i == j by {
                    if c.scenarios[j].name == p && j != si {
                        if j < si {
                            assert(scenario_name_list(c.scenarios)[j] == scenario_name_list(c.scenarios)[si]);
                        } else {
                            assert(scenario_name_list(c.scenarios)[si] == scenario_name_list(c.scenarios)[j]);
                        }
                    }
                }
            }
            let c2 = CampaignView { scenarios: ns, ..c };
            lemma_replace_numbered(cs, ci, c2);
            let r = replace_campaign(cs, c.name, c2);
            assert forall|k: int| 0 <= k < r.len() implies (#[trigger] r[k]).scenarios.len() <= i + 1 by {
                assert(cs[k].scenarios.len() <= i);
            }
        },
    }
}

proof fn lemma_run_numbered(lines: Seq<Seq<char>>, i: int, st: ParseView, cards: Seq<Card>)
    requires
        numbered_in_order(st.campaigns),
        0 <= i,
        sizes_within(st.campaigns, i),
        lines.len() <= i64::MAX,
        run(lines, i, st, cards) is Ok,
    ensures
        numbered_in_order(run(lines, i, st, cards)->Ok_0),
    decreases lines.len() - i,
{
    if 0 <= i < lines.len() {
        let t = lines[i];
        if find_char(t, ' ') < 0 && !(t == "always"@ || t == "rule"@ || t == "neg_rule"@) && t != "goal"@ && t.len() == 0 {
            lemma_finish_numbered(st, i);
        }
        match line_step(lines, i, st, cards) {
            Ok((st2, next)) => {
                if i < next <= lines.len() {
                    assert(sizes_within(st2.campaigns, next));
                    lemma_run_numbered(lines, next, st2, cards);
                }
            },
            Err(_) => {},
        }
    }
}

/// When the data files name each campaign once, the campaigns are numbered
/// by their place in reading order, from 0; and the scenarios of a
/// campaign that names each of them once are numbered by their place in
/// the order they were read, from 0.  (The numbers are `i64`; the bound
/// on the number of lines keeps every count within it.)
pub proof fn lemma_numbered_in_reading_order(lines: Seq<Seq<char>>, cards: Seq<Card>)
    requires
        lines.len() <= i64::MAX,
        group_spec(lines, cards) is Ok,
    ensures
        names_distinct(campaign_name_list(group_spec(lines, cards)->Ok_0))
            ==> forall|k: int| 0 <= k < group_spec(lines, cards)->Ok_0.len() ==> (#[trigger] group_spec(lines, cards)->Ok_0[k]).i == k,
        forall|k: int, j: int| 0 <= k < group_spec(lines, cards)->Ok_0.len()
            && names_distinct(scenario_name_list((#[trigger] group_spec(lines, cards)->Ok_0[k]).scenarios))
            && 0 <= j < group_spec(lines, cards)->Ok_0[k].scenarios.len()
            ==> (#[trigger] group_spec(lines, cards)->Ok_0[k].scenarios[j]).i == j,
{
    let st0 = ParseView { fields: empty_fields(), campaigns: Seq::empty(), lookup: Seq::empty() };
    lemma_run_numbered(lines, 0, st0, cards);
    let cs = group_spec(lines, cards)->Ok_0;
    assert forall|k: int, j: int| 0 <= k < cs.len()
        && names_distinct(scenario_name_list((#[trigger] cs[k]).scenarios))
        && 0 <= j < cs[k].scenarios.len() implies (#[trigger] cs[k].scenarios[j]).i == j by {
        assert(scenarios_numbered(cs[k].scenarios));
    }
}

/// A line of a data file: its text, its number in the file (from 1; 0 for
/// the empty line that ends each file), and the file's name.
pub struct SourceLine {
    pub text: String,
    pub number: usize,
    pub file: String,
}

/// A data file: its name and its lines.
pub struct DataFile {
    pub name: String,
    pub lines: Vec<String>,
}

/// The value of a data file: its name and the texts of its lines.
pub open spec fn file_view(f: DataFile) -> (Seq<char>, Seq<Seq<char>>) {
    (f.name@, f.lines@.map_values(|l: String| l@))
}

/// The values of some data files.
pub open spec fn file_views(v: Seq<DataFile>) -> Seq<(Seq<char>, Seq<Seq<char>>)> {
    v.map_values(|f: DataFile| file_view(f))
}

/// The value of a line: its text, number and file name.
pub open spec fn source_view(l: SourceLine) -> (Seq<char>, usize, Seq<char>) {
    (l.text@, l.number, l.file@)
}

/// The values of some lines.
pub open spec fn source_views(v: Seq<SourceLine>) -> Seq<(Seq<char>, usize, Seq<char>)> {
    v.map_values(|l: SourceLine| source_view(l))
}

/// `a` comes before `b`, or equals it, in the order of characters.
pub open spec fn text_le(a: Seq<char>, b: Seq<char>) -> bool
    decreases a.len(),
{
    if a.len() == 0 {
        true
    } else if b.len() == 0 {
        false
    } else if a[0] != b[0] {
        a[0] < b[0]
    } else {
        text_le(a.drop_first(), b.drop_first())
    }
}

/// The files are in order of their names.
pub open spec fn files_sorted(fs: Seq<(Seq<char>, Seq<Seq<char>>)>) -> bool {
    forall|a: int, b: int| 0 <= a < b < fs.len() ==> text_le((#[trigger] fs[a]).0, (#[trigger] fs[b]).0)
}

/// The lines of a file, numbered from 1, then an empty line numbered 0.
pub open spec fn file_lines(f: (Seq<char>, Seq<Seq<char>>)) -> Seq<(Seq<char>, usize, Seq<char>)> {
    Seq::new(f.1.len(), |k: int| (f.1[k], (k + 1) as usize, f.0)).push((Seq::empty(), 0usize, f.0))
}

/// The lines of the files, one file after the other.
pub open spec fn all_lines(fs: Seq<(Seq<char>, Seq<Seq<char>>)>) -> Seq<(Seq<char>, usize, Seq<char>)>
    decreases fs.len(),
{
    if fs.len() == 0 {
        Seq::empty()
    } else {
        all_lines(fs.drop_last()) + file_lines(fs.last())
    }
}

proof fn lemma_text_le_total(a: Seq<char>, b: Seq<char>)
    ensures
        text_le(a, b) || text_le(b, a),
    decreases a.len(),
{
    if a.len() > 0 && b.len() > 0 && a[0] == b[0] {
        lemma_text_le_total(a.drop_first(), b.drop_first());
    }
}

proof fn lemma_text_le_trans(a: Seq<char>, b: Seq<char>, c: Seq<char>)
    requires
        text_le(a, b),
        text_le(b, c),
    ensures
        text_le(a, c),
    decreases a.len(),
{
    if a.len() > 0 && b.len() > 0 && c.len() > 0 && a[0] == b[0] && b[0] == c[0] {
        lemma_text_le_trans(a.drop_first(), b.drop_first(), c.drop_first());
    }
}

fn text_le_exec(a: &String, b: &String) -> (res: bool)
    ensures
        res == text_le(a@, b@),
{
    let x = chars_of(a.as_str());
    let y = chars_of(b.as_str());
    let mut k: usize = 0;
    assert(a@.skip(0) =~= a@);
    assert(b@.skip(0) =~= b@);
    while k < x.len() && k < y.len() && x[k] == y[k]
        invariant
            x@ == a@,
            y@ == b@,
            k <= x@.len(),
            k <= y@.len(),
            text_le(a@, b@) == text_le(a@.skip(k as int), b@.skip(k as int)),
        decreases x@.len() - k,
    {
        proof {
            assert(a@.skip(k as int).drop_first() =~= a@.skip(k + 1));
            assert(b@.skip(k as int).drop_first() =~= b@.skip(k + 1));
        }
        k = k + 1;
    }
    if k == x.len() {
        true
    } else if k == y.len() {
        false
    } else {
        x[k] < y[k]
    }
}

/// The files in order of their names (files with equal names in any
/// order).
pub fn sort_files(files: Vec<DataFile>) -> (res: Vec<DataFile>)
    ensures
        files_sorted(file_views(res@)),
        file_views(res@).to_multiset() == file_views(files@).to_multiset(),
{
    broadcast use vstd::seq_lib::group_to_multiset_ensures;
    let ghost all = file_views(files@).to_multiset();
    let mut rest = files;
    let mut out: Vec<DataFile> = Vec::new();
    assert(file_views(out@) =~= Seq::empty());
    while rest.len() > 0
        invariant
            file_views(out@).to_multiset().add(file_views(rest@).to_multiset()) == all,
            files_sorted(file_views(out@)),
            forall|a: int, b: int| 0 <= a < out@.len() && 0 <= b < rest@.len() ==> text_le(out@[a].name@, rest@[b].name@),
        decreases rest@.len(),
    {
        let mut m: usize = 0;
        let mut k: usize = 1;
        proof { lemma_text_le_total(rest@[0].name@, rest@[0].name@); }
        while k < rest.len()
            invariant
                rest@.len() > 0,
                m < k <= rest@.len(),
                forall|q: int| 0 <= q < k ==> text_le(rest@[m as int].name@, #[trigger] rest@[q].name@),
            decreases rest@.len() - k,
        {
            if !text_le_exec(&rest[m].name, &rest[k].name) {
                proof {
                    lemma_text_le_total(rest@[m as int].name@, rest@[k as int].name@);
                    assert forall|q: int| 0 <= q < k + 1 implies text_le(rest@[k as int].name@, #[trigger] rest@[q].name@) by {
                        if q < k {
                            lemma_text_le_trans(rest@[k as int].name@, rest@[m as int].name@, rest@[q].name@);
                        } else {
                            lemma_text_le_total(rest@[q].name@, rest@[q].name@);
                        }
                    }
                }
                m = k;
            }
            k = k + 1;
        }
        let ghost before_rest = rest@;
        let ghost before_out = out@;
        let f = rest.remove(m);
        proof {
            assert(file_views(rest@) =~= file_views(before_rest).remove(m as int));
            assert(file_views(before_rest)[m as int] == file_view(f));
        }
        out.push(f);
        proof {
            assert(file_views(out@) =~= file_views(before_out).push(file_view(f)));
            assert forall|a: int, b: int| 0 <= a < out@.len() && 0 <= b < rest@.len() implies text_le(out@[a].name@, rest@[b].name@) by {
                if a < before_out.len() {
                    assert(out@[a] == before_out[a]);
                    if b < m { assert(rest@[b] == before_rest[b]); } else { assert(rest@[b] == before_rest[b + 1]); }
                } else {
                    if b < m { assert(rest@[b] == before_rest[b]); } else { assert(rest@[b] == before_rest[b + 1]); }
                }
            }
            let ov = file_views(out@);
            assert forall|a: int, b: int| 0 <= a < b < ov.len() implies text_le((#[trigger] ov[a]).0, (#[trigger] ov[b]).0) by {
                if b < before_out.len() {
                    assert(ov[a] == file_views(before_out)[a]);
                    assert(ov[b] == file_views(before_out)[b]);
                } else {
                    assert(out@[a] == before_out[a]);
                }
            }
            let rm = file_views(before_rest).to_multiset();
            file_views(before_rest).to_multiset_ensures();
            file_views(before_out).to_multiset_ensures();
            assert(file_views(before_rest).remove(m as int).to_multiset() =~= rm.remove(file_view(f)));
            assert(rm.count(file_view(f)) > 0) by {
                assert(file_views(before_rest).contains(file_view(f)));
            }
            assert(rm.remove(file_view(f)).insert(file_view(f)) =~= rm);
            assert(file_views(out@).to_multiset() == file_views(before_out).to_multiset().insert(file_view(f)));
            assert(file_views(out@).to_multiset().add(file_views(rest@).to_multiset()) =~= all);
        }
    }
    assert(file_views(rest@) =~= Seq::empty());
    assert(file_views(out@).to_multiset().add(Seq::<(Seq<char>, Seq<Seq<char>>)>::empty().to_multiset()) =~= file_views(out@).to_multiset());
    out
}

/// The texts of some lines.
pub open spec fn line_texts(v: Seq<SourceLine>) -> Seq<Seq<char>> {
    v.map_values(|l: SourceLine| l.text@)
}

/// Reads the campaigns, scenarios and locks that the lines describe, as
/// [`group_spec`] says, for lines that describe them without fault.
///
/// A campaign (or a scenario of a campaign) read again under a name
/// already read replaces the earlier record, and the name is listed again
/// in the reading order: every place with that name holds the new record.
/// Lines with a fault (an unknown field, a bad number or code, a record
/// whose campaign or scenario is unknown) are left to [`try_group_data`],
/// which says which fault and where.
pub fn group_data(lines: &Vec<SourceLine>, cards: &Vec<Card>) -> (res: Data)
    requires
        group_spec(line_texts(lines@), cards@) is Ok,
    ensures
        campaign_views(res.campaigns@) == group_spec(line_texts(lines@), cards@)->Ok_0,
        records_agree(campaign_views(res.campaigns@)),
{
    match try_group_data(lines, cards) {
        Ok(d) => d,
        Err(_) => vstd::pervasive::unreached(),
    }
}

/// Reads the campaigns, scenarios and locks that the lines describe, as
/// [`group_spec`] says, or names the first line with a fault and the
/// fault: an unknown field, a bad number or code, a record whose campaign
/// or scenario is unknown.
#[verifier::spinoff_prover]
#[verifier::rlimit(40)]
pub fn try_group_data(lines: &Vec<SourceLine>, cards: &Vec<Card>) -> (res: Result<Data, GroupError>)
    ensures
        match group_spec(line_texts(lines@), cards@) {
            Ok(cs) => res is Ok && campaign_views(res->Ok_0.campaigns@) == cs,
            Err(e) => res == Err::<Data, GroupError>(e),
        },
        res matches Ok(d) ==> records_agree(campaign_views(d.campaigns@)),
        res matches Err(e) ==> e.line < lines@.len(),
{
    let ghost ls = line_texts(lines@);
    let count: usize = lines.len();
    proof {
        assert(ls.len() == count);
        lemma_error_line_in_range(ls, 0, ParseView { fields: empty_fields(), campaigns: Seq::empty(), lookup: Seq::empty() }, cards@);
    }
    let mut fields = Fields::empty();
    let mut campaigns: Vec<Campaign> = Vec::new();
    let mut lookup: Vec<(String, String)> = Vec::new();
    proof {
        assert(campaign_views(campaigns@) =~= Seq::<CampaignView>::empty());
        assert(lookup_view(lookup@) =~= Seq::<(Seq<char>, Seq<char>)>::empty());
    }
    let mut i: usize = 0;
    while i < lines.len()
        invariant
            ls == line_texts(lines@),
            i <= ls.len(),
            group_spec(ls, cards@) == run(ls, i as int, parse_view(fields, campaigns@, lookup@), cards@),
            records_agree(campaign_views(campaigns@)),
        decreases ls.len() - i,
    {
        let ghost st = parse_view(fields, campaigns@, lookup@);
        let t = chars_of(lines[i].text.as_str());
        let _tl: usize = t.len();
        proof {
            assert(t@ == ls[i as int]);
            lemma_find_char(t@, ' ');
        }
        match find(t.as_slice(), ' ') {
            Some(sp) => {
                let field = sub_chars(t.as_slice(), 0, sp);
                let value = sub_chars(t.as_slice(), sp + 1, t.len());
                proof {
                    assert(field@ =~= t@.take(sp as int));
                    assert(value@ =~= t@.skip(sp + 1));
                }
                match apply_field(&mut fields, field.as_slice(), value.as_slice(), i, cards) {
                    Ok(()) => {},
                    Err(e) => { return Err(e); },
                }
                proof {
                    assert(parse_view(fields, campaigns@, lookup@) == ParseView { fields: fields@, ..st });
                }
                i = i + 1;
            },
            None => {
                if eq_lit(t.as_slice(), "always") || eq_lit(t.as_slice(), "rule") || eq_lit(t.as_slice(), "neg_rule") {
                    let mut parts: Vec<String> = Vec::new();
                    let mut j: usize = i + 1;
                    proof {
                        assert(views(parts@) =~= Seq::new((j - (i + 1)) as nat, |k: int| escaped(ls[i + 1 + k])));
                    }
                    while j < lines.len() && !lines[j].text.as_str().is_empty()
                        invariant
                            ls == line_texts(lines@),
                            i < ls.len(),
                            i + 1 <= j <= ls.len(),
                            block_end(ls, i + 1) == block_end(ls, j as int),
                            views(parts@) == Seq::new((j - (i + 1)) as nat, |k: int| escaped(ls[i + 1 + k])),
                        decreases ls.len() - j,
                    {
                        assert(ls[j as int] == lines@[j as int].text@);
                        let e = escape_debug(lines[j].text.as_str());
                        let ghost before = parts@;
                        parts.push(e);
                        proof {
                            assert(views(parts@) =~= views(before).push(e@));
                            assert(e@ == escaped(ls[j as int]));
                            assert(views(parts@) =~= Seq::new((j + 1 - (i + 1)) as nat, |k: int| escaped(ls[i + 1 + k])));
                            assert(ls[j as int].len() > 0);
                            assert(block_end(ls, j as int) == block_end(ls, j + 1));
                        }
                        j = j + 1;
                    }
                    proof {
                        if j < ls.len() {
                            assert(ls[j as int] == lines@[j as int].text@);
                            assert(ls[j as int].len() == 0);
                        }
                        assert(block_end(ls, j as int) == j);
                    }
                    let text = join_strings(&parts, "\\n");
                    if eq_lit(t.as_slice(), "always") {
                        fields.always = text;
                    } else if eq_lit(t.as_slice(), "rule") {
                        fields.rule = text;
                    } else {
                        fields.neg_rule = text;
                    }
                    proof {
                        assert(parse_view(fields, campaigns@, lookup@).fields == match line_step(ls, i as int, st, cards@) { Ok((st2, _)) => st2.fields, Err(_) => fields@ });
                    }
                    i = if j < lines.len() { j + 1 } else { j };
                } else if eq_lit(t.as_slice(), "goal") {
                    let n = fields.checks.len();
                    if n == 0 {
                        return Err(GroupError { kind: GroupErrorKind::NothingToMakeGoal, line: i });
                    }
                    let ghost before = fields.checks@;
                    fields.checks[n - 1].goal = true;
                    proof {
                        assert(check_views(fields.checks@) =~= check_views(before).drop_last().push(check_views(fields.checks@).last()));
                        assert(check_views(before).last() == before[n - 1]@);
                    }
                    i = i + 1;
                } else if t.len() == 0 {
                    let ghost st0 = parse_view(fields, campaigns@, lookup@);
                    match finish(&mut fields, &mut campaigns, &mut lookup, i) {
                        Ok(()) => {},
                        Err(e) => { return Err(e); },
                    }
                    proof { lemma_finish_agree(st0, i as int); }
                    i = i + 1;
                } else {
                    return Err(GroupError { kind: GroupErrorKind::FieldWithoutValue, line: i });
                }
            },
        }
    }
    Ok(Data { campaigns })
}

/// The lines of the files, one file after the other, each numbered from 1
/// and followed by an empty line numbered 0.
pub fn flatten_lines(files: &Vec<DataFile>) -> (res: Vec<SourceLine>)
    ensures
        source_views(res@) == all_lines(file_views(files@)),
{
    let ghost fv = file_views(files@);
    let mut out: Vec<SourceLine> = Vec::new();
    let mut x: usize = 0;
    assert(source_views(out@) =~= all_lines(fv.take(0)));
    while x < files.len()
        invariant
            fv == file_views(files@),
            x <= fv.len(),
            source_views(out@) == all_lines(fv.take(x as int)),
        decreases fv.len() - x,
    {
        let f = &files[x];
        let ghost base = source_views(out@);
        let ghost fl = file_lines(fv[x as int]);
        proof {
            assert(fv[x as int] == file_view(*f));
            assert(fv.take(x + 1).drop_last() =~= fv.take(x as int));
        }
        let mut k: usize = 0;
        while k < f.lines.len()
            invariant
                fv[x as int] == file_view(*f),
                fl == file_lines(fv[x as int]),
                k <= f.lines@.len(),
                source_views(out@) == base + fl.take(k as int),
            decreases f.lines@.len() - k,
        {
            let l = SourceLine { text: f.lines[k].clone(), number: k + 1, file: f.name.clone() };
            proof { assert(fl[k as int] == source_view(l)); }
            let ghost before = out@;
            out.push(l);
            proof {
                assert(source_views(out@) =~= source_views(before).push(source_view(l)));
                assert(fl.take(k + 1) =~= fl.take(k as int).push(source_view(l)));
            }
            k = k + 1;
        }
        let end = SourceLine { text: String::new(), number: 0, file: f.name.clone() };
        let ghost before = out@;
        out.push(end);
        proof {
            assert(source_view(end).0 =~= Seq::<char>::empty());
            assert(source_views(out@) =~= source_views(before).push(source_view(end)));
            assert(fl =~= fl.take(k as int).push(source_view(end)));
        }
        x = x + 1;
    }
    assert(fv.take(x as int) =~= fv);
    out
}

/// The lines of the data files in order of the files' names.
pub fn data_lines(files: Vec<DataFile>) -> (res: Vec<SourceLine>)
    ensures
        exists|order: Seq<(Seq<char>, Seq<Seq<char>>)>| files_sorted(order)
            && order.to_multiset() == file_views(files@).to_multiset()
            && #[trigger] all_lines(order) == source_views(res@),
{
    let sorted = sort_files(files);
    let res = flatten_lines(&sorted);
    assert(all_lines(file_views(sorted@)) == source_views(res@));
    res
}

} // verus!
