use arkham_client::cardcode::Code;
use arkham_client::generate::card::{get_cards, card_input_ok, Card, RawCard, RawCardOverride};
use arkham_client::generate::group::{data_lines, group_data, try_group_data, DataFile, GroupErrorKind, SourceLine};
use arkham_client::generate::ids::{item_ids, Item, IdError};
use arkham_client::generate::package::generate_id_py;
use arkham_client::generate::data_py::generate_data_py;
use arkham_client::generate::pipeline::{generate_data, try_generate_data, GenerateError};
use arkham_client::generate::source::{push_get_campaign, push_get_scenario};
use arkham_client::generate::package::Datapackage;
use arkham_client::client::tables::client_tables;
use arkham_client::client::data::Item as ClientItem;
use arkham_client::client::protocol::{RawSlotData, SlotData};
use arkham_client::client::session::recieved_items;
use arkham_client::client::state::State;

fn raw(code: &str, name: &str, subname: &str, clues: i64, victory: i64) -> RawCard {
    RawCard {
        code: String::from(code),
        type_code: String::from("location"),
        faction_name: None,
        alternate_of_code: None,
        duplicate_of_code: None,
        real_name: String::from(name),
        subname: String::from(subname),
        bonded_to: None,
        imagesrc: Some(String::from("/img.png")),
        backimagesrc: None,
        clues,
        victory,
        spoiler: 1,
    }
}

fn no_override(code: &str) -> RawCardOverride {
    RawCardOverride {
        code: String::from(code),
        type_code: None,
        faction_name: None,
        real_name: None,
        subname: None,
        image: None,
        clues: None,
        victory: None,
        spoiler: None,
    }
}

fn sample_raws() -> Vec<RawCard> {
    vec![
        raw("01111", "Study", "", 2, 0),
        raw("01112", "Hallway", "", 0, 1),
        raw("01113", "Hallway", "Upstairs", 1, 0),
        raw("01116", "Ghoul Priest", "", 0, 2),
        raw("01117", "Lita Chantler", "", 0, 0),
    ]
}

fn sample_cards() -> Vec<Card> {
    let raws = sample_raws();
    let overrides: Vec<RawCardOverride> = vec![];
    get_cards(&raws, &overrides)
}

fn file(name: &str, text: &str) -> DataFile {
    DataFile { name: String::from(name), lines: text.lines().map(String::from).collect() }
}

const SAMPLE: &str = "campaign Night\nxp 10\nunlock Key\nfiller 2 -1 0 1 Bandage\n\nscenario Gathering\nin Night\nlevel 3\nlocations 01111 01112\nbegin 01111\npath 01111 01112 01113 requires Key\nenemy 01116 2\nspecial 01117 requires Key\nname Lita\ngoal\n\nlock Door\nin Gathering\nrule\nthe door \"opens\"\nsecond line\n\n";

fn sample_lines() -> Vec<SourceLine> {
    data_lines(vec![file("b.txt", "scenario Other\nin Night"), file("a.txt", SAMPLE)])
}

#[test]
fn card_names_escaped_and_marked() {
    let mut r = raw("01104", "Roland \"the\" Banks", "", 0, 0);
    r.alternate_of_code = Some(String::from("01001"));
    let c = Card::from_raw(&r);
    assert_eq!(c.name, "Roland \\\"the\\\" Banks (Parallel)");
    assert_eq!(c.image, Some(String::from("/img.png")));
    assert!(c.is_encounter);
    assert!(!c.unique);
}

#[test]
fn unique_names_only_for_names_used_once() {
    let cards = sample_cards();
    assert_eq!(cards.len(), 5);
    let study = cards.iter().find(|c| c.code.number == 1111).unwrap();
    let upstairs = cards.iter().find(|c| c.code.number == 1113).unwrap();
    let hallway = cards.iter().find(|c| c.code.number == 1112).unwrap();
    assert!(study.unique);
    assert!(!upstairs.unique);
    assert_eq!(study.unique_name(), "Study");
    assert_eq!(upstairs.unique_name(), "Hallway (Upstairs)");
    assert_eq!(hallway.unique_name(), "Hallway");
    assert_eq!(hallway.full_name(), "Hallway");
}

#[test]
fn overrides_replace_fields() {
    let raws = sample_raws();
    let mut o = no_override("01111");
    o.real_name = Some(String::from("Your Study"));
    o.clues = Some(5);
    o.spoiler = Some(0);
    let cards = get_cards(&raws, &vec![o]);
    let study = cards.iter().find(|c| c.code.number == 1111).unwrap();
    assert_eq!(study.name, "Your Study");
    assert_eq!(study.clues, 5);
    assert!(!study.is_encounter);
    assert!(study.unique);
}

#[test]
fn card_input_checks_overrides() {
    let raws = sample_raws();
    assert!(card_input_ok(&raws, &vec![no_override("01111")]));
    assert!(!card_input_ok(&raws, &vec![no_override("09999")]));
    let mut bad = sample_raws();
    bad[0].code = String::from("x1111");
    assert!(!card_input_ok(&bad, &vec![]));
}

#[test]
fn files_are_read_in_name_order() {
    let lines = sample_lines();
    assert_eq!(lines[0].file, "a.txt");
    assert_eq!(lines[0].number, 1);
    assert_eq!(lines[0].text, "campaign Night");
    let last = &lines[lines.len() - 1];
    assert_eq!(last.file, "b.txt");
    assert_eq!(last.number, 0);
    assert_eq!(last.text, "");
}

#[test]
fn group_data_reads_records() {
    let cards = sample_cards();
    let data = group_data(&sample_lines(), &cards);
    assert_eq!(data.campaigns.len(), 1);
    let c = &data.campaigns[0];
    assert_eq!(c.name, "Night");
    assert_eq!(c.i, 0);
    assert_eq!(c.xp, 10);
    assert_eq!(c.unlocks, vec![String::from("Key")]);
    assert_eq!(c.filler.len(), 1);
    assert_eq!(c.filler[0].name, "Bandage");
    assert_eq!(c.filler[0].trap, 2);
    assert_eq!(c.filler[0].quantity, [2, 1, 0, 1]);
    assert_eq!(c.scenarios.len(), 2);
    let s = &c.scenarios[0];
    assert_eq!(s.name, "Gathering");
    assert_eq!(s.i, 0);
    assert_eq!(s.logic_xp, 3);
    assert_eq!(s.locations.len(), 2);
    assert_eq!(s.begin.len(), 1);
    assert_eq!(s.paths.len(), 2);
    assert_eq!(s.paths[1].to.number, 1113);
    assert_eq!(s.paths[0].logic.as_rust_expr(), "state.has(\"Night\", \"Key\")");
    assert_eq!(s.checks.len(), 2);
    assert_eq!(s.checks[0].name, "Ghoul Priest");
    assert_eq!(s.checks[0].description, "Defeated");
    assert_eq!(s.checks[0].count, 2);
    assert_eq!(s.checks[0].victory, 2);
    assert_eq!(s.checks[1].name, "Lita");
    assert!(s.checks[1].goal);
    assert_eq!(s.locks.len(), 1);
    assert_eq!(s.locks[0].name, "Door");
    assert_eq!(s.locks[0].rule, "the door \\\"opens\\\"\\nsecond line");
    assert_eq!(c.scenarios[1].name, "Other");
    assert_eq!(c.scenarios[1].i, 1);
}

fn lines_of(text: &str) -> Vec<SourceLine> {
    data_lines(vec![file("x.txt", text)])
}

#[test]
fn group_data_errors_name_their_line() {
    let cards = sample_cards();
    let e = try_group_data(&lines_of("campaign A\nxp ten"), &cards).err().unwrap();
    assert!(e.kind == GroupErrorKind::BadXp);
    assert_eq!(e.line, 1);
    let e = try_group_data(&lines_of("colour red"), &cards).err().unwrap();
    assert!(e.kind == GroupErrorKind::UnknownField);
    let e = try_group_data(&lines_of("campaign A\nbogus"), &cards).err().unwrap();
    assert!(e.kind == GroupErrorKind::FieldWithoutValue);
    let e = try_group_data(&lines_of("goal"), &cards).err().unwrap();
    assert!(e.kind == GroupErrorKind::NothingToMakeGoal);
    let e = try_group_data(&lines_of("scenario S\n"), &cards).err().unwrap();
    assert!(e.kind == GroupErrorKind::ScenarioWithoutParent);
    let e = try_group_data(&lines_of("scenario S\nin Nowhere"), &cards).err().unwrap();
    assert!(e.kind == GroupErrorKind::UnknownCampaign);
    let e = try_group_data(&lines_of("enemy 01999"), &cards).err().unwrap();
    assert!(e.kind == GroupErrorKind::UnknownCard);
    let e = try_group_data(&lines_of("path 01111 01112 requires Key"), &cards).err().unwrap();
    assert!(e.kind == GroupErrorKind::LogicOutsideCampaign);
    let e = try_group_data(&lines_of("filler 1 2 3"), &cards).err().unwrap();
    assert!(e.kind == GroupErrorKind::FillerMissingPart);
    let e = try_group_data(&lines_of("filler 1 x 3 4 Name"), &cards).err().unwrap();
    assert!(e.kind == GroupErrorKind::BadFillerQuantity);
    let e = try_group_data(&lines_of("locations 01111 0/1"), &cards).err().unwrap();
    assert!(e.kind == GroupErrorKind::BadCode);
    let e = try_group_data(&lines_of("lock L\nin Missing"), &cards).err().unwrap();
    assert!(e.kind == GroupErrorKind::UnknownScenario);
}

#[test]
fn scenario_card_ids_hold_the_whole_code() {
    let cards = sample_cards();
    let data = group_data(&lines_of("campaign N\ncards 01111 05000b\n"), &cards);
    let items = item_ids(&data, &vec![vec![]], &vec![vec![]]).ok().unwrap();
    assert_eq!(items[10].0, (3 << 48) | (1111 << 8));
    assert_eq!(items[11].0, (3 << 48) | ((5000 + (98 << 16)) << 8));
}

#[test]
fn item_ids_follow_the_layout() {
    let cards = sample_cards();
    let data = group_data(&sample_lines(), &cards);
    let uh = vec![vec![0x1234u64]];
    let fh = vec![vec![0xabcu64]];
    let items = item_ids(&data, &uh, &fh).ok().unwrap();
    assert_eq!(items.len(), 1 + 10 + 0 + 1 + 2);
    assert_eq!(items[0].0, 0x1234 << 8);
    let wide = item_ids(&data, &vec![vec![0xab_1234_5678u64]], &fh).ok().unwrap();
    assert_eq!(wide[0].0, 0x1234_5678 << 8);
    assert!(matches!(&items[0].1, Item::Unlock((c, u)) if c == "Night" && u == "Key"));
    assert_eq!(items[1].0, (2 << 48) | (1 << 8));
    assert_eq!(items[10].0, (2 << 48) | (10 << 8));
    assert_eq!(items[11].0, (0xabc << 16) | (4 << 48));
    assert_eq!(items[12].0, 1 << 48);
    assert_eq!(items[13].0, (1 << 48) | (1 << 8));
}

#[test]
fn item_ids_reject_repeated_ids() {
    let cards = sample_cards();
    let text = "campaign Night\nfiller 1 1 1 1 A\nfiller 1 1 1 1 B\n";
    let data = group_data(&lines_of(text), &cards);
    let uh = vec![vec![]];
    let ok = item_ids(&data, &uh, &vec![vec![1u64, 2u64]]);
    assert!(ok.is_ok());
    let counted = item_ids(&data, &uh, &vec![vec![1u64, 1u64]]).ok().unwrap();
    assert_eq!(counted.len(), 12);
    assert_eq!(counted[10].0, (1 << 16) | (4 << 48));
    assert_eq!(counted[11].0, (1 << 16) | (1 << 40) | (4 << 48));
    let text = "campaign A\nfiller 1 1 1 1 X\n\ncampaign B\nfiller 1 1 1 1 Y\n";
    let data = group_data(&lines_of(text), &cards);
    let two = item_ids(&data, &vec![vec![], vec![]], &vec![vec![1u64], vec![1u64]]).ok().unwrap();
    assert_eq!(two[10].0, (1 << 16) | (4 << 48));
    assert_eq!(two[21].0, (1 << 16) | (1 << 40) | (4 << 48) | 1);
    let mut text = String::from("campaign A\n");
    for _ in 0..257 {
        text.push_str("unlock U\n");
    }
    text.push_str("\nscenario S\nin A\n");
    let data = group_data(&lines_of(&text), &cards);
    let clash = item_ids(&data, &vec![vec![0u64; 257]], &vec![vec![]]);
    assert!(matches!(clash, Err(IdError::DuplicateItemId(d)) if d == 1 << 48));
}

#[test]
fn location_ids_are_assigned_to_checks() {
    let cards = sample_cards();
    let mut data = group_data(&sample_lines(), &cards);
    let (p, id_py) = generate_id_py(&cards, &mut data).ok().unwrap();
    let s = &data.campaigns[0].scenarios[0];
    assert_eq!(s.checks[0].ids.len(), 4);
    assert_eq!(s.checks[1].ids.len(), 1);
    let key = (1111i64) << 16;
    assert_eq!(p.clue_ids.len(), 2);
    assert_eq!(p.clue_ids[0].1, key);
    assert_eq!(p.clue_ids[1].1, key | (1 << 40));
    assert_eq!(p.victory_ids.len(), 1);
    assert_eq!(p.goal_locations.len(), 1);
    assert_eq!(p.goal_locations[0].0, s.checks[1].ids[0]);
    assert_eq!(p.goal_locations[0].1, "Night");
    assert!(id_py.starts_with("# This file is generated as part of the compilation of the client\nitem_name_to_id={\"Night - Key\":"));
    assert!(id_py.contains("\"Night - 10 XP\":"));
    assert!(id_py.contains("\"Gathering - Study Clues 2\":"));
    assert!(id_py.contains("\"Gathering - Ghoul Priest Victory 2 #1\":"));
    assert!(id_py.contains("\"Gathering - Lita\":"));
    assert!(id_py.ends_with("}\n"));
}

#[test]
fn location_ids_need_known_cards() {
    let cards = sample_cards();
    let mut data = group_data(&lines_of("campaign N\n\nscenario S\nin N\nlocations 01999\n"), &cards);
    let r = generate_id_py(&cards, &mut data);
    assert!(matches!(r, Err(IdError::MissingCard(k)) if k.number == 1999));
}

#[test]
fn data_py_lists_campaigns_and_scenarios() {
    let cards = sample_cards();
    let mut data = group_data(&sample_lines(), &cards);
    generate_id_py(&cards, &mut data).ok().unwrap();
    let text = generate_data_py("PREFIX\n", &cards, &data).ok().unwrap();
    assert!(text.starts_with("PREFIX\ncampaigns={\"Night\":Campaign(\"Night\",10,[\"Gathering\",\"Other\"],[\"Key\"],[\"\"],[Filler(\"Bandage\",2,[2,1,0,1])]),}\nscenarios={"));
    assert!(text.contains("\"Gathering\":Scenario(\"Gathering\",\"Night\",3,[Location(\"Study\",2,0),Location(\"Hallway\",0,1)],[\"Study\"],"));
    assert!(text.contains("Check(\"Gathering - Lita\",1,lambda state,player:state.prog_items[player].get(\"Night - Key\",False))"));
    assert!(text.ends_with("]),}\n"));
    let other = group_data(&lines_of("campaign N\ncards 01999\n"), &cards);
    assert!(generate_data_py("", &cards, &other) == Err(Code::from_str("01999")));
    let mut again = group_data(&lines_of("campaign N\ncards 01999\n"), &cards);
    assert!(matches!(generate_id_py(&cards, &mut again), Err(IdError::MissingCard(k)) if k.number == 1999));
}

#[test]
fn pipeline_makes_all_files() {
    let raws = sample_raws();
    let g = generate_data(&raws, &vec![], &sample_lines(), "P\n").ok().unwrap();
    assert!(g.rust.starts_with("pub fn item_from_id(id: i64) -> Option<Item> {\n  match id {\n"));
    assert!(g.rust.contains("pub fn get_card(code: Code) -> Option<Card> {"));
    assert!(g.rust.contains("    1111 => Some(Card {code: Code::from(1111), name: \"Study\", image: Some(\"/img.png\"), clues: 2, victory: 0, unique: true}),\n"));
    assert!(g.rust.contains("    \"Night\" => Some(Campaign {name: \"Night\", scenarios: &CAMPAIGN_0_SCENARIOS}),\n"));
    assert!(g.rust.contains("const CAMPAIGN_0_SCENARIOS: [&str; 2] = [\"Gathering\",\"Other\"];"));
    assert!(g.rust.contains("const CAMPAIGN_0_SCENARIO_0_LOCKS: [Lock; 1] = [Lock {name: \"Door\", rule: \"the door \\\"opens\\\"\\nsecond line\", neg_rule: \"\"}];"));
    assert!(g.rust.contains("    (\"Night\",\"Gathering\",1111,1112) => state.has(\"Night\", \"Key\"),\n"));
    assert!(g.rust.contains("pub fn is_goal_location(first_id: i64) -> Option<&'static str> {"));
    assert!(g.rust.ends_with("    _ => None\n  }\n}\n\n"));
    assert!(g.data_py.starts_with("P\ncampaigns={"));
    let t = &g.tables;
    assert_eq!(t.items.len(), 14);
    assert_eq!(t.cards.len(), 5);
    assert_eq!(t.campaigns.len(), 1);
    assert_eq!(t.campaigns[0].scenarios, vec![String::from("Gathering"), String::from("Other")]);
    assert_eq!(t.scenarios.len(), 2);
    assert_eq!(t.scenarios[0].locks.len(), 1);
    assert_eq!(t.path_rules.len(), 2);
    assert_eq!(t.location_rules.len(), 2);
    assert_eq!(t.clue_ids.len(), 2);
    assert_eq!(t.victory_ids.len(), 1);
    assert_eq!(t.goal_locations.len(), 1);
    assert!(t.checks_complete());
    let bad = try_generate_data(&raws, &vec![no_override("09999")], &sample_lines(), "");
    assert!(matches!(bad, Err(GenerateError::BadCardInput)));
    let bad = try_generate_data(&raws, &vec![], &lines_of("nonsense"), "");
    assert!(matches!(bad, Err(GenerateError::Group(_))));
}

#[test]
fn codes_in_generated_text_are_integers() {
    let c = Code::from_str("01116");
    assert_eq!(c.i64(), 1116);
}

#[test]
fn rule_block_at_end_of_file_takes_the_record_end() {
    let cards = sample_cards();
    let text = "campaign A\n\nscenario S\nin A\n\nlock L\nin S\nrule\nx";
    let data = group_data(&lines_of(text), &cards);
    assert_eq!(data.campaigns[0].scenarios.len(), 1);
    assert_eq!(data.campaigns[0].scenarios[0].locks.len(), 0);
}

#[test]
fn generated_tables_drive_the_client() {
    let g = generate_data(&sample_raws(), &vec![], &sample_lines(), "").ok().unwrap();
    let t = &g.tables;
    let key = t.items.iter().find(|(_, it)| matches!(it, ClientItem::Unlock(_))).unwrap().0;
    let slot = SlotData::try_from(RawSlotData { g: 1 }).ok().unwrap();
    let goal = t.goal_locations[0].0;
    let mut st = State::new(&[goal], &[], slot, t);
    recieved_items(&mut st, t, &vec![1i64 << 48]).ok().unwrap();
    assert_eq!(st.reachable_locations("Gathering"), vec![Code::from_str("01111")]);
    assert!(!t.can_send_location(goal, &st));
    recieved_items(&mut st, t, &vec![key]).ok().unwrap();
    let mut reach = st.reachable_locations("Gathering");
    reach.sort();
    assert_eq!(reach, vec![Code::from_str("01111"), Code::from_str("01112"), Code::from_str("01113")]);
    assert!(t.can_send_location(goal, &st));
    st.mark_sent(goal, t);
    assert_eq!(st.goal_progress(), (1, 1));
}

#[test]
fn data_without_hashed_names_generates() {
    let text = "campaign N\nxp 2\n\nscenario S\nin N\nlocations 01111\nbegin 01111\nspecial 01117\n";
    let g = generate_data(&sample_raws(), &vec![], &lines_of(text), "");
    assert!(g.is_ok());
    let missing = try_generate_data(&sample_raws(), &vec![], &lines_of("campaign N\ncards 01999\n"), "");
    assert!(matches!(missing, Err(GenerateError::Id(IdError::MissingCard(k))) if k.number == 1999));
    let bad_line = try_generate_data(&sample_raws(), &vec![], &lines_of("campaign N\nxp many\n"), "");
    assert!(matches!(bad_line, Err(GenerateError::Group(e)) if e.line == 1));
}

#[test]
fn a_repeated_campaign_replaces_the_first() {
    let cards = sample_cards();
    let text = "campaign A\nxp 1\n\nscenario S\nin A\n\ncampaign B\n\ncampaign A\nxp 2\n\nscenario T\nin A\n\nscenario T\nin A\nlevel 4\n";
    let data = group_data(&lines_of(text), &cards);
    assert_eq!(data.campaigns.len(), 3);
    let names: Vec<&str> = data.campaigns.iter().map(|c| c.name.as_str()).collect();
    assert_eq!(names, vec!["A", "B", "A"]);
    for k in [0, 2] {
        let c = &data.campaigns[k];
        assert_eq!(c.xp, 2);
        assert_eq!(c.i, 2);
        assert_eq!(c.scenarios.len(), 2);
        assert_eq!(c.scenarios[0].name, "T");
        assert_eq!(c.scenarios[1].name, "T");
        assert_eq!(c.scenarios[0].logic_xp, 4);
        assert_eq!(c.scenarios[0].i, 1);
        assert_eq!(c.scenarios[1].i, 1);
    }
    assert_eq!(data.campaigns[1].i, 1);
    let g = try_generate_data(&sample_raws(), &vec![], &lines_of(text), "");
    assert!(matches!(g, Err(GenerateError::Id(IdError::DuplicateItemId(_)))));
    let g = generate_data(&sample_raws(), &vec![], &lines_of(text), "");
    assert!(matches!(g, Err(IdError::DuplicateItemId(_))));
}

#[test]
fn a_repeated_name_is_listed_once() {
    let cards = sample_cards();
    let text = "campaign A\nxp 1\n\nscenario S\nin A\n\ncampaign B\n\ncampaign A\nxp 2\n\nscenario T\nin A\n\nscenario T\nin A\nlevel 4\n";
    let data = group_data(&lines_of(text), &cards);
    let py = generate_data_py("", &cards, &data).ok().unwrap();
    assert_eq!(py.matches("\"A\":Campaign(").count(), 1);
    assert_eq!(py.matches("\"B\":Campaign(").count(), 1);
    assert_eq!(py.matches("\"T\":Scenario(").count(), 1);
    assert!(py.starts_with("campaigns={\"A\":Campaign(\"A\",2,[\"T\",\"T\"],"));
    assert!(py.contains("\"T\":Scenario(\"T\",\"A\",4,"));
    let mut rust = String::new();
    push_get_campaign(&mut rust, &data);
    assert_eq!(rust.matches("\"A\" => Some(Campaign").count(), 1);
    assert_eq!(rust.matches("const CAMPAIGN_2_SCENARIOS").count(), 1);
    assert!(rust.contains("const CAMPAIGN_2_SCENARIOS: [&str; 2] = [\"T\",\"T\"];"));
    let mut scen = String::new();
    push_get_scenario(&mut scen, &data);
    assert_eq!(scen.matches("\"T\" => Some(Scenario").count(), 1);
    assert_eq!(scen.matches("const CAMPAIGN_2_SCENARIO_1_LOCKS").count(), 1);
}

#[test]
fn campaigns_are_numbered_in_reading_order() {
    let cards = sample_cards();
    let text = "campaign A\n\ncampaign B\n\nscenario S\nin B\n\nscenario T\nin A\n\nscenario U\nin B\n\ncampaign C\n";
    let data = group_data(&lines_of(text), &cards);
    let numbers: Vec<i64> = data.campaigns.iter().map(|c| c.i).collect();
    assert_eq!(numbers, vec![0, 1, 2]);
    let b: Vec<(String, i64)> = data.campaigns[1].scenarios.iter().map(|s| (s.name.clone(), s.i)).collect();
    assert_eq!(b, vec![(String::from("S"), 0), (String::from("U"), 1)]);
    assert_eq!(data.campaigns[0].scenarios[0].i, 0);
}

#[test]
fn tables_hold_a_repeated_name_once() {
    let cards = sample_cards();
    let text = "campaign A\n\ncampaign B\n\ncampaign A\n\nscenario T\nin A\npath 01111 01112\n\nscenario T\nin A\npath 01111 01113\n";
    let data = group_data(&lines_of(text), &cards);
    let p = Datapackage { item_from_id: vec![], clue_ids: vec![], victory_ids: vec![], goal_locations: vec![] };
    let t = client_tables(&cards, &data, &p);
    let names: Vec<&str> = t.campaigns.iter().map(|c| c.name.as_str()).collect();
    assert_eq!(names, vec!["A", "B"]);
    assert_eq!(t.campaigns[0].scenarios, vec![String::from("T"), String::from("T")]);
    assert_eq!(t.scenarios.len(), 1);
    assert_eq!(t.path_rules.len(), 1);
    assert_eq!(t.path_rules[0].to, Code::from_str("01113"));
}
