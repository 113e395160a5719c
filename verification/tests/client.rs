use arkham_client::cardcode::Code;
use arkham_client::client::data::{Campaign, Card, Check, Item, LocationId, Path, PathRule, Scenario, Tables};
use arkham_client::client::interface::Interface;
use arkham_client::client::protocol::{Permission, RawSlotData, SlotData, SlotType};
use arkham_client::client::session::{handle_click, recieved_items};
use arkham_client::client::state::State;
use arkham_client::generate::logic::LogicTerm;

fn s(t: &str) -> String {
    String::from(t)
}

fn code(n: u16) -> Code {
    Code { number: n, letter: 0 }
}

fn key() -> LogicTerm {
    LogicTerm::Unlock((s("Night"), s("Key")))
}

fn card(n: u16, name: &str, clues: i64) -> Card {
    Card { code: code(n), name: s(name), image: None, clues, victory: 0, unique: true }
}

fn tables() -> Tables {
    Tables {
        items: vec![
            (1, Item::Unlock((s("Night"), s("Key")))),
            (2, Item::ScenarioUnlock((s("Night"), s("Gathering")))),
            (3, Item::Xp((s("Night"), 2))),
            (4, Item::ScenarioCard((s("Night"), code(1117)))),
            (5, Item::CampaignFiller((s("Night"), s("Bandage")))),
            (6, Item::Xp((s("Night"), i64::MAX))),
        ],
        cards: vec![card(1111, "Study", 1), card(1112, "Hallway", 0), card(1117, "Lita Chantler", 0)],
        campaigns: vec![Campaign { name: s("Night"), scenarios: vec![s("Gathering")] }],
        scenarios: vec![Scenario {
            name: s("Gathering"),
            always: s(""),
            locks: vec![],
            locations: vec![code(1111), code(1112)],
            begin: vec![code(1111)],
            paths: vec![Path { from: code(1111), to: code(1112) }],
            checks: vec![Check { code: code(1117), description: s(""), count: 1, victory: 0, ids: vec![200] }],
        }],
        clue_ids: vec![LocationId { campaign: s("Night"), scenario: s("Gathering"), code: code(1111), n: 0, id: 100 }],
        victory_ids: vec![],
        path_rules: vec![PathRule { campaign: s("Night"), scenario: s("Gathering"), from: code(1111), to: code(1112), logic: key() }],
        location_rules: vec![(100, LogicTerm::True), (200, key())],
        goal_locations: vec![(200, s("Night"))],
    }
}

fn slot(g: usize) -> SlotData {
    SlotData::try_from(RawSlotData { g }).ok().unwrap()
}

#[test]
fn new_state_knows_unsent_and_completed() {
    let data = tables();
    let st = State::new(&[100, 200], &[], slot(1), &data);
    assert!(st.is_unsent(100));
    assert!(st.is_unsent(200));
    assert!(!st.is_unsent(300));
    assert_eq!(st.completed_campaigns(), 0);
    assert_eq!(st.goal_progress(), (0, 1));
    assert!(st.campaigns().is_empty());
    let done = State::new(&[100], &[200], slot(1), &data);
    assert_eq!(done.completed_campaigns(), 1);
}

#[test]
fn slot_data_keeps_the_goal_count() {
    assert_eq!(slot(3).required_campaigns, 3);
}

#[test]
fn items_are_counted_by_campaign() {
    let data = tables();
    let mut st = State::new(&[100, 200], &[], slot(1), &data);
    assert!(!st.has("Night", "Key"));
    assert!(recieved_items(&mut st, &data, &vec![1, 3, 3, 5, 99]).is_ok());
    assert!(st.has("Night", "Key"));
    assert!(!st.has("Night", "Lock"));
    assert!(!st.has("Day", "Key"));
    assert_eq!(st.xp("Night"), 4);
    assert_eq!(st.filler("Night"), vec![(s("Bandage"), 1)]);
    assert!(st.holds(&key()));
    assert!(st.holds(&LogicTerm::Or(vec![LogicTerm::Unlock((s("Night"), s("Lock"))), key()])));
    assert!(!st.holds(&LogicTerm::And(vec![LogicTerm::Unlock((s("Night"), s("Lock"))), key()])));
}

#[test]
fn receiving_stops_at_an_overflowing_item() {
    let data = tables();
    let mut st = State::new(&[], &[], slot(1), &data);
    assert_eq!(recieved_items(&mut st, &data, &vec![3, 6, 1]), Err(6));
    assert_eq!(st.xp("Night"), 2);
    assert!(!st.has("Night", "Key"));
}

#[test]
fn scenario_unlock_opens_reachable_locations() {
    let data = tables();
    let mut st = State::new(&[100, 200], &[], slot(1), &data);
    recieved_items(&mut st, &data, &vec![2]).ok().unwrap();
    assert_eq!(st.scenarios("Night"), vec![s("Gathering")]);
    assert_eq!(st.campaigns(), vec![(s("Night"), false)]);
    assert_eq!(st.reachable_locations("Gathering"), vec![code(1111)]);
    recieved_items(&mut st, &data, &vec![1]).ok().unwrap();
    let mut reach = st.reachable_locations("Gathering");
    reach.sort();
    assert_eq!(reach, vec![code(1111), code(1112)]);
    assert!(st.reachable_locations("Elsewhere").is_empty());
}

#[test]
fn scenario_cards_are_counted() {
    let data = tables();
    let mut st = State::new(&[], &[], slot(1), &data);
    recieved_items(&mut st, &data, &vec![4, 4]).ok().unwrap();
    assert_eq!(st.cards("Night"), vec![(code(1117), 2)]);
}

#[test]
fn sending_a_goal_completes_its_campaign() {
    let data = tables();
    let mut st = State::new(&[100, 200], &[], slot(1), &data);
    st.mark_sent(100, &data);
    assert!(!st.is_unsent(100));
    assert_eq!(st.completed_campaigns(), 0);
    st.mark_sent(200, &data);
    assert!(!st.is_unsent(200));
    assert_eq!(st.completed_campaigns(), 1);
    assert_eq!(st.goal_progress(), (1, 1));
}

#[test]
fn tables_look_up_by_key() {
    let data = tables();
    assert!(matches!(data.item_from_id(3), Some(Item::Xp((c, 2))) if c == "Night"));
    assert!(data.item_from_id(7).is_none());
    assert_eq!(data.get_card(code(1112)).map(|c| c.name.clone()), Some(s("Hallway")));
    assert!(data.get_campaign("Night").is_some());
    assert!(data.get_scenario("Gathering").is_some());
    assert!(data.get_scenario("Night").is_none());
    assert_eq!(data.get_clue_id("Night", "Gathering", code(1111), 0), Some(100));
    assert_eq!(data.get_clue_id("Night", "Gathering", code(1111), 1), None);
    assert_eq!(data.is_goal_location(200), Some(&s("Night")));
    assert_eq!(data.is_goal_location(100), None);
}

#[test]
fn rules_decide_paths_and_locations() {
    let data = tables();
    let mut st = State::new(&[], &[], slot(1), &data);
    assert!(!data.can_follow_path("Night", "Gathering", code(1111), code(1112), &st));
    assert!(!data.can_follow_path("Night", "Gathering", code(1112), code(1111), &st));
    assert!(data.can_send_location(100, &st));
    assert!(!data.can_send_location(200, &st));
    recieved_items(&mut st, &data, &vec![1]).ok().unwrap();
    assert!(data.can_follow_path("Night", "Gathering", code(1111), code(1112), &st));
    assert!(data.can_send_location(200, &st));
}

#[test]
fn item_split_drops_the_campaign() {
    let (c, _) = Item::Xp((s("Night"), 3)).split();
    assert_eq!(c, "Night");
}

#[test]
fn wire_values_round_trip() {
    for v in 0u16..10 {
        if let Some(p) = Permission::from_wire(v) {
            assert_eq!(p.wire_value(), v);
        }
        if let Some(t) = SlotType::from_wire(v) {
            assert_eq!(t.wire_value(), v);
        }
    }
    assert!(Permission::from_wire(1).is_some());
    assert!(Permission::from_wire(3).is_none());
    assert!(SlotType::from_wire(3).is_none());
}

#[test]
fn goal_click_reports_the_win() {
    let data = tables();
    let mut st = State::new(&[200], &[200], slot(1), &data);
    let mut ui = Interface::new();
    let (action, _) = handle_click(&mut st, &mut ui, &data, "goal");
    assert!(action.locations().is_empty());
    assert!(action.victory);
}

#[test]
fn a_location_is_sent_once() {
    let data = tables();
    let mut st = State::new(&[100, 200], &[], slot(1), &data);
    let mut ui = Interface::new();
    let (first, _) = handle_click(&mut st, &mut ui, &data, "100");
    assert_eq!(first.locations(), vec![100]);
    assert!(!first.victory);
    let (again, _) = handle_click(&mut st, &mut ui, &data, "100");
    assert!(again.locations().is_empty());
    assert!(st.is_unsent(200));
}

#[test]
fn sending_a_goal_twice_counts_once() {
    let data = tables();
    let mut st = State::new(&[200], &[], slot(2), &data);
    st.mark_sent(200, &data);
    assert_eq!(st.completed_campaigns(), 1);
    st.mark_sent(200, &data);
    assert_eq!(st.completed_campaigns(), 1);
    assert_eq!(st.goal_progress(), (1, 2));
}

#[test]
fn receiving_in_two_batches_is_receiving_once() {
    let data = tables();
    let mut one = State::new(&[], &[], slot(1), &data);
    recieved_items(&mut one, &data, &vec![2, 3, 1, 5]).ok().unwrap();
    let mut two = State::new(&[], &[], slot(1), &data);
    recieved_items(&mut two, &data, &vec![2, 3]).ok().unwrap();
    recieved_items(&mut two, &data, &vec![1, 5]).ok().unwrap();
    assert_eq!(one.xp("Night"), two.xp("Night"));
    assert_eq!(one.has("Night", "Key"), two.has("Night", "Key"));
    assert_eq!(one.filler("Night"), two.filler("Night"));
    assert_eq!(one.reachable_locations("Gathering"), two.reachable_locations("Gathering"));
}

#[test]
fn a_scenario_card_gives_its_name_as_unlock() {
    let data = tables();
    let mut st = State::new(&[], &[], slot(1), &data);
    assert!(!st.has("Night", "Lita Chantler"));
    recieved_items(&mut st, &data, &vec![4]).ok().unwrap();
    assert!(st.has("Night", "Lita Chantler"));
}

#[test]
fn a_new_state_reaches_nothing() {
    let data = tables();
    let st = State::new(&[100], &[], slot(1), &data);
    assert!(st.reachable_locations("Gathering").is_empty());
    assert!(!st.has("Night", "Key"));
}

#[test]
fn a_goal_click_completes_the_selected_campaign() {
    let data = tables();
    let mut st = State::new(&[200], &[], slot(1), &data);
    let mut ui = Interface::new();
    handle_click(&mut st, &mut ui, &data, "campaign-Night");
    let (sent, _) = handle_click(&mut st, &mut ui, &data, "goal-200");
    assert_eq!(sent.locations(), vec![200]);
    assert!(!st.is_unsent(200));
    assert_eq!(st.completed_campaigns(), 1);
    let (again, _) = handle_click(&mut st, &mut ui, &data, "goal-200");
    assert!(again.locations().is_empty());
    assert_eq!(st.completed_campaigns(), 1);
}
