//! What a click does: which locations it sends, whether it claims the goal,
//! what it selects, and which views must be redrawn.

use vstd::prelude::*;
use crate::text::{chars_of, parse_i64, parse_i64_spec, starts_with, int_text, lemma_int_text_parses};
use crate::client::data::{Tables, str_eq, campaign_pred, scenario_pred};
use crate::collections::lemma_first_where;
use crate::client::state::{State, added, can_receive, item_gives, lemma_added_unlock_count, history_step, gives_nothing, lemma_added_keeps};
use crate::client::data::Item;
use crate::client::interface::Interface;

verus! {

/// What the player's click asks the server to do.
pub struct Action {
    locations: Vec<i64>,
    pub victory: bool,
}

impl Action {
    /// Whether the click claims the goal.
    pub closed spec fn wins(&self) -> bool {
        self.victory
    }

    /// The locations to send.
    pub closed spec fn locs(&self) -> Seq<i64> {
        self.locations@
    }

    /// Nothing to do.
    pub fn none() -> (res: Action)
        ensures
            res.locs() == Seq::<i64>::empty(),
            !res.wins(),
    {
        Action { locations: Vec::new(), victory: false }
    }

    fn send(id: i64) -> (res: Action)
        ensures
            res.locs() == seq![id],
            !res.wins(),
    {
        let mut v: Vec<i64> = Vec::new();
        v.push(id);
        assert(v@ =~= seq![id]);
        Action { locations: v, victory: false }
    }

    /// The locations to send.
    pub fn locations(&self) -> (res: Vec<i64>)
        ensures
            res@ == self.locs(),
    {
        self.locations.clone()
    }
}

/// Which views must be redrawn after a click.
pub struct Refresh {
    pub campaigns: bool,
    pub scenarios: bool,
    pub active_scenario: bool,
    pub rules: bool,
    pub goal: bool,
}

impl Refresh {
    pub open spec fn is_nothing(self) -> bool {
        !self.campaigns && !self.scenarios && !self.active_scenario && !self.rules && !self.goal
    }

    fn nothing() -> (res: Refresh)
        ensures
            res.is_nothing(),
    {
        Refresh { campaigns: false, scenarios: false, active_scenario: false, rules: false, goal: false }
    }
}

/// `new` is `old` after sending location `id`: it is no longer unsent, and
/// the campaigns in `done` are completed; nothing else changes.
pub open spec fn sent(old: State, new: State, id: i64, done: Set<Seq<char>>) -> bool {
    &&& new.wf()
    &&& new.unsent() == old.unsent().remove(id)
    &&& new.slot() == old.slot()
    &&& forall|s: Seq<char>| #[trigger] new.reachable(s) == old.reachable(s)
    &&& forall|s: Seq<char>| #[trigger] new.has_reachable(s) == old.has_reachable(s)
    &&& forall|d: Seq<char>| done.contains(d) ==> {
        &&& #[trigger] new.is_completed(d)
        &&& new.unlock_pairs(d) == old.unlock_pairs(d)
        &&& new.scenario_keys(d) == old.scenario_keys(d)
        &&& new.xp_of(d) == old.xp_of(d)
        &&& new.card_pairs(d) == old.card_pairs(d)
        &&& new.filler_pairs(d) == old.filler_pairs(d)
    }
    &&& forall|d: Seq<char>| !done.contains(d) ==> #[trigger] new.campaign(d) == old.campaign(d)
}

/// The campaign whose goal location `id` is, as a set.
pub open spec fn goal_set(data: Tables, id: i64) -> Set<Seq<char>> {
    match data.goal_of(id) {
        Some(g) => set![g],
        None => Set::empty(),
    }
}

/// The click on `target` with `t` its characters.
pub open spec fn click_number(t: Seq<char>, prefix_len: int) -> Option<i64> {
    parse_i64_spec(t.skip(prefix_len))
}

/// What a click on the element with id `t` does: from state `s0` and
/// selection `i0` to state `s1` and selection `i1`, with result `res`.
pub open spec fn click_effect(s0: State, s1: State, i0: Interface, i1: Interface, data: Tables, t: Seq<char>, res: (Action, Refresh)) -> bool {
    let old_c = i0.selected_campaign@;
    if t == "goal"@ {
        &&& s1 == s0
        &&& i1 == i0
        &&& res.0.locs() == Seq::<i64>::empty()
        &&& res.0.wins() == (s0.completed_count() >= s0.slot().required_campaigns)
        &&& res.1.is_nothing()
    } else if t.len() >= 9 && t.take(9) == "campaign-"@ {
        let ci = data.campaign_index(t.skip(9));
        &&& s1 == s0
        &&& res.0.locs() == Seq::<i64>::empty() && !res.0.wins()
        &&& i1.selected_scenario == i0.selected_scenario
        &&& ci >= 0 ==> i1.selected_campaign@ == t.skip(9)
            && res.1.campaigns == (old_c != t.skip(9)) && res.1.scenarios == (old_c != t.skip(9))
            && !res.1.active_scenario && !res.1.rules && !res.1.goal
        &&& ci < 0 ==> i1 == i0 && res.1.is_nothing()
    } else if t.len() >= 9 && t.take(9) == "scenario-"@ {
        let si = data.scenario_index(t.skip(9));
        let old_s = i0.selected_scenario@;
        &&& s1 == s0
        &&& res.0.locs() == Seq::<i64>::empty() && !res.0.wins()
        &&& i1.selected_campaign == i0.selected_campaign
        &&& si >= 0 ==> i1.selected_scenario@ == t.skip(9)
            && res.1.scenarios == (old_s != t.skip(9)) && res.1.active_scenario == (old_s != t.skip(9))
            && res.1.rules == (old_s != t.skip(9)) && !res.1.campaigns && !res.1.goal
        &&& si < 0 ==> i1 == i0 && res.1.is_nothing()
    } else if t.len() >= 5 && t.take(5) == "goal-"@ {
        &&& i1 == i0
        &&& match click_number(t, 5) {
            Some(id) if s0.unsent().contains(id) => {
                &&& sent(s0, s1, id, goal_set(data, id).insert(old_c))
                &&& res.0.locs() == seq![id] && !res.0.wins()
                &&& res.1.campaigns && res.1.goal && res.1.active_scenario && !res.1.scenarios && !res.1.rules
            },
            _ => s1 == s0 && res.0.locs() == Seq::<i64>::empty() && !res.0.wins() && res.1.is_nothing(),
        }
    } else {
        &&& i1 == i0
        &&& match click_number(t, 0) {
            Some(id) if s0.unsent().contains(id) => {
                &&& sent(s0, s1, id, goal_set(data, id))
                &&& res.0.locs() == seq![id] && !res.0.wins()
                &&& res.1.active_scenario && !res.1.campaigns && !res.1.goal && !res.1.scenarios && !res.1.rules
            },
            _ => s1 == s0 && res.0.locs() == Seq::<i64>::empty() && !res.0.wins() && res.1.is_nothing(),
        }
    }
}

/// A location is sent at most once: when a click sends locations, the
/// same click again sends none.
pub proof fn lemma_sent_once(s0: State, s1: State, s2: State, i0: Interface, i1: Interface, i2: Interface,
    data: Tables, t: Seq<char>, r1: (Action, Refresh), r2: (Action, Refresh))
    requires
        click_effect(s0, s1, i0, i1, data, t, r1),
        click_effect(s1, s2, i1, i2, data, t, r2),
        r1.0.locs().len() > 0,
    ensures
        r2.0.locs() == Seq::<i64>::empty(),
        s2 == s1,
{
    if t.len() >= 5 && t.take(5) == "goal-"@ && !(t == "goal"@) && !(t.len() >= 9 && t.take(9) == "campaign-"@) && !(t.len() >= 9 && t.take(9) == "scenario-"@) {
        let id = click_number(t, 5).unwrap();
        assert(s1.unsent() == s0.unsent().remove(id));
        assert(!s1.unsent().contains(id));
    } else if !(t == "goal"@) && !(t.len() >= 9 && t.take(9) == "campaign-"@) && !(t.len() >= 9 && t.take(9) == "scenario-"@) {
        let id = click_number(t, 0).unwrap();
        assert(s1.unsent() == s0.unsent().remove(id));
        assert(!s1.unsent().contains(id));
    }
}

/// The element id of location `id`: its number, or `goal-` and its number
/// for a goal location.
pub open spec fn location_target(id: i64, goal: bool) -> Seq<char> {
    if goal { "goal-"@ + int_text(id as int) } else { int_text(id as int) }
}

/// Clicking location `id` while it is to send sends exactly `id`: it is no
/// longer to send and nothing else changes in what is to send; a goal
/// location also completes the selected campaign.  The same click again
/// then sends nothing and changes nothing.
pub proof fn lemma_click_location(s0: State, s1: State, s2: State, i0: Interface, i1: Interface, i2: Interface,
    data: Tables, id: i64, goal: bool, r1: (Action, Refresh), r2: (Action, Refresh))
    requires
        s0.unsent().contains(id),
        click_effect(s0, s1, i0, i1, data, location_target(id, goal), r1),
        click_effect(s1, s2, i1, i2, data, location_target(id, goal), r2),
    ensures
        r1.0.locs() == seq![id],
        !r1.0.wins(),
        s1.unsent() == s0.unsent().remove(id),
        goal ==> s1.is_completed(i0.selected_campaign@),
        r2.0.locs() == Seq::<i64>::empty(),
        !r2.0.wins(),
        s2 == s1,
{
    reveal_strlit("goal");
    reveal_strlit("goal-");
    reveal_strlit("campaign-");
    reveal_strlit("scenario-");
    lemma_int_text_parses(id);
    let n = int_text(id as int);
    let t = location_target(id, goal);
    if goal {
        assert(t.skip(5) =~= n);
        assert(t.take(5) =~= "goal-"@);
        assert(t.len() != 4);
        assert(t[0] == 'g');
        if t.len() >= 9 {
            assert(t.take(9)[0] == 'g');
        }
    } else {
        assert(t.skip(0) =~= n);
        assert(t[0] != 'g' && t[0] != 'c' && t[0] != 's');
        if t.len() >= 5 {
            assert(t.take(5)[0] == t[0]);
        }
        if t.len() >= 9 {
            assert(t.take(9)[0] == t[0]);
        }
        if t.len() == 4 {
            assert(t[0] != "goal"@[0]);
        }
    }
    assert(i1 == i0);
}

/// The campaigns a click on `t` completes: for a location to send, the
/// campaign it is the goal of, and for a `goal-` location also the
/// selected campaign.
pub open spec fn click_done(s0: State, i0: Interface, data: Tables, t: Seq<char>) -> Set<Seq<char>> {
    if t == "goal"@ || (t.len() >= 9 && t.take(9) == "campaign-"@) || (t.len() >= 9 && t.take(9) == "scenario-"@) {
        Set::empty()
    } else if t.len() >= 5 && t.take(5) == "goal-"@ {
        match click_number(t, 5) {
            Some(id) if s0.unsent().contains(id) => goal_set(data, id).insert(i0.selected_campaign@),
            _ => Set::empty(),
        }
    } else {
        match click_number(t, 0) {
            Some(id) if s0.unsent().contains(id) => goal_set(data, id),
            _ => Set::empty(),
        }
    }
}

proof fn lemma_sent_step(s0: State, s1: State, id: i64, done: Set<Seq<char>>)
    requires
        s0.wf(),
        sent(s0, s1, id, done),
    ensures
        history_step(s0, s1, done, gives_nothing()),
{
    assert forall|c: Seq<char>, u: Seq<char>| (#[trigger] s1.unlock_count(c, u) > 0) == (s0.unlock_count(c, u) > 0 || gives_nothing()(c, u)) by {
        if !done.contains(c) {
            assert(s1.campaign(c) == s0.campaign(c));
        } else {
            assert(s1.is_completed(c));
            assert(s1.unlock_pairs(c) == s0.unlock_pairs(c));
        }
    }
    assert forall|c: Seq<char>| #[trigger] s1.is_completed(c) == (s0.is_completed(c) || done.contains(c)) by {
        if !done.contains(c) { assert(s1.campaign(c) == s0.campaign(c)); }
    }
}

/// A click is a step that completes the campaigns `click_done` names and
/// gives no unlock.
pub proof fn lemma_click_step(s0: State, s1: State, i0: Interface, i1: Interface, data: Tables, t: Seq<char>, r: (Action, Refresh))
    requires
        s0.wf(),
        click_effect(s0, s1, i0, i1, data, t, r),
    ensures
        history_step(s0, s1, click_done(s0, i0, data, t), gives_nothing()),
{
    if t == "goal"@ || (t.len() >= 9 && t.take(9) == "campaign-"@) || (t.len() >= 9 && t.take(9) == "scenario-"@) {
        assert(s1 == s0);
        assert(click_done(s0, i0, data, t) =~= Set::<Seq<char>>::empty());
    } else if t.len() >= 5 && t.take(5) == "goal-"@ {
        match click_number(t, 5) {
            Some(id) => {
                if s0.unsent().contains(id) {
                    lemma_sent_step(s0, s1, id, goal_set(data, id).insert(i0.selected_campaign@));
                } else {
                    assert(click_done(s0, i0, data, t) =~= Set::<Seq<char>>::empty());
                }
            },
            None => { assert(click_done(s0, i0, data, t) =~= Set::<Seq<char>>::empty()); },
        }
    } else {
        match click_number(t, 0) {
            Some(id) => {
                if s0.unsent().contains(id) {
                    lemma_sent_step(s0, s1, id, goal_set(data, id));
                } else {
                    assert(click_done(s0, i0, data, t) =~= Set::<Seq<char>>::empty());
                }
            },
            None => { assert(click_done(s0, i0, data, t) =~= Set::<Seq<char>>::empty()); },
        }
    }
}

/// Handles a click on the element with id `target`.
pub fn handle_click(state: &mut State, interface: &mut Interface, data: &Tables, target: &str) -> (res: (Action, Refresh))
    requires
        old(state).wf(),
    ensures
        final(state).wf(),
        click_effect(*old(state), *final(state), *old(interface), *final(interface), *data, target@, res),
{
    let t = chars_of(target);
    if str_eq(target, "goal") {
        let (completed, required) = state.goal_progress();
        if completed >= required {
            return (Action { locations: Vec::new(), victory: true }, Refresh::nothing());
        }
        return (Action::none(), Refresh::nothing());
    }
    proof { reveal_strlit("goal"); }
    if starts_with(t.as_slice(), "campaign-") {
        proof { reveal_strlit("campaign-"); }
        let rest = crate::text::string_of(slice_skip(t.as_slice(), 9));
        match data.get_campaign(rest.as_str()) {
            Some(campaign) => {
                proof { lemma_first_where(data.campaigns@, campaign_pred(rest@)); }
                let changed = interface.select_campaign(campaign.name.as_str());
                let refresh = Refresh { campaigns: changed, scenarios: changed, active_scenario: false, rules: false, goal: false };
                return (Action::none(), refresh);
            },
            None => {
                return (Action::none(), Refresh::nothing());
            },
        }
    }
    proof { reveal_strlit("campaign-"); }
    if starts_with(t.as_slice(), "scenario-") {
        proof { reveal_strlit("scenario-"); }
        let rest = crate::text::string_of(slice_skip(t.as_slice(), 9));
        match data.get_scenario(rest.as_str()) {
            Some(scenario) => {
                proof { lemma_first_where(data.scenarios@, scenario_pred(rest@)); }
                let changed = interface.select_scenario(scenario.name.as_str());
                let refresh = Refresh { campaigns: false, scenarios: changed, active_scenario: changed, rules: changed, goal: false };
                return (Action::none(), refresh);
            },
            None => {
                return (Action::none(), Refresh::nothing());
            },
        }
    }
    proof { reveal_strlit("scenario-"); }
    if starts_with(t.as_slice(), "goal-") {
        proof { reveal_strlit("goal-"); }
        match parse_i64(slice_skip(t.as_slice(), 5)) {
            Some(id) => {
                if state.is_unsent(id) {
                    let ghost s0 = *state;
                    state.mark_sent(id, data);
                    let ghost s1 = *state;
                    state.complete_campaign(interface.selected_campaign.as_str());
                    proof { lemma_sent_then_completed(s0, s1, *state, id, *data, interface.selected_campaign@); }
                    let refresh = Refresh { campaigns: true, scenarios: false, active_scenario: true, rules: false, goal: true };
                    return (Action::send(id), refresh);
                }
                return (Action::none(), Refresh::nothing());
            },
            None => {
                return (Action::none(), Refresh::nothing());
            },
        }
    }
    proof { reveal_strlit("goal-"); }
    assert(t@.skip(0) =~= t@);
    match parse_i64(t.as_slice()) {
        Some(id) => {
            if state.is_unsent(id) {
                let ghost s0 = *state;
                state.mark_sent(id, data);
                proof { lemma_sent(s0, *state, id, *data); }
                let refresh = Refresh { campaigns: false, scenarios: false, active_scenario: true, rules: false, goal: false };
                return (Action::send(id), refresh);
            }
            (Action::none(), Refresh::nothing())
        },
        None => (Action::none(), Refresh::nothing()),
    }
}

fn slice_skip(cs: &[char], n: usize) -> (res: &[char])
    requires
        n <= cs@.len(),
    ensures
        res@ == cs@.skip(n as int),
{
    cs.split_at(n).1
}

proof fn lemma_sent(s0: State, s1: State, id: i64, data: Tables)
    requires
        s1.wf(),
        s1.unsent() == s0.unsent().remove(id),
        s1.slot() == s0.slot(),
        forall|s: Seq<char>| #[trigger] s1.reachable(s) == s0.reachable(s),
        forall|s: Seq<char>| #[trigger] s1.has_reachable(s) == s0.has_reachable(s),
        match data.goal_of(id) {
            Some(c) => {
                &&& s1.is_completed(c)
                &&& s1.unlock_pairs(c) == s0.unlock_pairs(c)
                &&& s1.scenario_keys(c) == s0.scenario_keys(c)
                &&& s1.xp_of(c) == s0.xp_of(c)
                &&& s1.card_pairs(c) == s0.card_pairs(c)
                &&& s1.filler_pairs(c) == s0.filler_pairs(c)
                &&& forall|d: Seq<char>| d != c ==> #[trigger] s1.campaign(d) == s0.campaign(d)
            },
            None => forall|d: Seq<char>| #[trigger] s1.campaign(d) == s0.campaign(d),
        },
    ensures
        sent(s0, s1, id, goal_set(data, id)),
{
}

proof fn lemma_sent_then_completed(s0: State, s1: State, s2: State, id: i64, data: Tables, c: Seq<char>)
    requires
        sent(s0, s1, id, goal_set(data, id)) || (s1.wf() && s1.unsent() == s0.unsent().remove(id) && s1.slot() == s0.slot()
            && (forall|s: Seq<char>| #[trigger] s1.reachable(s) == s0.reachable(s))
            && (forall|s: Seq<char>| #[trigger] s1.has_reachable(s) == s0.has_reachable(s))
            && match data.goal_of(id) {
                Some(g) => {
                    &&& s1.is_completed(g)
                    &&& s1.unlock_pairs(g) == s0.unlock_pairs(g)
                    &&& s1.scenario_keys(g) == s0.scenario_keys(g)
                    &&& s1.xp_of(g) == s0.xp_of(g)
                    &&& s1.card_pairs(g) == s0.card_pairs(g)
                    &&& s1.filler_pairs(g) == s0.filler_pairs(g)
                    &&& forall|d: Seq<char>| d != g ==> #[trigger] s1.campaign(d) == s0.campaign(d)
                },
                None => forall|d: Seq<char>| #[trigger] s1.campaign(d) == s0.campaign(d),
            }),
        s2.wf(),
        s2.unsent() == s1.unsent(),
        s2.slot() == s1.slot(),
        forall|s: Seq<char>| #[trigger] s2.reachable(s) == s1.reachable(s),
        forall|s: Seq<char>| #[trigger] s2.has_reachable(s) == s1.has_reachable(s),
        s2.is_completed(c),
        s2.unlock_pairs(c) == s1.unlock_pairs(c),
        s2.scenario_keys(c) == s1.scenario_keys(c),
        s2.xp_of(c) == s1.xp_of(c),
        s2.card_pairs(c) == s1.card_pairs(c),
        s2.filler_pairs(c) == s1.filler_pairs(c),
        forall|d: Seq<char>| d != c ==> #[trigger] s2.campaign(d) == s1.campaign(d),
    ensures
        sent(s0, s2, id, goal_set(data, id).insert(c)),
{
    if !sent(s0, s1, id, goal_set(data, id)) {
        lemma_sent(s0, s1, id, data);
    }
    let done = goal_set(data, id).insert(c);
    assert forall|d: Seq<char>| done.contains(d) implies {
        &&& #[trigger] s2.is_completed(d)
        &&& s2.unlock_pairs(d) == s0.unlock_pairs(d)
        &&& s2.scenario_keys(d) == s0.scenario_keys(d)
        &&& s2.xp_of(d) == s0.xp_of(d)
        &&& s2.card_pairs(d) == s0.card_pairs(d)
        &&& s2.filler_pairs(d) == s0.filler_pairs(d)
    } by {
        if d != c {
            assert(s2.campaign(d) == s1.campaign(d));
            assert(goal_set(data, id).contains(d));
            assert(s1.is_completed(d));
        } else if !goal_set(data, id).contains(d) {
            assert(s1.campaign(d) == s0.campaign(d));
        } else {
            assert(s1.is_completed(d));
        }
    }
    assert forall|d: Seq<char>| !done.contains(d) implies #[trigger] s2.campaign(d) == s0.campaign(d) by {
        assert(s2.campaign(d) == s1.campaign(d));
        assert(s1.campaign(d) == s0.campaign(d));
    }
}

/// What receiving the item with id `id` does: an item the tables know is
/// added to the state; an unknown id changes nothing.
pub open spec fn item_step(old: State, new: State, id: i64, data: Tables) -> bool {
    if data.item_index(id) >= 0 {
        added(old, new, data.items@[data.item_index(id)].1, data)
    } else {
        new == old
    }
}

/// `trace` runs from `old` to `new`, each state following from the one
/// before by receiving the next id of `ids`.
pub open spec fn receive_trace(trace: Seq<State>, old: State, new: State, ids: Seq<i64>, data: Tables) -> bool {
    &&& trace.len() == ids.len() + 1
    &&& trace[0] == old
    &&& trace.last() == new
    &&& forall|i: int| 0 <= i < ids.len() ==> #[trigger] item_step(trace[i], trace[i + 1], ids[i], data)
}

/// `new` is `old` after receiving the items with ids `ids`, in order.
pub open spec fn received_all(old: State, new: State, ids: Seq<i64>, data: Tables) -> bool {
    exists|trace: Seq<State>| #[trigger] receive_trace(trace, old, new, ids, data)
}

/// Receiving the items `a` and then the items `b` is receiving `a + b`.
pub proof fn lemma_received_concat(s0: State, s1: State, s2: State, a: Seq<i64>, b: Seq<i64>, data: Tables)
    requires
        received_all(s0, s1, a, data),
        received_all(s1, s2, b, data),
    ensures
        received_all(s0, s2, a + b, data),
{
    let t1 = choose|t: Seq<State>| #[trigger] receive_trace(t, s0, s1, a, data);
    let t2 = choose|t: Seq<State>| #[trigger] receive_trace(t, s1, s2, b, data);
    let t = t1 + t2.drop_first();
    let ids = a + b;
    assert(t.len() == ids.len() + 1);
    assert(t[0] == s0);
    if b.len() == 0 {
        assert(t.last() == t1.last());
    } else {
        assert(t.last() == t2.last());
    }
    assert forall|i: int| 0 <= i < ids.len() implies #[trigger] item_step(t[i], t[i + 1], ids[i], data) by {
        if i < a.len() {
            assert(t[i] == t1[i] && ids[i] == a[i]);
            if i + 1 < a.len() + 1 {
                assert(t[i + 1] == t1[i + 1]);
            }
        } else {
            let j = i - a.len();
            assert(ids[i] == b[j]);
            assert(t[i + 1] == t2[j + 1]);
            if j == 0 {
                assert(t[i] == t1[a.len() as int]);
                assert(t1[a.len() as int] == t1.last());
            } else {
                assert(t[i] == t2[j]);
            }
            assert(item_step(t2[j], t2[j + 1], b[j], data));
        }
    }
    assert(receive_trace(t, s0, s2, ids, data));
}

/// The item with id `id` gives campaign `c` unlock `u`.
pub open spec fn id_gives(data: Tables, id: i64, c: Seq<char>, u: Seq<char>) -> bool {
    data.item_index(id) >= 0 && item_gives(data, data.items@[data.item_index(id)].1, c, u)
}

proof fn lemma_trace_unlocks(t: Seq<State>, s0: State, s1: State, ids: Seq<i64>, data: Tables, c: Seq<char>, u: Seq<char>, k: int)
    requires
        s0.wf(),
        receive_trace(t, s0, s1, ids, data),
        0 <= k <= ids.len(),
    ensures
        t[k].wf(),
        (t[k].unlock_count(c, u) > 0) <==> (s0.unlock_count(c, u) > 0
            || exists|j: int| 0 <= j < k && #[trigger] id_gives(data, ids[j], c, u)),
    decreases k,
{
    if k > 0 {
        lemma_trace_unlocks(t, s0, s1, ids, data, c, u, k - 1);
        let i = k - 1;
        assert(item_step(t[i], t[i + 1], ids[i], data));
        assert(t[i + 1] == t[k]);
        if data.item_index(ids[i]) >= 0 {
            lemma_added_unlock_count(t[i], t[k], data.items@[data.item_index(ids[i])].1, data, c, u);
        }
        let before = exists|j: int| 0 <= j < i && #[trigger] id_gives(data, ids[j], c, u);
        let now = exists|j: int| 0 <= j < k && #[trigger] id_gives(data, ids[j], c, u);
        assert(now == (before || id_gives(data, ids[i], c, u))) by {
            if now {
                let j = choose|j: int| 0 <= j < k && #[trigger] id_gives(data, ids[j], c, u);
                if j < i {
                    assert(before);
                }
            }
            if before {
                let j = choose|j: int| 0 <= j < i && #[trigger] id_gives(data, ids[j], c, u);
                assert(0 <= j < k && id_gives(data, ids[j], c, u));
            }
            if id_gives(data, ids[i], c, u) {
                assert(0 <= i < k && id_gives(data, ids[i], c, u));
            }
        }
    }
}

proof fn lemma_trace_keeps(t: Seq<State>, s0: State, s1: State, ids: Seq<i64>, data: Tables, k: int)
    requires
        s0.wf(),
        receive_trace(t, s0, s1, ids, data),
        0 <= k <= ids.len(),
    ensures
        t[k].wf(),
        t[k].unsent() == s0.unsent(),
        t[k].slot() == s0.slot(),
        t[k].completed_count() == s0.completed_count(),
        forall|c: Seq<char>| #[trigger] t[k].is_completed(c) == s0.is_completed(c),
    decreases k,
{
    if k > 0 {
        lemma_trace_keeps(t, s0, s1, ids, data, k - 1);
        let i = k - 1;
        assert(item_step(t[i], t[i + 1], ids[i], data));
        assert(t[i + 1] == t[k]);
        if data.item_index(ids[i]) >= 0 {
            let item = data.items@[data.item_index(ids[i])].1;
            lemma_added_keeps(t[i], t[k], item, data);
            assert forall|c: Seq<char>| #[trigger] t[k].is_completed(c) == t[i].is_completed(c) by {
                if c != item.campaign() { assert(t[k].campaign(c) == t[i].campaign(c)); }
            }
        }
    }
}

/// Receiving items keeps what is to send, the options, and which
/// campaigns are completed (and so how many).
pub proof fn lemma_received_keeps(s0: State, s1: State, ids: Seq<i64>, data: Tables)
    requires
        s0.wf(),
        received_all(s0, s1, ids, data),
    ensures
        s1.unsent() == s0.unsent(),
        s1.slot() == s0.slot(),
        s1.completed_count() == s0.completed_count(),
        forall|c: Seq<char>| #[trigger] s1.is_completed(c) == s0.is_completed(c),
{
    let t = choose|t: Seq<State>| #[trigger] receive_trace(t, s0, s1, ids, data);
    lemma_trace_keeps(t, s0, s1, ids, data, ids.len() as int);
    assert(t[ids.len() as int] == t.last());
}

/// After receiving the items `ids`, a campaign holds an unlock exactly
/// when it held it before or one of the items gives it: the unlock
/// itself, or a scenario card whose card bears its name.
pub proof fn lemma_has_iff_received(s0: State, s1: State, ids: Seq<i64>, data: Tables, c: Seq<char>, u: Seq<char>)
    requires
        s0.wf(),
        received_all(s0, s1, ids, data),
    ensures
        (s1.unlock_count(c, u) > 0) <==> (s0.unlock_count(c, u) > 0
            || exists|j: int| 0 <= j < ids.len() && #[trigger] id_gives(data, ids[j], c, u)),
{
    let t = choose|t: Seq<State>| #[trigger] receive_trace(t, s0, s1, ids, data);
    lemma_trace_unlocks(t, s0, s1, ids, data, c, u, ids.len() as int);
    assert(t[ids.len() as int] == t.last());
}

/// The item with id `id`, if the state can still count it.
pub open spec fn receivable(st: State, id: i64, data: Tables) -> bool {
    data.item_index(id) >= 0 ==> can_receive(st, data.items@[data.item_index(id)].1, data)
}

/// Receives the items with these ids, in order: each item the tables know
/// is added to the state.  Stops with the id of an item whose count would
/// no longer fit.
pub fn recieved_items(state: &mut State, data: &Tables, items: &Vec<i64>) -> (res: Result<(), i64>)
    requires
        old(state).wf(),
    ensures
        final(state).wf(),
        match res {
            Ok(()) => received_all(*old(state), *final(state), items@, *data),
            Err(id) => exists|k: int| 0 <= k < items@.len() && #[trigger] items@[k] == id
                && received_all(*old(state), *final(state), items@.take(k), *data) && !receivable(*final(state), id, *data),
        },
{
    let ghost start = *state;
    let ghost mut trace: Seq<State> = seq![start];
    let mut k: usize = 0;
    assert(items@.take(0) =~= Seq::<i64>::empty());
    assert(receive_trace(trace, start, *state, items@.take(0), *data));
    while k < items.len()
        invariant
            state.wf(),
            k <= items@.len(),
            receive_trace(trace, start, *state, items@.take(k as int), *data),
            start == *old(state),
        decreases items@.len() - k,
    {
        let id = items[k];
        let ghost before = *state;
        match data.item_from_id(id) {
            Some(item) => {
                if !state.can_receive(item, data) {
                    return Err(id);
                }
                let it = item.duplicate();
                state.add_item(it, data);
            },
            None => {},
        }
        proof {
            assert(item_step(before, *state, id, *data));
            let t2 = trace.push(*state);
            let ids2 = items@.take(k + 1);
            assert(ids2 =~= items@.take(k as int).push(id));
            assert forall|i: int| 0 <= i < ids2.len() implies #[trigger] item_step(t2[i], t2[i + 1], ids2[i], *data) by {
                if i < k {
                    assert(t2[i] == trace[i] && t2[i + 1] == trace[i + 1] && ids2[i] == items@.take(k as int)[i]);
                }
            }
            trace = t2;
        }
        k = k + 1;
    }
    proof { assert(items@.take(k as int) =~= items@); }
    proof { assert(items@.take(k as int) =~= items@); }
    proof { assert(received_all(start, *state, items@, *data)); }
    Ok(())
}

} // verus!
