//! What the player sees: the lists of campaigns and scenarios, the checks
//! that can be sent, the rules in force and the goal, rendered as HTML.

use vstd::prelude::*;
use crate::cardcode::{Code, code_lt};
use crate::text::{push_str, push_i64, int_text, replace, replace_all};
use crate::client::data::{Tables, Check, LocationId, check_ids_ok, check_ids_needed, scenario_pred, check_open};
use crate::collections::lemma_first_where;
use crate::client::state::State;
use crate::text::push_usize;

verus! {

/// One card of a checklist: its code and its checks (name and location id).
pub type ChecklistEntry = (Code, Seq<(Seq<char>, i64)>);

/// Codes strictly increase along the entries.
pub open spec fn sorted_codes(es: Seq<ChecklistEntry>) -> bool {
    forall|i: int, j: int| 0 <= i < j < es.len() ==> code_lt((#[trigger] es[i]).0, (#[trigger] es[j]).0)
}

/// Where a card with a new code goes among sorted entries.
pub open spec fn insert_position(es: Seq<ChecklistEntry>, code: Code) -> int {
    choose|p: int| #[trigger] splits_at(es, code, p)
}

/// The entries before `p` come before `code`, those from `p` after it.
pub open spec fn splits_at(es: Seq<ChecklistEntry>, code: Code, p: int) -> bool {
    &&& 0 <= p <= es.len()
    &&& forall|j: int| 0 <= j < p ==> code_lt((#[trigger] es[j]).0, code)
    &&& forall|j: int| p <= j < es.len() ==> code_lt(code, (#[trigger] es[j]).0)
}

/// The entries after adding check `name` with id `id` to card `code`: it
/// joins the card's checks, or the card is inserted in code order.
pub open spec fn add_check(es: Seq<ChecklistEntry>, code: Code, name: Seq<char>, id: i64) -> Seq<ChecklistEntry> {
    if exists|i: int| 0 <= i < es.len() && (#[trigger] es[i]).0 == code {
        let i = choose|i: int| 0 <= i < es.len() && (#[trigger] es[i]).0 == code;
        es.update(i, (code, es[i].1.push((name, id))))
    } else {
        es.insert(insert_position(es, code), (code, seq![(name, id)]))
    }
}

/// The checklist built by adding each check in turn.
pub open spec fn checklist_of(adds: Seq<(Code, Seq<char>, i64)>) -> Seq<ChecklistEntry>
    decreases adds.len(),
{
    if adds.len() == 0 {
        Seq::empty()
    } else {
        let a = adds.last();
        add_check(checklist_of(adds.drop_last()), a.0, a.1, a.2)
    }
}

/// The parts, one after the other.
pub open spec fn concat(parts: Seq<Seq<char>>) -> Seq<char>
    decreases parts.len(),
{
    if parts.len() == 0 {
        Seq::empty()
    } else {
        concat(parts.drop_last()) + parts.last()
    }
}

/// The header of a card: its image, its name, or `???` when unknown.
pub open spec fn card_header(data: Tables, code: Code) -> Seq<char> {
    let i = data.card_index(code);
    if i >= 0 {
        let card = data.cards@[i];
        match card.image {
            Some(image) => "<img src=\"http://arkhamdb.com"@ + image@ + "\" alt=\""@ + card.name@ + "\"/>"@,
            None => card.name@,
        }
    } else {
        "???"@
    }
}

/// One button per check.
pub open spec fn check_buttons(checks: Seq<(Seq<char>, i64)>) -> Seq<char>
    decreases checks.len(),
{
    if checks.len() == 0 {
        Seq::empty()
    } else {
        check_buttons(checks.drop_last()) + "<button id=\""@ + int_text(checks.last().1 as int) + "\">"@ + checks.last().0 + "</button>"@
    }
}

/// The HTML of one card of a checklist.
pub open spec fn card_block(data: Tables, e: ChecklistEntry) -> Seq<char> {
    "<div class=\"check-card\"><div class=\"card-header\">"@ + card_header(data, e.0)
        + "</div><div class=\"card-checks\">"@ + check_buttons(e.1) + "</div></div>"@
}

/// The HTML of a checklist: its cards in code order.
pub open spec fn checklist_html(data: Tables, es: Seq<ChecklistEntry>) -> Seq<char>
    decreases es.len(),
{
    if es.len() == 0 {
        Seq::empty()
    } else {
        checklist_html(data, es.drop_last()) + card_block(data, es.last())
    }
}

fn push_card_header(buf: &mut String, data: &Tables, code: Code)
    ensures
        final(buf)@ == old(buf)@ + card_header(*data, code),
{
    match data.get_card(code) {
        Some(card) => {
            match &card.image {
                Some(image) => {
                    push_str(buf, "<img src=\"http://arkhamdb.com");
                    push_str(buf, image.as_str());
                    push_str(buf, "\" alt=\"");
                    push_str(buf, card.name.as_str());
                    push_str(buf, "\"/>");
                },
                None => {
                    push_str(buf, card.name.as_str());
                },
            }
        },
        None => {
            push_str(buf, "???");
        },
    }
}

/// The checks that can be sent, grouped by card, cards in code order.
pub struct Checklist {
    inner: Vec<(Code, Vec<(String, i64)>)>,
}

impl Checklist {
    pub closed spec fn entries(&self) -> Seq<ChecklistEntry> {
        self.inner@.map_values(|e: (Code, Vec<(String, i64)>)| (e.0, e.1@.map_values(|c: (String, i64)| (c.0@, c.1))))
    }

    pub open spec fn wf(&self) -> bool {
        sorted_codes(self.entries())
    }

    /// No checks.
    pub fn new() -> (res: Checklist)
        ensures
            res.wf(),
            res.entries() == Seq::<ChecklistEntry>::empty(),
    {
        let res = Checklist { inner: Vec::new() };
        assert(res.entries() =~= Seq::<ChecklistEntry>::empty());
        res
    }

    /// Adds check `name` with location id `id` to card `code`.
    pub fn add(&mut self, code: Code, name: String, id: i64)
        requires
            old(self).wf(),
        ensures
            final(self).wf(),
            final(self).entries() == add_check(old(self).entries(), code, name@, id),
    {
        let ghost es = self.entries();
        let mut i: usize = 0;
        while i < self.inner.len() && self.inner[i].0.lt(&code)
            invariant
                self.entries() == es,
                es == old(self).entries(),
                sorted_codes(es),
                i <= es.len(),
                forall|j: int| 0 <= j < i ==> code_lt((#[trigger] es[j]).0, code),
            decreases es.len() - i,
        {
            assert(es[i as int].0 == self.inner@[i as int].0);
            i = i + 1;
        }
        if i < self.inner.len() && self.inner[i].0 == code {
            assert(es[i as int].0 == code);
            proof {
                assert(exists|k: int| 0 <= k < es.len() && (#[trigger] es[k]).0 == code);
                let k = choose|k: int| 0 <= k < es.len() && (#[trigger] es[k]).0 == code;
                if k < i {
                    assert(code_lt(es[k].0, code));
                } else if k > i {
                    assert(code_lt(es[i as int].0, es[k].0));
                }
                assert(k == i);
            }
            let ghost orig = self.inner@;
            let mut entry = (code, Vec::new());
            self.inner.set_and_swap(i, &mut entry);
            assert(entry == orig[i as int]);
            let ghost list = entry.1@;
            assert(es[i as int].1 == list.map_values(|c: (String, i64)| (c.0@, c.1)));
            entry.1.push((name, id));
            assert(entry.1@.map_values(|c: (String, i64)| (c.0@, c.1)) =~= es[i as int].1.push((name@, id)));
            self.inner.set_and_swap(i, &mut entry);
            proof {

                assert(self.entries() =~= es.update(i as int, (code, es[i as int].1.push((name@, id)))));
            }
        } else {
            proof {
                if i < es.len() {
                    assert(es[i as int].0 == self.inner@[i as int].0);
                    assert(!code_lt(es[i as int].0, code));
                    assert(es[i as int].0 != code);
                }
                assert forall|j: int| i <= j < es.len() implies code_lt(code, (#[trigger] es[j]).0) by {
                    assert(es[i as int].0 == self.inner@[i as int].0);
                    if j > i {
                        assert(code_lt(es[i as int].0, es[j].0));
                    }
                }
                assert forall|k: int| 0 <= k < es.len() implies (#[trigger] es[k]).0 != code by {
                    if k < i {
                        assert(code_lt(es[k].0, code));
                    } else {
                        assert(code_lt(code, es[k].0));
                    }
                }
                let p = insert_position(es, code);
                assert(splits_at(es, code, i as int));
                if p < i {
                    assert(code_lt(code, es[p].0));
                    assert(code_lt(es[p].0, code));
                } else if p > i {
                    assert(code_lt(es[i as int].0, code));
                    assert(code_lt(code, es[i as int].0));
                }
                assert(p == i);
            }
            let mut list: Vec<(String, i64)> = Vec::new();
            list.push((name, id));
            let ghost lv = list@;
            self.inner.insert(i, (code, list));
            proof {
                assert(lv.map_values(|c: (String, i64)| (c.0@, c.1)) =~= seq![(name@, id)]);
                assert(self.entries() =~= es.insert(i as int, (code, seq![(name@, id)])));
                let r = self.entries();
                assert forall|a: int, b: int| 0 <= a < b < r.len() implies code_lt((#[trigger] r[a]).0, (#[trigger] r[b]).0) by {
                    if a < i && b < i {
                        assert(r[a] == es[a] && r[b] == es[b]);
                    } else if a < i && b == i {
                        assert(r[a] == es[a]);
                    } else if a < i && b > i {
                        assert(r[a] == es[a] && r[b] == es[b - 1]);
                        assert(code_lt(code, es[b - 1].0));
                    } else if a == i {
                        assert(r[b] == es[b - 1]);
                    } else {
                        assert(r[a] == es[a - 1] && r[b] == es[b - 1]);
                    }
                }
            }
        }
    }

    /// The HTML of the checklist: its cards in code order.
    pub fn into_html(self, data: &Tables) -> (res: String)
        ensures
            res@ == checklist_html(*data, self.entries()),
    {
        let ghost es = self.entries();
        let mut buf = String::new();
        let mut i: usize = 0;
        while i < self.inner.len()
            invariant
                es == self.entries(),
                i <= es.len(),
                buf@ == checklist_html(*data, es.take(i as int)),
            decreases es.len() - i,
        {
            let code = self.inner[i].0;
            push_str(&mut buf, "<div class=\"check-card\"><div class=\"card-header\">");
            push_card_header(&mut buf, data, code);
            push_str(&mut buf, "</div><div class=\"card-checks\">");
            let checks = &self.inner[i].1;
            let ghost cl = es[i as int].1;
            let mut k: usize = 0;
            let ghost mid = buf@;
            while k < checks.len()
                invariant
                    cl == checks@.map_values(|c: (String, i64)| (c.0@, c.1)),
                    k <= checks@.len(),
                    buf@ == mid + check_buttons(cl.take(k as int)),
                decreases checks@.len() - k,
            {
                push_str(&mut buf, "<button id=\"");
                push_i64(&mut buf, checks[k].1);
                push_str(&mut buf, "\">");
                push_str(&mut buf, checks[k].0.as_str());
                push_str(&mut buf, "</button>");
                proof {
                    assert(cl.take(k + 1).drop_last() =~= cl.take(k as int));
                    assert(cl[k as int] == (checks@[k as int].0@, checks@[k as int].1));
                }
                k = k + 1;
            }
            assert(cl.take(checks@.len() as int) =~= cl);
            push_str(&mut buf, "</div></div>");
            proof {
                assert(es.take(i + 1).drop_last() =~= es.take(i as int));
                assert(es[i as int].0 == code);
            }
            i = i + 1;
        }
        assert(es.take(es.len() as int) =~= es);
        buf
    }
}

/// A check to list when its location is still to send.
pub open spec fn single_add(st: State, code: Code, name: Seq<char>, id: i64) -> Seq<(Code, Seq<char>, i64)> {
    if st.unsent().contains(id) { seq![(code, name, id)] } else { Seq::empty() }
}

/// The first `k` clue (or victory) locations of card `code` that have an
/// id and are still to send, named `prefix` and their number.
pub open spec fn id_adds(st: State, ids: Seq<LocationId>, c: Seq<char>, s: Seq<char>, code: Code, prefix: Seq<char>, k: nat) -> Seq<(Code, Seq<char>, i64)>
    decreases k,
{
    if k == 0 {
        Seq::empty()
    } else {
        let n = k - 1;
        let prev = id_adds(st, ids, c, s, code, prefix, n as nat);
        let i = Tables::location_id_index(ids, c, s, code, n as i64);
        if i >= 0 {
            prev + single_add(st, code, prefix + int_text(n as int + 1), ids[i].id)
        } else {
            prev
        }
    }
}

/// The clue and victory locations of the reachable locations.
pub open spec fn location_adds(st: State, data: Tables, c: Seq<char>, s: Seq<char>, locs: Seq<Code>) -> Seq<(Code, Seq<char>, i64)>
    decreases locs.len(),
{
    if locs.len() == 0 {
        Seq::empty()
    } else {
        let code = locs.last();
        let ci = data.card_index(code);
        let prev = location_adds(st, data, c, s, locs.drop_last());
        if ci >= 0 {
            let card = data.cards@[ci];
            prev + id_adds(st, data.clue_ids@, c, s, code, "Clue "@, if card.clues > 0 { card.clues as nat } else { 0 })
                + id_adds(st, data.victory_ids@, c, s, code, "Victory "@, if card.victory > 0 { card.victory as nat } else { 0 })
        } else {
            prev
        }
    }
}

/// Repetitions `1..=k` of a check without victory points.
pub open spec fn repeat_adds(st: State, ch: Check, k: nat) -> Seq<(Code, Seq<char>, i64)>
    decreases k,
{
    if k == 0 {
        Seq::empty()
    } else {
        repeat_adds(st, ch, (k - 1) as nat) + single_add(st, ch.code, ch.description@ + " #"@ + int_text(k as int), ch.ids@[k - 1])
    }
}

/// Repetitions `1..=k` of victory point `v + 1` of a check.
pub open spec fn victory_repeat_adds(st: State, ch: Check, v: int, k: nat) -> Seq<(Code, Seq<char>, i64)>
    decreases k,
{
    if k == 0 {
        Seq::empty()
    } else {
        victory_repeat_adds(st, ch, v, (k - 1) as nat)
            + single_add(st, ch.code, "Victory "@ + int_text(v + 1) + " #"@ + int_text(k as int), ch.ids@[v * ch.count + k - 1])
    }
}

/// Victory points `1..=k` of a check.
pub open spec fn victory_adds(st: State, ch: Check, k: nat) -> Seq<(Code, Seq<char>, i64)>
    decreases k,
{
    if k == 0 {
        Seq::empty()
    } else {
        let v = k - 1;
        victory_adds(st, ch, v as nat) + if ch.count > 1 {
            victory_repeat_adds(st, ch, v, ch.count as nat)
        } else {
            single_add(st, ch.code, "Victory "@ + int_text(v + 1), ch.ids@[v])
        }
    }
}

/// The locations of one check that are still to send.
pub open spec fn check_adds(st: State, ch: Check) -> Seq<(Code, Seq<char>, i64)> {
    if ch.victory > 0 {
        victory_adds(st, ch, ch.victory as nat)
    } else if ch.count > 1 {
        repeat_adds(st, ch, ch.count as nat)
    } else {
        single_add(st, ch.code, ch.description@, ch.ids@[0])
    }
}

/// The locations of the checks that are still to send, check by check.
pub open spec fn checks_adds(st: State, checks: Seq<Check>) -> Seq<(Code, Seq<char>, i64)>
    decreases checks.len(),
{
    if checks.len() == 0 {
        Seq::empty()
    } else {
        checks_adds(st, checks.drop_last()) + check_adds(st, checks.last())
    }
}

/// The checks of scenario `s` whose rule holds in `st`.
pub open spec fn open_checks(st: State, data: Tables, s: Seq<char>) -> Seq<Check> {
    let si = data.scenario_index(s);
    if si >= 0 {
        data.scenarios@[si].checks@.filter(check_open(data, st.has_fn()))
    } else {
        Seq::empty()
    }
}

/// The checklist of the active scenario.
pub open spec fn active_checklist(st: State, data: Tables, c: Seq<char>, s: Seq<char>) -> Seq<ChecklistEntry> {
    checklist_of(location_adds(st, data, c, s, st.reachable_keys(s)) + checks_adds(st, open_checks(st, data, s)))
}

proof fn lemma_repeat_step(st: State, ch: Check, k: nat)
    ensures
        repeat_adds(st, ch, k + 1) == repeat_adds(st, ch, k) + single_add(st, ch.code, ch.description@ + " #"@ + int_text(k as int + 1), ch.ids@[k as int]),
{
}

proof fn lemma_id_adds_step(st: State, ids: Seq<LocationId>, c: Seq<char>, s: Seq<char>, code: Code, prefix: Seq<char>, k: nat)
    requires
        k < i64::MAX,
    ensures
        id_adds(st, ids, c, s, code, prefix, k + 1) == if Tables::location_id_index(ids, c, s, code, k as i64) >= 0 {
            id_adds(st, ids, c, s, code, prefix, k) + single_add(st, code, prefix + int_text(k as int + 1), ids[Tables::location_id_index(ids, c, s, code, k as i64)].id)
        } else {
            id_adds(st, ids, c, s, code, prefix, k)
        },
{
}

proof fn lemma_victory_repeat_step(st: State, ch: Check, v: int, k: nat)
    ensures
        victory_repeat_adds(st, ch, v, k + 1) == victory_repeat_adds(st, ch, v, k)
            + single_add(st, ch.code, "Victory "@ + int_text(v + 1) + " #"@ + int_text(k as int + 1), ch.ids@[v * ch.count + k]),
{
}

proof fn lemma_victory_step(st: State, ch: Check, k: nat)
    ensures
        victory_adds(st, ch, k + 1) == victory_adds(st, ch, k) + if ch.count > 1 {
            victory_repeat_adds(st, ch, k as int, ch.count as nat)
        } else {
            single_add(st, ch.code, "Victory "@ + int_text(k as int + 1), ch.ids@[k as int])
        },
{
}

proof fn lemma_checklist_push(xs: Seq<(Code, Seq<char>, i64)>, a: (Code, Seq<char>, i64))
    ensures
        checklist_of(xs.push(a)) == add_check(checklist_of(xs), a.0, a.1, a.2),
{
    assert(xs.push(a).drop_last() =~= xs);
}

/// Every location id of the checks to add is in `u`.
pub open spec fn adds_within(adds: Seq<(Code, Seq<char>, i64)>, u: Set<i64>) -> bool {
    forall|i: int| 0 <= i < adds.len() ==> u.contains(#[trigger] adds[i].2)
}

/// Every location id in the entries is in `u`.
pub open spec fn entries_within(es: Seq<ChecklistEntry>, u: Set<i64>) -> bool {
    forall|k: int, j: int| 0 <= k < es.len() && 0 <= j < es[k].1.len() ==> u.contains(#[trigger] es[k].1[j].1)
}

proof fn lemma_within_concat(a: Seq<(Code, Seq<char>, i64)>, b: Seq<(Code, Seq<char>, i64)>, u: Set<i64>)
    requires
        adds_within(a, u),
        adds_within(b, u),
    ensures
        adds_within(a + b, u),
{
    assert forall|i: int| 0 <= i < (a + b).len() implies u.contains(#[trigger] (a + b)[i].2) by {
        if i < a.len() { assert((a + b)[i] == a[i]); } else { assert((a + b)[i] == b[i - a.len()]); }
    }
}

proof fn lemma_single_within(st: State, code: Code, name: Seq<char>, id: i64)
    ensures
        adds_within(single_add(st, code, name, id), st.unsent()),
{
}

proof fn lemma_id_adds_within(st: State, ids: Seq<LocationId>, c: Seq<char>, s: Seq<char>, code: Code, prefix: Seq<char>, k: nat)
    ensures
        adds_within(id_adds(st, ids, c, s, code, prefix, k), st.unsent()),
    decreases k,
{
    if k > 0 {
        let n = (k - 1) as nat;
        lemma_id_adds_within(st, ids, c, s, code, prefix, n);
        let i = Tables::location_id_index(ids, c, s, code, n as i64);
        if i >= 0 {
            lemma_single_within(st, code, prefix + int_text(n as int + 1), ids[i].id);
            lemma_within_concat(id_adds(st, ids, c, s, code, prefix, n), single_add(st, code, prefix + int_text(n as int + 1), ids[i].id), st.unsent());
        }
    }
}

proof fn lemma_location_adds_within(st: State, data: Tables, c: Seq<char>, s: Seq<char>, locs: Seq<Code>)
    ensures
        adds_within(location_adds(st, data, c, s, locs), st.unsent()),
    decreases locs.len(),
{
    if locs.len() > 0 {
        let code = locs.last();
        let ci = data.card_index(code);
        lemma_location_adds_within(st, data, c, s, locs.drop_last());
        if ci >= 0 {
            let card = data.cards@[ci];
            let prev = location_adds(st, data, c, s, locs.drop_last());
            let a = id_adds(st, data.clue_ids@, c, s, code, "Clue "@, if card.clues > 0 { card.clues as nat } else { 0 });
            let b = id_adds(st, data.victory_ids@, c, s, code, "Victory "@, if card.victory > 0 { card.victory as nat } else { 0 });
            lemma_id_adds_within(st, data.clue_ids@, c, s, code, "Clue "@, if card.clues > 0 { card.clues as nat } else { 0 });
            lemma_id_adds_within(st, data.victory_ids@, c, s, code, "Victory "@, if card.victory > 0 { card.victory as nat } else { 0 });
            lemma_within_concat(prev, a, st.unsent());
            lemma_within_concat(prev + a, b, st.unsent());
        }
    }
}

proof fn lemma_repeat_within(st: State, ch: Check, k: nat)
    ensures
        adds_within(repeat_adds(st, ch, k), st.unsent()),
    decreases k,
{
    if k > 0 {
        lemma_repeat_within(st, ch, (k - 1) as nat);
        lemma_within_concat(repeat_adds(st, ch, (k - 1) as nat), single_add(st, ch.code, ch.description@ + " #"@ + int_text(k as int), ch.ids@[k - 1]), st.unsent());
    }
}

proof fn lemma_victory_repeat_within(st: State, ch: Check, v: int, k: nat)
    ensures
        adds_within(victory_repeat_adds(st, ch, v, k), st.unsent()),
    decreases k,
{
    if k > 0 {
        lemma_victory_repeat_within(st, ch, v, (k - 1) as nat);
        lemma_within_concat(victory_repeat_adds(st, ch, v, (k - 1) as nat),
            single_add(st, ch.code, "Victory "@ + int_text(v + 1) + " #"@ + int_text(k as int), ch.ids@[v * ch.count + k - 1]), st.unsent());
    }
}

proof fn lemma_victory_within(st: State, ch: Check, k: nat)
    ensures
        adds_within(victory_adds(st, ch, k), st.unsent()),
    decreases k,
{
    if k > 0 {
        let v = (k - 1) as nat;
        lemma_victory_within(st, ch, v);
        if ch.count > 1 {
            lemma_victory_repeat_within(st, ch, v as int, ch.count as nat);
            lemma_within_concat(victory_adds(st, ch, v), victory_repeat_adds(st, ch, v as int, ch.count as nat), st.unsent());
        } else {
            lemma_within_concat(victory_adds(st, ch, v), single_add(st, ch.code, "Victory "@ + int_text(v as int + 1), ch.ids@[v as int]), st.unsent());
        }
    }
}

proof fn lemma_checks_adds_within(st: State, checks: Seq<Check>)
    ensures
        adds_within(checks_adds(st, checks), st.unsent()),
    decreases checks.len(),
{
    if checks.len() > 0 {
        let ch = checks.last();
        lemma_checks_adds_within(st, checks.drop_last());
        lemma_victory_within(st, ch, ch.victory as nat);
        lemma_repeat_within(st, ch, ch.count as nat);
        lemma_within_concat(checks_adds(st, checks.drop_last()), check_adds(st, ch), st.unsent());
    }
}

/// Sorted entries leave a place for a code none of them has.
proof fn lemma_split_exists(es: Seq<ChecklistEntry>, code: Code)
    requires
        sorted_codes(es),
        forall|k: int| 0 <= k < es.len() ==> (#[trigger] es[k]).0 != code,
    ensures
        exists|p: int| #[trigger] splits_at(es, code, p),
    decreases es.len(),
{
    if es.len() == 0 {
        assert(splits_at(es, code, 0));
    } else {
        let d = es.drop_last();
        assert(sorted_codes(d)) by {
            assert forall|i: int, j: int| 0 <= i < j < d.len() implies code_lt((#[trigger] d[i]).0, (#[trigger] d[j]).0) by {
                assert(d[i] == es[i] && d[j] == es[j]);
            }
        }
        assert forall|k: int| 0 <= k < d.len() implies (#[trigger] d[k]).0 != code by {
            assert(d[k] == es[k]);
        }
        lemma_split_exists(d, code);
        let p = choose|p: int| #[trigger] splits_at(d, code, p);
        let last = es[es.len() - 1];
        assert(last.0 != code);
        if code_lt(last.0, code) {
            assert forall|j: int| 0 <= j < es.len() implies code_lt((#[trigger] es[j]).0, code) by {
                if j < es.len() - 1 { assert(code_lt(es[j].0, last.0)); }
            }
            assert(splits_at(es, code, es.len() as int));
        } else {
            assert(code_lt(code, last.0)) by {
                assert(!(last.0.number == code.number && last.0.letter == code.letter)) by {
                    if last.0.number == code.number && last.0.letter == code.letter {
                        assert(last.0 == code);
                    }
                }
            }
            assert forall|j: int| p <= j < es.len() implies code_lt(code, (#[trigger] es[j]).0) by {
                if j < es.len() - 1 { assert(es[j] == d[j]); }
            }
            assert forall|j: int| 0 <= j < p implies code_lt((#[trigger] es[j]).0, code) by {
                assert(es[j] == d[j]);
            }
            assert(splits_at(es, code, p));
        }
    }
}

/// Adding a check keeps the entries sorted, and lists no location id but
/// those listed before and the added one.
proof fn lemma_add_check_within(es: Seq<ChecklistEntry>, code: Code, name: Seq<char>, id: i64, u: Set<i64>)
    requires
        sorted_codes(es),
        entries_within(es, u),
        u.contains(id),
    ensures
        sorted_codes(add_check(es, code, name, id)),
        entries_within(add_check(es, code, name, id), u),
{
    let r = add_check(es, code, name, id);
    if exists|i: int| 0 <= i < es.len() && (#[trigger] es[i]).0 == code {
        let i = choose|i: int| 0 <= i < es.len() && (#[trigger] es[i]).0 == code;
        assert forall|k: int, j: int| 0 <= k < r.len() && 0 <= j < r[k].1.len() implies u.contains(#[trigger] r[k].1[j].1) by {
            if k == i {
                if j < es[i].1.len() { assert(r[k].1[j] == es[i].1[j]); }
            } else {
                assert(r[k] == es[k]);
            }
        }
        assert forall|a: int, b: int| 0 <= a < b < r.len() implies code_lt((#[trigger] r[a]).0, (#[trigger] r[b]).0) by {
            assert(r[a].0 == es[a].0 && r[b].0 == es[b].0);
        }
    } else {
        lemma_split_exists(es, code);
        let p = insert_position(es, code);
        assert(splits_at(es, code, p));
        assert forall|k: int, j: int| 0 <= k < r.len() && 0 <= j < r[k].1.len() implies u.contains(#[trigger] r[k].1[j].1) by {
            if k < p { assert(r[k] == es[k]); } else if k > p { assert(r[k] == es[k - 1]); }
        }
        assert forall|a: int, b: int| 0 <= a < b < r.len() implies code_lt((#[trigger] r[a]).0, (#[trigger] r[b]).0) by {
            if a < p { assert(r[a] == es[a]); } else if a > p { assert(r[a] == es[a - 1]); }
            if b < p { assert(r[b] == es[b]); } else if b > p { assert(r[b] == es[b - 1]); }
            if a > p { assert(code_lt(es[a - 1].0, es[b - 1].0)); }
        }
    }
}

proof fn lemma_checklist_within(adds: Seq<(Code, Seq<char>, i64)>, u: Set<i64>)
    requires
        adds_within(adds, u),
    ensures
        sorted_codes(checklist_of(adds)),
        entries_within(checklist_of(adds), u),
    decreases adds.len(),
{
    if adds.len() > 0 {
        let d = adds.drop_last();
        assert(adds_within(d, u)) by {
            assert forall|i: int| 0 <= i < d.len() implies u.contains(#[trigger] d[i].2) by {
                assert(d[i] == adds[i]);
            }
        }
        lemma_checklist_within(d, u);
        let a = adds.last();
        assert(u.contains(adds[adds.len() - 1].2));
        lemma_add_check_within(checklist_of(d), a.0, a.1, a.2, u);
    }
}

/// Every check that the active scenario's checklist offers is a location
/// still to send: each listed location id is one of the state's unsent
/// locations.
pub proof fn lemma_active_checklist_unsent(st: State, data: Tables, c: Seq<char>, s: Seq<char>)
    ensures
        forall|k: int, j: int| 0 <= k < active_checklist(st, data, c, s).len() && 0 <= j < active_checklist(st, data, c, s)[k].1.len()
            ==> st.unsent().contains(#[trigger] active_checklist(st, data, c, s)[k].1[j].1),
{
    let a = location_adds(st, data, c, s, st.reachable_keys(s));
    let b = checks_adds(st, open_checks(st, data, s));
    lemma_location_adds_within(st, data, c, s, st.reachable_keys(s));
    lemma_checks_adds_within(st, open_checks(st, data, s));
    lemma_within_concat(a, b, st.unsent());
    lemma_checklist_within(a + b, st.unsent());
}

/// Adds the check when its location is still to send; says what was added.
fn add_if_unsent(cl: &mut Checklist, st: &State, code: Code, name: String, id: i64, Ghost(done): Ghost<Seq<(Code, Seq<char>, i64)>>)
    requires
        old(cl).wf(),
        old(cl).entries() == checklist_of(done),
    ensures
        final(cl).wf(),
        final(cl).entries() == checklist_of(done + single_add(*st, code, name@, id)),
{
    if st.is_unsent(id) {
        proof {
            lemma_checklist_push(done, (code, name@, id));
            assert(done + seq![(code, name@, id)] =~= done.push((code, name@, id)));
        }
        cl.add(code, name, id);
    } else {
        assert(done + Seq::<(Code, Seq<char>, i64)>::empty() =~= done);
    }
}

fn numbered(prefix: &str, n: i64) -> (res: String)
    ensures
        res@ == prefix@ + int_text(n as int),
{
    let mut s = String::new();
    push_str(&mut s, prefix);
    push_i64(&mut s, n);
    s
}

/// The checks of the active scenario that can be sent, as HTML.
pub fn active_scenario_html(st: &State, data: &Tables, campaign: &str, scenario: &str) -> (res: String)
    requires
        st.wf(),
        data.checks_well_formed(),
    ensures
        res@ == checklist_html(*data, active_checklist(*st, *data, campaign@, scenario@)),
{
    let ghost c = campaign@;
    let ghost s = scenario@;
    let mut checks = Checklist::new();
    let locs = st.reachable_locations(scenario);
    let ghost ls = locs@;
    let ghost mut done: Seq<(Code, Seq<char>, i64)> = Seq::empty();
    let mut i: usize = 0;
    while i < locs.len()
        invariant
            checks.wf(),
            c == campaign@,
            s == scenario@,
            ls == locs@,
            i <= ls.len(),
            done == location_adds(*st, *data, c, s, ls.take(i as int)),
            checks.entries() == checklist_of(done),
        decreases ls.len() - i,
    {
        let location = locs[i];
        proof { assert(ls.take(i + 1).drop_last() =~= ls.take(i as int)); }
        match data.get_card(location) {
            Some(card) => {
                let ghost before = done;
                let mut clue: i64 = 0;
                while clue < card.clues
                    invariant
                        checks.wf(),
                        c == campaign@,
                        s == scenario@,
                        0 <= clue,
                        card.clues > 0 ==> clue <= card.clues,
                        card.clues <= 0 ==> clue == 0,
                        done == before + id_adds(*st, data.clue_ids@, c, s, location, "Clue "@, clue as nat),
                        checks.entries() == checklist_of(done),
                    decreases card.clues - clue,
                {
                    let ghost d0 = done;
                    match data.get_clue_id(campaign, scenario, location, clue) {
                        Some(id) => {
                            let name = numbered("Clue ", clue + 1);
                            add_if_unsent(&mut checks, st, location, name, id, Ghost(d0));
                            proof {
                                done = d0 + single_add(*st, location, "Clue "@ + int_text(clue + 1), id);
                                lemma_id_adds_step(*st, data.clue_ids@, c, s, location, "Clue "@, clue as nat);
                                assert((clue + 1) as nat == (clue as nat) + 1);
                                assert(done =~= before + id_adds(*st, data.clue_ids@, c, s, location, "Clue "@, (clue + 1) as nat));
                            }
                        },
                        None => {
                            proof { lemma_id_adds_step(*st, data.clue_ids@, c, s, location, "Clue "@, clue as nat);
                                assert((clue + 1) as nat == (clue as nat) + 1); }
                            assert(done =~= before + id_adds(*st, data.clue_ids@, c, s, location, "Clue "@, (clue + 1) as nat));
                        },
                    }
                    clue = clue + 1;
                }
                let ghost mid = done;
                let ghost clues_n: nat = if card.clues > 0 { card.clues as nat } else { 0 };
                assert(mid =~= before + id_adds(*st, data.clue_ids@, c, s, location, "Clue "@, clues_n));
                let mut victory: i64 = 0;
                while victory < card.victory
                    invariant
                        checks.wf(),
                        c == campaign@,
                        s == scenario@,
                        0 <= victory,
                        card.victory > 0 ==> victory <= card.victory,
                        card.victory <= 0 ==> victory == 0,
                        done == mid + id_adds(*st, data.victory_ids@, c, s, location, "Victory "@, victory as nat),
                        checks.entries() == checklist_of(done),
                    decreases card.victory - victory,
                {
                    let ghost d0 = done;
                    match data.get_victory_id(campaign, scenario, location, victory) {
                        Some(id) => {
                            let name = numbered("Victory ", victory + 1);
                            add_if_unsent(&mut checks, st, location, name, id, Ghost(d0));
                            proof {
                                done = d0 + single_add(*st, location, "Victory "@ + int_text(victory + 1), id);
                                lemma_id_adds_step(*st, data.victory_ids@, c, s, location, "Victory "@, victory as nat);
                                assert((victory + 1) as nat == (victory as nat) + 1);
                                assert(done =~= mid + id_adds(*st, data.victory_ids@, c, s, location, "Victory "@, (victory + 1) as nat));
                            }
                        },
                        None => {
                            proof { lemma_id_adds_step(*st, data.victory_ids@, c, s, location, "Victory "@, victory as nat);
                                assert((victory + 1) as nat == (victory as nat) + 1); }
                            assert(done =~= mid + id_adds(*st, data.victory_ids@, c, s, location, "Victory "@, (victory + 1) as nat));
                        },
                    }
                    victory = victory + 1;
                }
                proof {
                    let victory_n: nat = if card.victory > 0 { card.victory as nat } else { 0 };
                    assert(done =~= mid + id_adds(*st, data.victory_ids@, c, s, location, "Victory "@, victory_n));
                    assert(ls.take(i + 1).last() == location);
                }
                assert(done =~= location_adds(*st, *data, c, s, ls.take(i + 1)));
            },
            None => {
                assert(done =~= location_adds(*st, *data, c, s, ls.take(i + 1)));
            },
        }
        i = i + 1;
    }
    assert(ls.take(ls.len() as int) =~= ls);
    let ghost located = done;
    proof {
        lemma_first_where(data.scenarios@, scenario_pred(s));
        data.lemma_checks_have_ids();
    }
    match st.reachable_checks(scenario, data) {
        Some(rc) => {
            let ghost cs = open_checks(*st, *data, s);
            proof {
                let si = data.scenario_index(s);
                let all = data.scenarios@[si].checks@;
                let pr = check_open(*data, st.has_fn());
                assert forall|k: int| 0 <= k < cs.len() implies check_ids_ok(#[trigger] cs[k]) by {
                    assert(all.filter(pr).contains(cs[k]));
                    all.lemma_filter_contains_rev(pr, cs[k]);
                    let j = choose|j: int| 0 <= j < all.len() && all[j] == cs[k];
                    assert(check_ids_ok(data.scenarios@[si].checks@[j]));
                }
            }
            let mut j: usize = 0;
            while j < rc.len()
                invariant
                    checks.wf(),
                    c == campaign@,
                    s == scenario@,
                    rc@.map_values(|ch: &Check| *ch) == cs,
                    forall|k: int| 0 <= k < cs.len() ==> check_ids_ok(#[trigger] cs[k]),
                    j <= cs.len(),
                    done == located + checks_adds(*st, cs.take(j as int)),
                    checks.entries() == checklist_of(done),
                decreases cs.len() - j,
            {
                let ch: &Check = rc[j];
                assert(*ch == cs[j as int]);
                assert(check_ids_ok(*ch));
                let ghost d0 = done;
                add_check_locations(&mut checks, st, ch, Ghost(d0));
                proof {
                    done = d0 + check_adds(*st, *ch);
                    assert(cs.take(j + 1).drop_last() =~= cs.take(j as int));
                    assert(done =~= located + checks_adds(*st, cs.take(j + 1)));
                }
                j = j + 1;
            }
            assert(cs.take(cs.len() as int) =~= cs);
        },
        None => {
            assert(open_checks(*st, *data, s) =~= Seq::<Check>::empty());
            assert(done =~= located + checks_adds(*st, open_checks(*st, *data, s)));
        },
    }
    checks.into_html(data)
}

/// Adds the still-unsent locations of one check.
fn add_check_locations(cl: &mut Checklist, st: &State, ch: &Check, Ghost(done): Ghost<Seq<(Code, Seq<char>, i64)>>)
    requires
        old(cl).wf(),
        old(cl).entries() == checklist_of(done),
        check_ids_ok(*ch),
    ensures
        final(cl).wf(),
        final(cl).entries() == checklist_of(done + check_adds(*st, *ch)),
{
    let ghost mut d = done;
    if ch.victory > 0 {
        let mut victory: i64 = 0;
        while victory < ch.victory
            invariant
                cl.wf(),
                check_ids_ok(*ch),
                ch.victory > 0,
                0 <= victory <= ch.victory,
                d == done + victory_adds(*st, *ch, victory as nat),
                cl.entries() == checklist_of(d),
            decreases ch.victory - victory,
        {
            let ghost d1 = d;
            if ch.count > 1 {
                let mut n: i64 = 0;
                while n < ch.count
                    invariant
                        cl.wf(),
                        check_ids_ok(*ch),
                        ch.count > 1,
                        0 <= victory < ch.victory,
                        0 <= n <= ch.count,
                        d == d1 + victory_repeat_adds(*st, *ch, victory as int, n as nat),
                        cl.entries() == checklist_of(d),
                    decreases ch.count - n,
                {
                    assert(victory * ch.count + n < ch.victory * ch.count) by (nonlinear_arith)
                        requires 0 <= victory < ch.victory, 0 <= n < ch.count;
                    assert(ch.victory * ch.count <= ch.ids@.len());
                    assert(0 <= victory * ch.count) by (nonlinear_arith)
                        requires 0 <= victory, 0 < ch.count;
                    let k: i64 = victory * ch.count + n;
                    let n_ids: usize = ch.ids.len();
                    assert(k < n_ids);
                    let id = ch.ids[k as usize];
                    let mut name = numbered("Victory ", victory + 1);
                    push_str(&mut name, " #");
                    push_i64(&mut name, n + 1);
                    let ghost d0 = d;
                    assert(id == ch.ids@[victory * ch.count + n]);
                    assert(name@ == "Victory "@ + int_text(victory + 1) + " #"@ + int_text(n as int + 1));
                    add_if_unsent(cl, st, ch.code, name, id, Ghost(d0));
                    proof {
                        d = d0 + single_add(*st, ch.code, "Victory "@ + int_text(victory + 1) + " #"@ + int_text(n as int + 1), id);
                        lemma_victory_repeat_step(*st, *ch, victory as int, n as nat);
                        assert((n + 1) as nat == (n as nat) + 1);
                        assert(d =~= d1 + victory_repeat_adds(*st, *ch, victory as int, (n + 1) as nat));
                    }
                    n = n + 1;
                }
            } else {
                assert(ch.victory <= ch.ids@.len());
                let n_ids: usize = ch.ids.len();
                assert(victory < n_ids);
                let id = ch.ids[victory as usize];
                let name = numbered("Victory ", victory + 1);
                let ghost d0 = d;
                add_if_unsent(cl, st, ch.code, name, id, Ghost(d0));
                proof {
                    d = d0 + single_add(*st, ch.code, "Victory "@ + int_text(victory + 1), id);
                }
            }
            proof { lemma_victory_step(*st, *ch, victory as nat); assert((victory + 1) as nat == (victory as nat) + 1); }
            assert(d =~= done + victory_adds(*st, *ch, (victory + 1) as nat));
            victory = victory + 1;
        }
    } else if ch.count > 1 {
        let mut n: i64 = 0;
        while n < ch.count
            invariant
                cl.wf(),
                check_ids_ok(*ch),
                ch.victory <= 0,
                ch.count > 1,
                0 <= n <= ch.count,
                d == done + repeat_adds(*st, *ch, n as nat),
                cl.entries() == checklist_of(d),
            decreases ch.count - n,
        {
            let n_ids: usize = ch.ids.len();
            assert(n < n_ids);
            let id = ch.ids[n as usize];
            let mut name = String::new();
            push_str(&mut name, ch.description.as_str());
            push_str(&mut name, " #");
            push_i64(&mut name, n + 1);
            let ghost d0 = d;
            add_if_unsent(cl, st, ch.code, name, id, Ghost(d0));
            proof {
                d = d0 + single_add(*st, ch.code, ch.description@ + " #"@ + int_text(n as int + 1), id);
                lemma_repeat_step(*st, *ch, n as nat);
                assert((n + 1) as nat == (n as nat) + 1);
                assert(d =~= done + repeat_adds(*st, *ch, (n + 1) as nat));
            }
            n = n + 1;
        }
    } else {
        let id = ch.ids[0];
        let name = ch.description.clone();
        add_if_unsent(cl, st, ch.code, name, id, Ghost(d));
    }
}

/// The list items of the campaigns.
pub open spec fn campaigns_text(list: Seq<(Seq<char>, bool)>, selected: Seq<char>) -> Seq<char>
    decreases list.len(),
{
    if list.len() == 0 {
        Seq::empty()
    } else {
        let (c, goaled) = list.last();
        campaigns_text(list.drop_last(), selected) + "<li id=\"campaign-"@ + c + "\" class=\"campaign"@
            + (if goaled { " goaled"@ } else { Seq::empty() }) + (if c == selected { " selected"@ } else { Seq::empty() })
            + "\">"@ + c + "</li>"@
    }
}

/// The list items of the scenarios.
pub open spec fn scenarios_text(list: Seq<Seq<char>>, selected: Seq<char>) -> Seq<char>
    decreases list.len(),
{
    if list.len() == 0 {
        Seq::empty()
    } else {
        let sc = list.last();
        scenarios_text(list.drop_last(), selected) + "<li id=\"scenario-"@ + sc + "\" class=\"scenario"@
            + (if sc == selected { " selected"@ } else { Seq::empty() }) + "\">"@ + sc + "</li>"@
    }
}

/// One received thing: its name, with its count when more than one.
pub open spec fn item_li(name: Seq<char>, count: int) -> Seq<char> {
    if count == 1 {
        "<li>"@ + name + "</li>"@
    } else {
        "<li>"@ + name + " x"@ + int_text(count) + "</li>"@
    }
}

/// The received scenario cards that are known and counted.
pub open spec fn cards_items(data: Tables, pairs: Seq<(Code, int)>) -> Seq<char>
    decreases pairs.len(),
{
    if pairs.len() == 0 {
        Seq::empty()
    } else {
        let (code, n) = pairs.last();
        let ci = data.card_index(code);
        cards_items(data, pairs.drop_last()) + if n > 0 && ci >= 0 { item_li(data.cards@[ci].name@, n) } else { Seq::empty() }
    }
}

/// The received filler that is counted.
pub open spec fn filler_items(pairs: Seq<(Seq<char>, int)>) -> Seq<char>
    decreases pairs.len(),
{
    if pairs.len() == 0 {
        Seq::empty()
    } else {
        let (name, n) = pairs.last();
        filler_items(pairs.drop_last()) + if n > 0 { item_li(name, n) } else { Seq::empty() }
    }
}

/// The rules of the locks: the rule of a held lock, the other rule of a
/// lock not held, each when not empty.
pub open spec fn locks_text(locks: Seq<crate::client::data::Lock>, st: State, c: Seq<char>) -> Seq<char>
    decreases locks.len(),
{
    if locks.len() == 0 {
        Seq::empty()
    } else {
        let l = locks.last();
        locks_text(locks.drop_last(), st, c) + if st.unlock_count(c, l.name@) > 0 {
            if l.rule@.len() > 0 { "<p>"@ + l.rule@ + "</p>"@ } else { Seq::empty() }
        } else if l.neg_rule@.len() > 0 {
            "<p>"@ + l.neg_rule@ + "</p>"@
        } else {
            Seq::empty()
        }
    }
}

/// The rule a lock puts in force, as a paragraph: the lock's rule when the
/// player holds the lock's unlock in campaign `c` (counts it at least
/// once, which is what `State::has` tells), its other rule when not; an
/// empty rule gives nothing.
pub proof fn lemma_lock_rules(locks: Seq<crate::client::data::Lock>, st: State, c: Seq<char>)
    ensures
        locks_text(locks, st, c) == concat(Seq::new(locks.len(), |k: int| {
            let r = if st.unlock_count(c, locks[k].name@) > 0 { locks[k].rule@ } else { locks[k].neg_rule@ };
            if r.len() > 0 { "<p>"@ + r + "</p>"@ } else { Seq::<char>::empty() }
        })),
    decreases locks.len(),
{
    let f = |k: int| {
        let r = if st.unlock_count(c, locks[k].name@) > 0 { locks[k].rule@ } else { locks[k].neg_rule@ };
        if r.len() > 0 { "<p>"@ + r + "</p>"@ } else { Seq::<char>::empty() }
    };
    if locks.len() > 0 {
        let d = locks.drop_last();
        lemma_lock_rules(d, st, c);
        let g = |k: int| {
            let r = if st.unlock_count(c, d[k].name@) > 0 { d[k].rule@ } else { d[k].neg_rule@ };
            if r.len() > 0 { "<p>"@ + r + "</p>"@ } else { Seq::<char>::empty() }
        };
        assert(Seq::new(locks.len(), f).drop_last() =~= Seq::new(d.len(), g));
    } else {
        assert(Seq::new(locks.len(), f) =~= Seq::<Seq<char>>::empty());
    }
}

/// The rules shown for a scenario begin with the received experience of
/// the campaign and the scenario's standing rule, then give, lock by lock
/// in order, the rule of each held lock and the other rule of each lock
/// not held.
pub proof fn lemma_rules_show_locks(st: State, data: Tables, c: Seq<char>, s: Seq<char>)
    ensures
        ({
            let sc = data.scenarios@[data.scenario_index(s)];
            let head = "<p>Received XP: "@ + int_text(st.xp_of(c)) + "</p><p>"@ + sc.always@ + "</p>"@;
            let locks = concat(Seq::new(sc.locks@.len(), |k: int| {
                let r = if st.unlock_count(c, sc.locks@[k].name@) > 0 { sc.locks@[k].rule@ } else { sc.locks@[k].neg_rule@ };
                if r.len() > 0 { "<p>"@ + r + "</p>"@ } else { Seq::<char>::empty() }
            }));
            &&& rules_source(st, data, c, s).len() >= head.len() + locks.len()
            &&& rules_source(st, data, c, s).take((head.len() + locks.len()) as int) == head + locks
        }),
{
    let sc = data.scenarios@[data.scenario_index(s)];
    lemma_lock_rules(sc.locks@, st, c);
    let rest = titled_list("<h3>Received Cards</h3>"@, cards_items(data, st.card_pairs(c)))
        + titled_list("<h3>Received Filler</h3>"@, filler_items(st.filler_pairs(c)));
    assert("<p>Received XP: "@ + int_text(st.xp_of(c)) + "</p>"@ + "<p>"@ + sc.always@ + "</p>"@
        =~= "<p>Received XP: "@ + int_text(st.xp_of(c)) + "</p><p>"@ + sc.always@ + "</p>"@) by {
        reveal_strlit("</p>");
        reveal_strlit("<p>");
        reveal_strlit("</p><p>");
    }
    let head = "<p>Received XP: "@ + int_text(st.xp_of(c)) + "</p><p>"@ + sc.always@ + "</p>"@;
    let l = locks_text(sc.locks@, st, c);
    assert(rules_source(st, data, c, s) =~= (head + l) + rest);
    assert((head + l + rest).take((head.len() + l.len()) as int) =~= head + l);
}

/// A titled list, or nothing when the list is empty.
pub open spec fn titled_list(title: Seq<char>, items: Seq<char>) -> Seq<char> {
    if items.len() > 0 { title + "<ul>"@ + items + "</ul>"@ } else { Seq::empty() }
}

/// The rules text before line breaks and icons are rendered.
pub open spec fn rules_source(st: State, data: Tables, c: Seq<char>, s: Seq<char>) -> Seq<char> {
    let sc = data.scenarios@[data.scenario_index(s)];
    "<p>Received XP: "@ + int_text(st.xp_of(c)) + "</p>"@ + "<p>"@ + sc.always@ + "</p>"@
        + locks_text(sc.locks@, st, c)
        + titled_list("<h3>Received Cards</h3>"@, cards_items(data, st.card_pairs(c)))
        + titled_list("<h3>Received Filler</h3>"@, filler_items(st.filler_pairs(c)))
}

/// Line breaks and action icons rendered as HTML.
pub open spec fn render_rules(t: Seq<char>) -> Seq<char> {
    replace_all(
        replace_all(
            replace_all(t, "\n"@, "<br />"@),
            "<action>"@,
            "<span class=\"icon-action\" title=\"Action\"></span>"@,
        ),
        "<reaction>"@,
        "<span class=\"icon-reaction\" title=\"Reaction\"></span>"@,
    )
}

/// The selected campaign and scenario.
pub struct Interface {
    pub selected_campaign: String,
    pub selected_scenario: String,
}

impl Interface {
    /// Nothing selected.
    pub fn new() -> (res: Interface)
        ensures
            res.selected_campaign@ == Seq::<char>::empty(),
            res.selected_scenario@ == Seq::<char>::empty(),
    {
        Interface { selected_campaign: String::new(), selected_scenario: String::new() }
    }

    /// Selects a campaign; says whether the selection changed.
    pub fn select_campaign(&mut self, campaign: &str) -> (changed: bool)
        ensures
            final(self).selected_campaign@ == campaign@,
            final(self).selected_scenario == old(self).selected_scenario,
            changed == (old(self).selected_campaign@ != campaign@),
    {
        let changed = !crate::client::data::str_eq(self.selected_campaign.as_str(), campaign);
        self.selected_campaign = campaign.to_owned();
        changed
    }

    /// Selects a scenario; says whether the selection changed.
    pub fn select_scenario(&mut self, scenario: &str) -> (changed: bool)
        ensures
            final(self).selected_scenario@ == scenario@,
            final(self).selected_campaign == old(self).selected_campaign,
            changed == (old(self).selected_scenario@ != scenario@),
    {
        let changed = !crate::client::data::str_eq(self.selected_scenario.as_str(), scenario);
        self.selected_scenario = scenario.to_owned();
        changed
    }

    /// The list of campaigns with unlocked scenarios.
    pub fn campaigns_html(&self, st: &State) -> (res: String)
        requires
            st.wf(),
        ensures
            res@ == campaigns_text(st.campaign_list(), self.selected_campaign@),
    {
        let list = st.campaigns();
        let ghost l = st.campaign_list();
        let mut buf = String::new();
        let mut i: usize = 0;
        while i < list.len()
            invariant
                list@.map_values(|e: (String, bool)| (e.0@, e.1)) == l,
                i <= l.len(),
                buf@ == campaigns_text(l.take(i as int), self.selected_campaign@),
            decreases l.len() - i,
        {
            let c = &list[i].0;
            let goaled = list[i].1;
            assert(l[i as int] == (c@, goaled));
            push_str(&mut buf, "<li id=\"campaign-");
            push_str(&mut buf, c.as_str());
            push_str(&mut buf, "\" class=\"campaign");
            let ghost g = buf@;
            if goaled {
                push_str(&mut buf, " goaled");
            }
            assert(buf@ == g + (if goaled { " goaled"@ } else { Seq::<char>::empty() }));
            let ghost h = buf@;
            if crate::client::data::str_eq(c.as_str(), self.selected_campaign.as_str()) {
                push_str(&mut buf, " selected");
            }
            assert(buf@ == h + (if c@ == self.selected_campaign@ { " selected"@ } else { Seq::<char>::empty() }));
            push_str(&mut buf, "\">");
            push_str(&mut buf, c.as_str());
            push_str(&mut buf, "</li>");
            proof {
                assert(l.take(i + 1).drop_last() =~= l.take(i as int));
                assert(l.take(i + 1).last() == (c@, goaled));
            }
            i = i + 1;
        }
        assert(l.take(l.len() as int) =~= l);
        buf
    }

    /// The list of the unlocked scenarios of the selected campaign (which
    /// gets an empty state when it has none).
    pub fn scenarios_html(&self, st: &mut State) -> (res: String)
        requires
            old(st).wf(),
        ensures
            State::touched(*old(st), *final(st), self.selected_campaign@),
            res@ == scenarios_text(old(st).scenario_keys(self.selected_campaign@), self.selected_scenario@),
    {
        let list = st.scenarios(self.selected_campaign.as_str());
        let ghost l = list@.map_values(|e: String| e@);
        let mut buf = String::new();
        let mut i: usize = 0;
        while i < list.len()
            invariant
                l == list@.map_values(|e: String| e@),
                i <= l.len(),
                buf@ == scenarios_text(l.take(i as int), self.selected_scenario@),
            decreases l.len() - i,
        {
            let sc = &list[i];
            assert(l[i as int] == sc@);
            push_str(&mut buf, "<li id=\"scenario-");
            push_str(&mut buf, sc.as_str());
            push_str(&mut buf, "\" class=\"scenario");
            let ghost h = buf@;
            if crate::client::data::str_eq(sc.as_str(), self.selected_scenario.as_str()) {
                push_str(&mut buf, " selected");
            }
            assert(buf@ == h + (if sc@ == self.selected_scenario@ { " selected"@ } else { Seq::<char>::empty() }));
            push_str(&mut buf, "\">");
            push_str(&mut buf, sc.as_str());
            push_str(&mut buf, "</li>");
            proof {
                assert(l.take(i + 1).drop_last() =~= l.take(i as int));
                assert(l.take(i + 1).last() == sc@);
            }
            i = i + 1;
        }
        assert(l.take(l.len() as int) =~= l);
        buf
    }

    /// The checks of the selected scenario that can be sent.
    pub fn active_scenario_html(&self, st: &State, data: &Tables) -> (res: String)
        requires
            st.wf(),
            data.checks_well_formed(),
        ensures
            res@ == checklist_html(*data, active_checklist(*st, *data, self.selected_campaign@, self.selected_scenario@)),
    {
        active_scenario_html(st, data, self.selected_campaign.as_str(), self.selected_scenario.as_str())
    }

    /// The rules in force in the selected scenario, when it exists (the
    /// selected campaign gets an empty state when it has none).
    pub fn current_rules_html(&self, st: &mut State, data: &Tables) -> (res: Option<String>)
        requires
            old(st).wf(),
        ensures
            data.scenario_index(self.selected_scenario@) < 0 ==> res is None && *final(st) == *old(st),
            data.scenario_index(self.selected_scenario@) >= 0 ==> {
                &&& State::touched(*old(st), *final(st), self.selected_campaign@)
                &&& res matches Some(html)
                &&& html@ == render_rules(rules_source(*old(st), *data, self.selected_campaign@, self.selected_scenario@))
            },
    {
        let ghost c = self.selected_campaign@;
        let ghost s = self.selected_scenario@;
        let ghost st0 = *st;
        let sc = match data.get_scenario(self.selected_scenario.as_str()) {
            None => { return None; },
            Some(sc) => sc,
        };
        let mut buf = String::new();
        push_str(&mut buf, "<p>Received XP: ");
        push_i64(&mut buf, st.xp(self.selected_campaign.as_str()));
        push_str(&mut buf, "</p>");
        push_str(&mut buf, "<p>");
        push_str(&mut buf, sc.always.as_str());
        push_str(&mut buf, "</p>");
        let ghost b0 = buf@;
        let mut i: usize = 0;
        while i < sc.locks.len()
            invariant
                st.wf(),
                *st == st0,
                c == self.selected_campaign@,
                i <= sc.locks@.len(),
                buf@ == b0 + locks_text(sc.locks@.take(i as int), st0, c),
            decreases sc.locks@.len() - i,
        {
            let lock = &sc.locks[i];
            let ghost b1 = buf@;
            if st.has(self.selected_campaign.as_str(), lock.name.as_str()) {
                if !lock.rule.as_str().is_empty() {
                    push_str(&mut buf, "<p>");
                    push_str(&mut buf, lock.rule.as_str());
                    push_str(&mut buf, "</p>");
                }
            } else if !lock.neg_rule.as_str().is_empty() {
                push_str(&mut buf, "<p>");
                push_str(&mut buf, lock.neg_rule.as_str());
                push_str(&mut buf, "</p>");
            }
            proof {
                assert(sc.locks@.take(i + 1).drop_last() =~= sc.locks@.take(i as int));
                assert(sc.locks@.take(i + 1).last() == *lock);
            }
            i = i + 1;
        }
        assert(sc.locks@.take(sc.locks@.len() as int) =~= sc.locks@);
        let cards = st.cards(self.selected_campaign.as_str());
        let ghost cp = cards@.map_values(|e: (Code, i64)| (e.0@, e.1 as int));
        let mut items = String::new();
        let mut k: usize = 0;
        while k < cards.len()
            invariant
                cp == cards@.map_values(|e: (Code, i64)| (e.0@, e.1 as int)),
                k <= cp.len(),
                items@ == cards_items(*data, cp.take(k as int)),
            decreases cp.len() - k,
        {
            let (code, n) = cards[k];
            assert(cp[k as int] == (code, n as int));
            let ghost i0 = items@;
            if n > 0 {
                match data.get_card(code) {
                    Some(card) => { push_item(&mut items, card.name.as_str(), n); },
                    None => {},
                }
            }
            proof {
                assert(cp.take(k + 1).drop_last() =~= cp.take(k as int));
                assert(cp.take(k + 1).last() == (code, n as int));
                assert(items@ =~= i0 + (if n > 0 && data.card_index(code) >= 0 { item_li(data.cards@[data.card_index(code)].name@, n as int) } else { Seq::<char>::empty() }));
            }
            k = k + 1;
        }
        assert(cp.take(cp.len() as int) =~= cp);
        if !items.as_str().is_empty() {
            push_str(&mut buf, "<h3>Received Cards</h3>");
            push_str(&mut buf, "<ul>");
            push_str(&mut buf, items.as_str());
            push_str(&mut buf, "</ul>");
        }
        let filler = st.filler(self.selected_campaign.as_str());
        let ghost fp = filler@.map_values(|e: (String, i64)| (e.0@, e.1 as int));
        let mut fitems = String::new();
        let mut k: usize = 0;
        while k < filler.len()
            invariant
                fp == filler@.map_values(|e: (String, i64)| (e.0@, e.1 as int)),
                k <= fp.len(),
                fitems@ == filler_items(fp.take(k as int)),
            decreases fp.len() - k,
        {
            let n = filler[k].1;
            assert(fp[k as int] == (filler@[k as int].0@, n as int));
            let ghost i0 = fitems@;
            if n > 0 {
                push_item(&mut fitems, filler[k].0.as_str(), n);
            }
            proof {
                assert(fp.take(k + 1).drop_last() =~= fp.take(k as int));
                assert(fp.take(k + 1).last() == fp[k as int]);
            }
            k = k + 1;
        }
        assert(fp.take(fp.len() as int) =~= fp);
        if !fitems.as_str().is_empty() {
            push_str(&mut buf, "<h3>Received Filler</h3>");
            push_str(&mut buf, "<ul>");
            push_str(&mut buf, fitems.as_str());
            push_str(&mut buf, "</ul>");
        }
        assert(buf@ =~= rules_source(st0, *data, c, s));
        proof { reveal_strlit("\n"); reveal_strlit("<action>"); reveal_strlit("<reaction>"); }
        let r1 = replace(buf.as_str(), "\n", "<br />");
        let r2 = replace(r1.as_str(), "<action>", "<span class=\"icon-action\" title=\"Action\"></span>");
        let r3 = replace(r2.as_str(), "<reaction>", "<span class=\"icon-reaction\" title=\"Reaction\"></span>");
        Some(r3)
    }
}

fn push_item(buf: &mut String, name: &str, count: i64)
    ensures
        final(buf)@ == old(buf)@ + item_li(name@, count as int),
{
    push_str(buf, "<li>");
    push_str(buf, name);
    if count != 1 {
        push_str(buf, " x");
        push_i64(buf, count);
    }
    push_str(buf, "</li>");
}

/// Whether the goal can be claimed, and the text of the goal button.
pub open spec fn goal_text(completed: int, required: int) -> (bool, Seq<char>) {
    if completed >= required {
        (true, "Goal"@)
    } else {
        (false, int_text(completed) + "/"@ + int_text(required) + " Campaigns"@)
    }
}

/// Whether the goal can be claimed, and the text of the goal button.
pub fn goal_view(st: &State) -> (res: (bool, String))
    requires
        st.wf(),
    ensures
        (res.0, res.1@) == goal_text(st.completed_count() as int, st.slot().required_campaigns as int),
{
    let (completed, required) = st.goal_progress();
    let mut s = String::new();
    if completed >= required {
        push_str(&mut s, "Goal");
        (true, s)
    } else {
        crate::text::push_usize(&mut s, completed);
        push_str(&mut s, "/");
        crate::text::push_usize(&mut s, required);
        push_str(&mut s, " Campaigns");
        (false, s)
    }
}

} // verus!
