//! Item and location ids: each is built from what it stands for, and a
//! counter tells apart the ids whose parts coincide.

use vstd::prelude::*;
use std::collections::HashMap;
use crate::cardcode::Code;
use crate::generate::data::{Data, Campaign};

verus! {

/// An item a player can receive, with its campaign.
pub enum Item {
    Unlock((String, String)),
    ScenarioUnlock((String, String)),
    Xp((String, i64)),
    ScenarioCard((String, Code)),
    CampaignFiller((String, String)),
}

/// The value of an item.
pub enum ItemView {
    Unlock(Seq<char>, Seq<char>),
    ScenarioUnlock(Seq<char>, Seq<char>),
    Xp(Seq<char>, i64),
    ScenarioCard(Seq<char>, Code),
    CampaignFiller(Seq<char>, Seq<char>),
}

impl Item {
    pub open spec fn view(self) -> ItemView {
        match self {
            Item::Unlock((c, u)) => ItemView::Unlock(c@, u@),
            Item::ScenarioUnlock((c, s)) => ItemView::ScenarioUnlock(c@, s@),
            Item::Xp((c, x)) => ItemView::Xp(c@, x),
            Item::ScenarioCard((c, k)) => ItemView::ScenarioCard(c@, k),
            Item::CampaignFiller((c, f)) => ItemView::CampaignFiller(c@, f@),
        }
    }
}

/// Why ids could not be assigned.
pub enum IdError {
    /// Two items were given the same id.
    DuplicateItemId(i64),
    /// An id was asked for more often than a counter can count.
    CounterOverflow,
    /// A location card is not in the card list.
    MissingCard(Code),
}

/// How many times `k` occurs in `s`.
pub open spec fn occurrences(s: Seq<i64>, k: i64) -> nat
    decreases s.len(),
{
    if s.len() == 0 {
        0
    } else {
        occurrences(s.drop_last(), k) + if s.last() == k { 1nat } else { 0nat }
    }
}

/// The ids that a fresh counter gives, in turn, to the requests `ks`.
pub open spec fn counted_ids(ks: Seq<i64>, offset: i64) -> Seq<i64> {
    Seq::new(ks.len(), |j: int| counted(ks[j], occurrences(ks.take(j), ks[j]) as i64, offset))
}

/// Some request in `ks` comes after more than `i64::MAX` requests for the same id.
pub open spec fn overflows(ks: Seq<i64>) -> bool {
    exists|j: int| 0 <= j < ks.len() && occurrences(ks.take(j), ks[j]) > i64::MAX
}

/// The integer of a card code.
pub open spec fn code_int(k: Code) -> i64 {
    (k.number + k.letter * 65536) as i64
}

/// The counter key of an unlock: the campaign number, with 32 bits of the
/// name's hash above it (bits 8 to 40).
pub open spec fn unlock_key(c: Campaign, h: u64) -> i64 {
    c.i | (((h as i64) & 0xffff_ffff) << 8)
}

/// The counter key of a filler item: 24 bits of its name's hash, in bits
/// 16 to 40.
pub open spec fn filler_key(h: u64) -> i64 {
    ((h as i64) & 0xffffff) << 16
}

/// The id of `xp` experience points of a campaign.
pub open spec fn xp_id(c: Campaign, xp: i64) -> i64 {
    (2i64 << 48) | c.i | (xp << 8)
}

/// The id of a card that a campaign's scenarios hand out: the card's
/// whole code in bits 8 to 32.
pub open spec fn card_id(c: Campaign, k: Code) -> i64 {
    (3i64 << 48) | c.i | (code_int(k) << 8)
}

/// The id of the unlock of a campaign's scenario.
pub open spec fn scenario_id(c: Campaign, si: i64) -> i64 {
    (1i64 << 48) | c.i | (si << 8)
}

/// The hashes fit the data: one per unlock and one per filler item of
/// each campaign.
pub open spec fn hashes_fit(cs: Seq<Campaign>, uh: Seq<Vec<u64>>, fh: Seq<Vec<u64>>) -> bool {
    &&& uh.len() == cs.len()
    &&& fh.len() == cs.len()
    &&& forall|ci: int| 0 <= ci < cs.len() ==> (#[trigger] uh[ci])@.len() == cs[ci].unlocks@.len()
    &&& forall|ci: int| 0 <= ci < cs.len() ==> (#[trigger] fh[ci])@.len() == cs[ci].filler@.len()
}

/// The unlock counter keys of one campaign.
pub open spec fn campaign_unlock_keys(c: Campaign, h: Seq<u64>) -> Seq<i64> {
    Seq::new(c.unlocks@.len(), |u: int| unlock_key(c, h[u]))
}

/// The filler counter keys of one campaign.
pub open spec fn campaign_filler_keys(c: Campaign, h: Seq<u64>) -> Seq<i64> {
    Seq::new(c.filler@.len(), |f: int| filler_key(h[f]))
}

/// The unlock counter keys of the campaigns, in order.
pub open spec fn unlock_keys(cs: Seq<Campaign>, uh: Seq<Vec<u64>>) -> Seq<i64>
    decreases cs.len(),
{
    if cs.len() == 0 {
        Seq::empty()
    } else {
        unlock_keys(cs.drop_last(), uh) + campaign_unlock_keys(cs.last(), uh[cs.len() - 1]@)
    }
}

/// The filler counter keys of the campaigns, in order.
pub open spec fn filler_keys(cs: Seq<Campaign>, fh: Seq<Vec<u64>>) -> Seq<i64>
    decreases cs.len(),
{
    if cs.len() == 0 {
        Seq::empty()
    } else {
        filler_keys(cs.drop_last(), fh) + campaign_filler_keys(cs.last(), fh[cs.len() - 1]@)
    }
}

/// The unlock keys a counter has seen when it reaches the campaign at `ci`,
/// followed by that campaign's.
pub open spec fn unlock_keys_at(cs: Seq<Campaign>, uh: Seq<Vec<u64>>, ci: int) -> Seq<i64> {
    unlock_keys(cs.take(ci), uh) + campaign_unlock_keys(cs[ci], uh[ci]@)
}

/// The filler keys a counter has seen when it reaches the campaign at `ci`,
/// followed by that campaign's.
pub open spec fn filler_keys_at(cs: Seq<Campaign>, fh: Seq<Vec<u64>>, ci: int) -> Seq<i64> {
    filler_keys(cs.take(ci), fh) + campaign_filler_keys(cs[ci], fh[ci]@)
}

/// The unlocks of a campaign with their ids, when the counter has seen
/// the keys `prev` before them.
pub open spec fn unlock_part(c: Campaign, h: Seq<u64>, prev: Seq<i64>) -> Seq<(i64, ItemView)> {
    let ks = prev + campaign_unlock_keys(c, h);
    Seq::new(c.unlocks@.len(), |u: int| (counted_ids(ks, 40)[prev.len() + u], ItemView::Unlock(c.name@, c.unlocks@[u]@)))
}

/// The filler items of a campaign with their ids, when the counter has
/// seen the keys `prev` before them.
pub open spec fn filler_part(c: Campaign, h: Seq<u64>, prev: Seq<i64>) -> Seq<(i64, ItemView)> {
    let ks = prev + campaign_filler_keys(c, h);
    Seq::new(c.filler@.len(), |f: int| (counted_ids(ks, 40)[prev.len() + f] | (4i64 << 48) | c.i, ItemView::CampaignFiller(c.name@, c.filler@[f].name@)))
}

/// The unlocks of the campaign at `ci`, with their ids.
pub open spec fn unlock_items(cs: Seq<Campaign>, uh: Seq<Vec<u64>>, ci: int) -> Seq<(i64, ItemView)> {
    unlock_part(cs[ci], uh[ci]@, unlock_keys(cs.take(ci), uh))
}

/// Ten amounts of experience of a campaign, with their ids.
pub open spec fn xp_items(c: Campaign) -> Seq<(i64, ItemView)> {
    Seq::new(10, |x: int| (xp_id(c, (x + 1) as i64), ItemView::Xp(c.name@, (x + 1) as i64)))
}

/// The scenario cards of a campaign, with their ids.
pub open spec fn card_items(c: Campaign) -> Seq<(i64, ItemView)> {
    Seq::new(c.scenario_cards@.len(), |k: int| (card_id(c, c.scenario_cards@[k]), ItemView::ScenarioCard(c.name@, c.scenario_cards@[k])))
}

/// The filler items of the campaign at `ci`, with their ids.
pub open spec fn filler_items(cs: Seq<Campaign>, fh: Seq<Vec<u64>>, ci: int) -> Seq<(i64, ItemView)> {
    filler_part(cs[ci], fh[ci]@, filler_keys(cs.take(ci), fh))
}

/// The scenario unlocks of a campaign, with their ids.
pub open spec fn scenario_items(c: Campaign) -> Seq<(i64, ItemView)> {
    Seq::new(c.scenarios@.len(), |s: int| (scenario_id(c, c.scenarios@[s].i), ItemView::ScenarioUnlock(c.name@, c.scenarios@[s].name@)))
}

/// The items of the campaign at `ci`, with their ids: its unlocks, ten
/// amounts of experience, its scenario cards, its filler items and its
/// scenarios.  The unlock and filler counters have already seen the
/// campaigns before it.
pub open spec fn campaign_items(cs: Seq<Campaign>, uh: Seq<Vec<u64>>, fh: Seq<Vec<u64>>, ci: int) -> Seq<(i64, ItemView)> {
    unlock_items(cs, uh, ci) + xp_items(cs[ci]) + card_items(cs[ci]) + filler_items(cs, fh, ci) + scenario_items(cs[ci])
}

/// The items of the first `n` campaigns, with their ids, in order.
pub open spec fn items_upto(cs: Seq<Campaign>, uh: Seq<Vec<u64>>, fh: Seq<Vec<u64>>, n: int) -> Seq<(i64, ItemView)>
    decreases n,
{
    if n <= 0 {
        Seq::empty()
    } else {
        items_upto(cs, uh, fh, n - 1) + campaign_items(cs, uh, fh, n - 1)
    }
}

/// The items of all campaigns, with their ids.
pub open spec fn all_items(cs: Seq<Campaign>, uh: Seq<Vec<u64>>, fh: Seq<Vec<u64>>) -> Seq<(i64, ItemView)> {
    items_upto(cs, uh, fh, cs.len() as int)
}

/// A counter cannot count some repeat of an unlock or filler key.
pub open spec fn id_overflow(cs: Seq<Campaign>, uh: Seq<Vec<u64>>, fh: Seq<Vec<u64>>) -> bool {
    overflows(unlock_keys(cs, uh)) || overflows(filler_keys(cs, fh))
}

/// No two items share an id.
pub open spec fn distinct_ids(items: Seq<(i64, ItemView)>) -> bool {
    forall|i: int, j: int| 0 <= i < items.len() && 0 <= j < items.len() && i != j ==> (#[trigger] items[i]).0 != (#[trigger] items[j]).0
}

/// The id that the `n`-th request (from 0) for `id` is answered with: `id`
/// itself the first time, then `id` with `n` shifted up by `offset`.
pub open spec fn counted(id: i64, n: i64, offset: i64) -> i64 {
    if n == 0 { id } else { id | (n << offset) }
}

/// Counts how often each id has been asked for.
pub struct Counter {
    inner: HashMap<i64, i64>,
    offset: i64,
}

impl Counter {
    /// How many times beyond the first each id has been asked for.
    pub closed spec fn counts(&self) -> Map<i64, i64> {
        self.inner@
    }

    /// How far up a repeat count is shifted.
    pub closed spec fn offset(&self) -> i64 {
        self.offset
    }

    pub closed spec fn wf(&self) -> bool {
        &&& 0 <= self.offset < 64
        &&& forall|k: i64| #[trigger] self.inner@.contains_key(k) ==> self.inner@[k] >= 0
    }

    /// A counter that has seen nothing.
    pub fn new(offset: i64) -> (res: Counter)
        requires
            0 <= offset < 64,
        ensures
            res.wf(),
            res.offset() == offset,
            res.counts() == Map::<i64, i64>::empty(),
    {
        Counter { inner: HashMap::new(), offset }
    }

    /// Answers a request for `id`: `id` itself the first time, and `id` with
    /// the number of earlier requests shifted up by the offset after that.
    pub fn get(&mut self, id: i64) -> (res: i64)
        requires
            old(self).wf(),
            old(self).counts().contains_key(id) ==> old(self).counts()[id] < i64::MAX,
        ensures
            final(self).wf(),
            final(self).offset() == old(self).offset(),
            final(self).counts() == old(self).counts().insert(id,
                if old(self).counts().contains_key(id) { (old(self).counts()[id] + 1) as i64 } else { 0 }),
            res == counted(id, final(self).counts()[id], old(self).offset()),
    {
        broadcast use vstd::std_specs::hash::group_hash_axioms;
        let seen: Option<i64> = match self.inner.get(&id) {
            Some(n) => Some(*n),
            None => None,
        };
        match seen {
            Some(n) => {
                let m: i64 = n + 1;
                self.inner.insert(id, m);
                id | (m << self.offset)
            },
            None => {
                self.inner.insert(id, 0);
                id
            },
        }
    }
}

/// The counter has seen exactly the requests `ks`.
pub open spec fn counter_models(c: Counter, ks: Seq<i64>) -> bool {
    &&& c.wf()
    &&& forall|k: i64| #[trigger] c.counts().contains_key(k) <==> occurrences(ks, k) > 0
    &&& forall|k: i64| #[trigger] c.counts().contains_key(k) ==> c.counts()[k] == occurrences(ks, k) - 1
}

/// One more request adds one occurrence of its id and none of any other.
pub proof fn lemma_occurrences_push(ks: Seq<i64>, k: i64, x: i64)
    ensures
        occurrences(ks.push(k), x) == occurrences(ks, x) + if x == k { 1nat } else { 0nat },
{
    assert(ks.push(k).drop_last() =~= ks);
}

/// A request never occurs more often than there are requests.
pub proof fn lemma_occurrences_bound(ks: Seq<i64>, x: i64)
    ensures
        occurrences(ks, x) <= ks.len(),
    decreases ks.len(),
{
    if ks.len() > 0 {
        lemma_occurrences_bound(ks.drop_last(), x);
    }
}

impl Counter {
    /// Whether `id` has been asked for as often as the counter can count.
    pub fn saturated(&self, id: i64) -> (res: bool)
        requires
            self.wf(),
        ensures
            res == (self.counts().contains_key(id) && self.counts()[id] == i64::MAX),
    {
        broadcast use vstd::std_specs::hash::group_hash_axioms;
        match self.inner.get(&id) {
            Some(n) => *n == i64::MAX,
            None => false,
        }
    }
}

/// Asks the counter for `k` after the requests `ks`; `None` when it cannot
/// count that far.
pub(crate) fn request(counter: &mut Counter, k: i64, Ghost(ks): Ghost<Seq<i64>>) -> (res: Option<i64>)
    requires
        counter_models(*old(counter), ks),
    ensures
        old(counter).offset() == final(counter).offset(),
        match res {
            Some(id) => counter_models(*final(counter), ks.push(k)) && occurrences(ks, k) <= i64::MAX
                && id == counted(k, occurrences(ks, k) as i64, old(counter).offset()),
            None => occurrences(ks, k) > i64::MAX && *final(counter) == *old(counter),
        },
{
    if counter.saturated(k) {
        return None;
    }
    let id = counter.get(k);
    proof {
        assert forall|x: i64| #[trigger] counter.counts().contains_key(x) <==> occurrences(ks.push(k), x) > 0 by {
            lemma_occurrences_push(ks, k, x);
        }
        assert forall|x: i64| #[trigger] counter.counts().contains_key(x) implies counter.counts()[x] == occurrences(ks.push(k), x) - 1 by {
            lemma_occurrences_push(ks, k, x);
        }
    }
    Some(id)
}

/// The ids and values of items.
pub open spec fn item_views(v: Seq<(i64, Item)>) -> Seq<(i64, ItemView)> {
    v.map_values(|p: (i64, Item)| (p.0, p.1@))
}

/// Appends an item unless its id is taken; says whether it did.
fn push_item(items: &mut Vec<(i64, Item)>, id: i64, item: Item) -> (ok: bool)
    requires
        distinct_ids(item_views(old(items)@)),
    ensures
        ok ==> item_views(final(items)@) == item_views(old(items)@).push((id, item@)) && distinct_ids(item_views(final(items)@)),
        !ok ==> final(items)@ == old(items)@ && exists|i: int| 0 <= i < old(items)@.len() && (#[trigger] old(items)@[i]).0 == id,
{
    let mut i: usize = 0;
    while i < items.len()
        invariant
            i <= items@.len(),
            forall|j: int| 0 <= j < i ==> (#[trigger] items@[j]).0 != id,
        decreases items@.len() - i,
    {
        if items[i].0 == id {
            return false;
        }
        i = i + 1;
    }
    let ghost before = item_views(items@);
    items.push((id, item));
    proof {
        let now = item_views(items@);
        assert(now =~= before.push((id, item@)));
        assert forall|a: int, b: int| 0 <= a < now.len() && 0 <= b < now.len() && a != b implies (#[trigger] now[a]).0 != (#[trigger] now[b]).0 by {
            if a < before.len() && b < before.len() {
                assert(now[a] == before[a] && now[b] == before[b]);
            } else if a < before.len() {
                assert(now[a].0 == items@[a].0);
            } else {
                assert(now[b].0 == items@[b].0);
            }
        }
    }
    true
}

proof fn lemma_keys_step(cs: Seq<Campaign>, uh: Seq<Vec<u64>>, fh: Seq<Vec<u64>>, a: int)
    requires
        0 <= a < cs.len(),
    ensures
        unlock_keys(cs.take(a + 1), uh) == unlock_keys_at(cs, uh, a),
        filler_keys(cs.take(a + 1), fh) == filler_keys_at(cs, fh, a),
{
    assert(cs.take(a + 1).drop_last() =~= cs.take(a));
    assert(cs.take(a + 1).last() == cs[a]);
}

proof fn lemma_keys_prefix(cs: Seq<Campaign>, uh: Seq<Vec<u64>>, fh: Seq<Vec<u64>>, a: int, b: int)
    requires
        0 <= a <= b <= cs.len(),
    ensures
        unlock_keys(cs.take(b), uh).len() >= unlock_keys(cs.take(a), uh).len(),
        unlock_keys(cs.take(b), uh).take(unlock_keys(cs.take(a), uh).len() as int) == unlock_keys(cs.take(a), uh),
        filler_keys(cs.take(b), fh).len() >= filler_keys(cs.take(a), fh).len(),
        filler_keys(cs.take(b), fh).take(filler_keys(cs.take(a), fh).len() as int) == filler_keys(cs.take(a), fh),
    decreases b - a,
{
    if a < b {
        lemma_keys_prefix(cs, uh, fh, a, b - 1);
        lemma_keys_step(cs, uh, fh, b - 1);
        let ua = unlock_keys(cs.take(a), uh);
        let ub = unlock_keys(cs.take(b - 1), uh);
        assert((ub + campaign_unlock_keys(cs[b - 1], uh[b - 1]@)).take(ua.len() as int) =~= ub.take(ua.len() as int));
        let fa = filler_keys(cs.take(a), fh);
        let fb = filler_keys(cs.take(b - 1), fh);
        assert((fb + campaign_filler_keys(cs[b - 1], fh[b - 1]@)).take(fa.len() as int) =~= fb.take(fa.len() as int));
    }
}

/// A prefix that overflows makes the whole overflow.
proof fn lemma_overflows_prefix(p: Seq<i64>, s: Seq<i64>)
    requires
        p.len() <= s.len(),
        s.take(p.len() as int) == p,
        overflows(p),
    ensures
        overflows(s),
{
    let j = choose|j: int| 0 <= j < p.len() && occurrences(p.take(j), p[j]) > i64::MAX;
    assert(s.take(j) =~= p.take(j));
    assert(s[j] == s.take(p.len() as int)[j]);
}

/// A prefix with a repeated id makes the whole have one.
proof fn lemma_dup_prefix(p: Seq<(i64, ItemView)>, s: Seq<(i64, ItemView)>)
    requires
        p.len() <= s.len(),
        s.take(p.len() as int) == p,
        !distinct_ids(p),
    ensures
        !distinct_ids(s),
{
    let (i, j) = choose|i: int, j: int| 0 <= i < p.len() && 0 <= j < p.len() && i != j && (#[trigger] p[i]).0 == (#[trigger] p[j]).0;
    assert(s[i] == s.take(p.len() as int)[i]);
    assert(s[j] == s.take(p.len() as int)[j]);
}

proof fn lemma_items_prefix(cs: Seq<Campaign>, uh: Seq<Vec<u64>>, fh: Seq<Vec<u64>>, a: int, b: int)
    requires
        0 <= a <= b,
    ensures
        items_upto(cs, uh, fh, b).len() >= items_upto(cs, uh, fh, a).len(),
        items_upto(cs, uh, fh, b).take(items_upto(cs, uh, fh, a).len() as int) == items_upto(cs, uh, fh, a),
    decreases b - a,
{
    if a < b {
        lemma_items_prefix(cs, uh, fh, a, b - 1);
        let pa = items_upto(cs, uh, fh, a);
        let pb = items_upto(cs, uh, fh, b - 1);
        assert((pb + campaign_items(cs, uh, fh, b - 1)).take(pa.len() as int) =~= pb.take(pa.len() as int));
    }
}

/// Appends items in order, failing on the first whose id is taken.
fn add_items(items: &mut Vec<(i64, Item)>, part: Vec<(i64, Item)>) -> (res: Result<(), i64>)
    requires
        distinct_ids(item_views(old(items)@)),
    ensures
        match res {
            Ok(()) => item_views(final(items)@) == item_views(old(items)@) + item_views(part@)
                && distinct_ids(item_views(final(items)@)),
            Err(d) => !distinct_ids(item_views(old(items)@) + item_views(part@))
                && exists|i: int| 0 <= i < (item_views(old(items)@) + item_views(part@)).len()
                    && (#[trigger] (item_views(old(items)@) + item_views(part@))[i]).0 == d,
        },
{
    let ghost base = item_views(items@);
    let ghost pv = item_views(part@);
    let mut pending = part;
    let ghost whole = pending@;
    let mut rest: Vec<(i64, Item)> = Vec::new();
    let mut k: usize = 0;
    let n = pending.len();
    // Move the items out in order.
    while pending.len() > 0
        invariant
            pending@.len() + rest@.len() == whole.len(),
            forall|j: int| 0 <= j < pending@.len() ==> #[trigger] pending@[j] == whole[j],
            forall|j: int| 0 <= j < rest@.len() ==> #[trigger] rest@[j] == whole[whole.len() - 1 - j],
        decreases pending@.len(),
    {
        let e = pending.pop().unwrap();
        rest.push(e);
    }
    while k < n
        invariant
            n == whole.len(),
            k <= n,
            rest@.len() == n - k,
            forall|j: int| 0 <= j < rest@.len() ==> #[trigger] rest@[j] == whole[whole.len() - 1 - j],
            item_views(items@) == base + pv.take(k as int),
            distinct_ids(item_views(items@)),
            pv == item_views(whole),
            whole == part@,
            base == item_views(old(items)@),
        decreases n - k,
    {
        let e = rest.pop().unwrap();
        let (id, item) = e;
        proof {
            assert(whole[k as int] == (id, item));
            assert(pv.take(k + 1) =~= pv.take(k as int).push((id, item@)));
        }
        if !push_item(items, id, item) {
            proof {
                let now = item_views(items@);
                let i = choose|i: int| 0 <= i < items@.len() && (#[trigger] items@[i]).0 == id;
                let all = base + pv;
                assert(pv.len() == n);
                assert(now.len() == items@.len());
                assert(now.len() == base.len() + k);
                assert(now[i].0 == id);
                if i < base.len() {
                    assert(all[i] == base[i]);
                } else {
                    assert(all[i] == pv[i - base.len()]);
                    assert(now[i] == pv.take(k as int)[i - base.len()]);
                }
                assert(all[i] == now[i]);
                assert(all[base.len() + k] == pv[k as int]);
                assert(pv[k as int] == (whole[k as int].0, whole[k as int].1@));
                assert(pv[k as int].0 == id);
                assert(i != base.len() + k);
                assert(!distinct_ids(all));
            }
            return Err(id);
        }
        k = k + 1;
    }
    proof {
        assert(pv.take(n as int) =~= pv);
    }
    Ok(())
}

#[verifier::rlimit(40)]
fn build_unlock_part(counter: &mut Counter, c: &Campaign, hashes: &Vec<u64>, Ghost(prev): Ghost<Seq<i64>>) -> (res: Option<Vec<(i64, Item)>>)
    requires
        counter_models(*old(counter), prev),
        old(counter).offset() == 40,
        hashes@.len() == c.unlocks@.len(),
    ensures
        final(counter).offset() == 40,
        match res {
            Some(v) => item_views(v@) == unlock_part(*c, hashes@, prev)
                && counter_models(*final(counter), prev + campaign_unlock_keys(*c, hashes@))
                && (!overflows(prev) ==> !overflows(prev + campaign_unlock_keys(*c, hashes@))),
            None => overflows(prev + campaign_unlock_keys(*c, hashes@)),
        },
{
    let ghost ks = prev + campaign_unlock_keys(*c, hashes@);
    let ghost spec_part = unlock_part(*c, hashes@, prev);
    let mut v: Vec<(i64, Item)> = Vec::new();
    let mut u: usize = 0;
    proof {
        assert(ks.take(prev.len() as int) =~= prev);
        assert(item_views(v@) =~= spec_part.take(0));
    }
    while u < c.unlocks.len()
        invariant
            ks == prev + campaign_unlock_keys(*c, hashes@),
            spec_part == unlock_part(*c, hashes@, prev),
            hashes@.len() == c.unlocks@.len(),
            u <= c.unlocks@.len(),
            counter_models(*counter, ks.take(prev.len() + u)),
            counter.offset() == 40,
            item_views(v@) == spec_part.take(u as int),
            forall|j: int| prev.len() <= j < prev.len() + u ==> occurrences(ks.take(j), #[trigger] ks[j]) <= i64::MAX,
        decreases c.unlocks@.len() - u,
    {
        let h: u64 = hashes[u];
        let key: i64 = c.i | (((h as i64) & 0xffff_ffff) << 8);
        let ghost j = prev.len() + u;
        proof {
            assert(ks[j] == key);
            assert(ks.take(j + 1) =~= ks.take(j).push(key));
        }
        let id = match request(counter, key, Ghost(ks.take(j))) {
            Some(id) => id,
            None => {
                proof {
                    assert(ks.take(j).take(j) =~= ks.take(j));
                    assert(occurrences(ks.take(j), ks[j]) > i64::MAX);
                }
                return None;
            },
        };
        let item = Item::Unlock((c.name.clone(), c.unlocks[u].clone()));
        proof {
            assert(spec_part[u as int] == (id, item@));
            assert(spec_part.take(u + 1) =~= spec_part.take(u as int).push((id, item@)));
        }
        let ghost before = v@;
        v.push((id, item));
        proof {
            assert(item_views(v@) =~= item_views(before).push((id, item@)));
        }
        u = u + 1;
    }
    proof {
        assert(spec_part.take(u as int) =~= spec_part);
        assert(ks.take(prev.len() + u) =~= ks);
        lemma_no_overflow_extends(prev, ks);
    }
    Some(v)
}

/// A sequence that extends a sequence without overflow overflows only at
/// one of its new requests.
proof fn lemma_no_overflow_extends(prev: Seq<i64>, ks: Seq<i64>)
    requires
        prev.len() <= ks.len(),
        ks.take(prev.len() as int) == prev,
        forall|j: int| prev.len() <= j < ks.len() ==> occurrences(ks.take(j), #[trigger] ks[j]) <= i64::MAX,
    ensures
        !overflows(prev) ==> !overflows(ks),
{
    if !overflows(prev) && overflows(ks) {
        let j = choose|j: int| 0 <= j < ks.len() && occurrences(ks.take(j), ks[j]) > i64::MAX;
        if j < prev.len() {
            assert(ks.take(j) =~= prev.take(j));
            assert(ks[j] == prev[j]);
        }
    }
}

fn filler_key_exec(h: u64) -> (key: i64)
    ensures
        key == filler_key(h),
{
    ((h as i64) & 0xffffff) << 16
}

#[verifier::rlimit(40)]
fn build_filler_part(counter: &mut Counter, c: &Campaign, hashes: &Vec<u64>, Ghost(prev): Ghost<Seq<i64>>) -> (res: Option<Vec<(i64, Item)>>)
    requires
        counter_models(*old(counter), prev),
        old(counter).offset() == 40,
        hashes@.len() == c.filler@.len(),
    ensures
        final(counter).offset() == 40,
        match res {
            Some(v) => item_views(v@) == filler_part(*c, hashes@, prev)
                && counter_models(*final(counter), prev + campaign_filler_keys(*c, hashes@))
                && (!overflows(prev) ==> !overflows(prev + campaign_filler_keys(*c, hashes@))),
            None => overflows(prev + campaign_filler_keys(*c, hashes@)),
        },
{
    let ghost ks = prev + campaign_filler_keys(*c, hashes@);
    let ghost spec_part = filler_part(*c, hashes@, prev);
    let mut v: Vec<(i64, Item)> = Vec::new();
    let mut f: usize = 0;
    proof {
        assert(ks.take(prev.len() as int) =~= prev);
        assert(item_views(v@) =~= spec_part.take(0));
    }
    while f < c.filler.len()
        invariant
            ks == prev + campaign_filler_keys(*c, hashes@),
            spec_part == filler_part(*c, hashes@, prev),
            hashes@.len() == c.filler@.len(),
            f <= c.filler@.len(),
            counter_models(*counter, ks.take(prev.len() + f)),
            counter.offset() == 40,
            item_views(v@) == spec_part.take(f as int),
            forall|j: int| prev.len() <= j < prev.len() + f ==> occurrences(ks.take(j), #[trigger] ks[j]) <= i64::MAX,
        decreases c.filler@.len() - f,
    {
        let h: u64 = hashes[f];
        let key: i64 = filler_key_exec(h);
        let ghost j = prev.len() + f;
        proof {
            assert(ks[j] == key);
            assert(ks.take(j + 1) =~= ks.take(j).push(key));
        }
        let got = match request(counter, key, Ghost(ks.take(j))) {
            Some(got) => got,
            None => {
                proof {
                    assert(ks.take(j).take(j) =~= ks.take(j));
                    assert(occurrences(ks.take(j), ks[j]) > i64::MAX);
                }
                return None;
            },
        };
        let id: i64 = got | (4i64 << 48) | c.i;
        let item = Item::CampaignFiller((c.name.clone(), c.filler[f].name.clone()));
        proof {
            assert(spec_part[f as int] == (id, item@));
            assert(spec_part.take(f + 1) =~= spec_part.take(f as int).push((id, item@)));
        }
        let ghost before = v@;
        v.push((id, item));
        proof {
            assert(item_views(v@) =~= item_views(before).push((id, item@)));
        }
        f = f + 1;
    }
    proof {
        assert(spec_part.take(f as int) =~= spec_part);
        assert(ks.take(prev.len() + f) =~= ks);
        lemma_no_overflow_extends(prev, ks);
    }
    Some(v)
}

fn build_xp_part(c: &Campaign) -> (res: Vec<(i64, Item)>)
    ensures
        item_views(res@) == xp_items(*c),
{
    let mut v: Vec<(i64, Item)> = Vec::new();
    let mut xp: i64 = 1;
    while xp <= 10
        invariant
            1 <= xp <= 11,
            item_views(v@) == xp_items(*c).take(xp - 1),
        decreases 11 - xp,
    {
        let id: i64 = (2i64 << 48) | c.i | (xp << 8);
        let item = Item::Xp((c.name.clone(), xp));
        proof {
            assert(xp_items(*c)[xp - 1] == (id, item@));
            assert(xp_items(*c).take(xp as int) =~= xp_items(*c).take(xp - 1).push((id, item@)));
        }
        let ghost before = v@;
        v.push((id, item));
        proof {
            assert(item_views(v@) =~= item_views(before).push((id, item@)));
        }
        xp = xp + 1;
    }
    proof {
        assert(xp_items(*c).take(10) =~= xp_items(*c));
    }
    v
}

fn build_card_part(c: &Campaign) -> (res: Vec<(i64, Item)>)
    ensures
        item_views(res@) == card_items(*c),
{
    let mut v: Vec<(i64, Item)> = Vec::new();
    let mut k: usize = 0;
    while k < c.scenario_cards.len()
        invariant
            k <= c.scenario_cards@.len(),
            item_views(v@) == card_items(*c).take(k as int),
        decreases c.scenario_cards@.len() - k,
    {
        let code = c.scenario_cards[k];
        let id: i64 = (3i64 << 48) | c.i | (code.i64() << 8);
        let item = Item::ScenarioCard((c.name.clone(), code));
        proof {
            assert(card_items(*c)[k as int] == (id, item@));
            assert(card_items(*c).take(k + 1) =~= card_items(*c).take(k as int).push((id, item@)));
        }
        let ghost before = v@;
        v.push((id, item));
        proof {
            assert(item_views(v@) =~= item_views(before).push((id, item@)));
        }
        k = k + 1;
    }
    proof {
        assert(card_items(*c).take(k as int) =~= card_items(*c));
    }
    v
}

fn build_scenario_part(c: &Campaign) -> (res: Vec<(i64, Item)>)
    ensures
        item_views(res@) == scenario_items(*c),
{
    let mut v: Vec<(i64, Item)> = Vec::new();
    let mut k: usize = 0;
    while k < c.scenarios.len()
        invariant
            k <= c.scenarios@.len(),
            item_views(v@) == scenario_items(*c).take(k as int),
        decreases c.scenarios@.len() - k,
    {
        let sc = &c.scenarios[k];
        let id: i64 = (1i64 << 48) | c.i | (sc.i << 8);
        let item = Item::ScenarioUnlock((c.name.clone(), sc.name.clone()));
        proof {
            assert(scenario_items(*c)[k as int] == (id, item@));
            assert(scenario_items(*c).take(k + 1) =~= scenario_items(*c).take(k as int).push((id, item@)));
        }
        let ghost before = v@;
        v.push((id, item));
        proof {
            assert(item_views(v@) =~= item_views(before).push((id, item@)));
        }
        k = k + 1;
    }
    proof {
        assert(scenario_items(*c).take(k as int) =~= scenario_items(*c));
    }
    v
}

/// A repeated id among the items up to a prefix `q` of the items of the
/// campaign at `ci` is a repeated id among all items.
proof fn lemma_dup_in_all(cs: Seq<Campaign>, uh: Seq<Vec<u64>>, fh: Seq<Vec<u64>>, ci: int, q: Seq<(i64, ItemView)>, d: i64)
    requires
        0 <= ci < cs.len(),
        q.len() <= campaign_items(cs, uh, fh, ci).len(),
        campaign_items(cs, uh, fh, ci).take(q.len() as int) == q,
        !distinct_ids(items_upto(cs, uh, fh, ci) + q),
        exists|i: int| 0 <= i < (items_upto(cs, uh, fh, ci) + q).len() && (#[trigger] (items_upto(cs, uh, fh, ci) + q)[i]).0 == d,
    ensures
        !distinct_ids(all_items(cs, uh, fh)),
        exists|i: int| 0 <= i < all_items(cs, uh, fh).len() && (#[trigger] all_items(cs, uh, fh)[i]).0 == d,
{
    let p = items_upto(cs, uh, fh, ci) + q;
    let all = all_items(cs, uh, fh);
    let next = items_upto(cs, uh, fh, ci + 1);
    assert(next == items_upto(cs, uh, fh, ci) + campaign_items(cs, uh, fh, ci));
    assert(next.take(p.len() as int) =~= p);
    lemma_items_prefix(cs, uh, fh, ci + 1, cs.len() as int);
    assert(all.take(p.len() as int) =~= next.take(next.len() as int).take(p.len() as int));
    assert(next.take(next.len() as int) =~= next);
    lemma_dup_prefix(p, all);
    let i = choose|i: int| 0 <= i < p.len() && (#[trigger] p[i]).0 == d;
    assert(all[i] == all.take(p.len() as int)[i]);
}

/// An overflow among the keys up to the campaign at `ci` is an overflow of
/// all keys.
proof fn lemma_overflow_in_all(cs: Seq<Campaign>, uh: Seq<Vec<u64>>, fh: Seq<Vec<u64>>, ci: int)
    requires
        0 <= ci < cs.len(),
        overflows(unlock_keys_at(cs, uh, ci)) || overflows(filler_keys_at(cs, fh, ci)),
    ensures
        id_overflow(cs, uh, fh),
{
    lemma_keys_step(cs, uh, fh, ci);
    lemma_keys_prefix(cs, uh, fh, ci + 1, cs.len() as int);
    assert(cs.take(cs.len() as int) =~= cs);
    if overflows(unlock_keys_at(cs, uh, ci)) {
        lemma_overflows_prefix(unlock_keys_at(cs, uh, ci), unlock_keys(cs, uh));
    } else {
        lemma_overflows_prefix(filler_keys_at(cs, fh, ci), filler_keys(cs, fh));
    }
}

/// Adds the items of the campaign at `ci`.
#[verifier::rlimit(60)]
fn campaign_step(
    items: &mut Vec<(i64, Item)>,
    unlock_counts: &mut Counter,
    filler_counts: &mut Counter,
    data: &Data,
    unlock_hashes: &Vec<Vec<u64>>,
    filler_hashes: &Vec<Vec<u64>>,
    ci: usize,
) -> (res: Result<(), IdError>)
    requires
        hashes_fit(data.campaigns@, unlock_hashes@, filler_hashes@),
        ci < data.campaigns@.len(),
        item_views(old(items)@) == items_upto(data.campaigns@, unlock_hashes@, filler_hashes@, ci as int),
        distinct_ids(item_views(old(items)@)),
        counter_models(*old(unlock_counts), unlock_keys(data.campaigns@.take(ci as int), unlock_hashes@)),
        counter_models(*old(filler_counts), filler_keys(data.campaigns@.take(ci as int), filler_hashes@)),
        old(unlock_counts).offset() == 40,
        old(filler_counts).offset() == 40,
        !overflows(unlock_keys(data.campaigns@.take(ci as int), unlock_hashes@)),
        !overflows(filler_keys(data.campaigns@.take(ci as int), filler_hashes@)),
    ensures
        final(unlock_counts).offset() == 40,
        final(filler_counts).offset() == 40,
        match res {
            Ok(()) => item_views(final(items)@) == items_upto(data.campaigns@, unlock_hashes@, filler_hashes@, ci + 1)
                && distinct_ids(item_views(final(items)@))
                && counter_models(*final(unlock_counts), unlock_keys(data.campaigns@.take(ci + 1), unlock_hashes@))
                && counter_models(*final(filler_counts), filler_keys(data.campaigns@.take(ci + 1), filler_hashes@))
                && !overflows(unlock_keys(data.campaigns@.take(ci + 1), unlock_hashes@))
                && !overflows(filler_keys(data.campaigns@.take(ci + 1), filler_hashes@)),
            Err(IdError::DuplicateItemId(d)) => !distinct_ids(all_items(data.campaigns@, unlock_hashes@, filler_hashes@))
                && exists|i: int| 0 <= i < all_items(data.campaigns@, unlock_hashes@, filler_hashes@).len()
                    && (#[trigger] all_items(data.campaigns@, unlock_hashes@, filler_hashes@)[i]).0 == d,
            Err(IdError::CounterOverflow) => id_overflow(data.campaigns@, unlock_hashes@, filler_hashes@),
            Err(IdError::MissingCard(_)) => false,
        },
{
    let ghost cs = data.campaigns@;
    let ghost uh = unlock_hashes@;
    let ghost fh = filler_hashes@;
    let ghost base = item_views(items@);
    let ghost ci_ = ci as int;
    let c = &data.campaigns[ci];
    proof {
        lemma_keys_step(cs, uh, fh, ci_);
        assert(uh[ci_]@.len() == c.unlocks@.len());
        assert(fh[ci_]@.len() == c.filler@.len());
    }
    let ghost p1 = unlock_items(cs, uh, ci_);
    let ghost p2 = xp_items(*c);
    let ghost p3 = card_items(*c);
    let ghost p4 = filler_items(cs, fh, ci_);
    let ghost p5 = scenario_items(*c);
    let ghost whole = campaign_items(cs, uh, fh, ci_);
    assert(whole == p1 + p2 + p3 + p4 + p5);
    let up = match build_unlock_part(unlock_counts, c, &unlock_hashes[ci], Ghost(unlock_keys(cs.take(ci_), uh))) {
        Some(v) => v,
        None => {
            proof { lemma_overflow_in_all(cs, uh, fh, ci_); }
            return Err(IdError::CounterOverflow);
        },
    };
    match add_items(items, up) {
        Ok(()) => {},
        Err(d) => {
            proof {
                assert(whole.take(p1.len() as int) =~= p1);
                lemma_dup_in_all(cs, uh, fh, ci_, p1, d);
            }
            return Err(IdError::DuplicateItemId(d));
        },
    }
    let xp = build_xp_part(c);
    match add_items(items, xp) {
        Ok(()) => {},
        Err(d) => {
            proof {
                assert(base + p1 + p2 =~= base + (p1 + p2));
                assert(whole.take((p1 + p2).len() as int) =~= p1 + p2);
                lemma_dup_in_all(cs, uh, fh, ci_, p1 + p2, d);
            }
            return Err(IdError::DuplicateItemId(d));
        },
    }
    let cards = build_card_part(c);
    match add_items(items, cards) {
        Ok(()) => {},
        Err(d) => {
            proof {
                assert(base + p1 + p2 + p3 =~= base + (p1 + p2 + p3));
                assert(whole.take((p1 + p2 + p3).len() as int) =~= p1 + p2 + p3);
                lemma_dup_in_all(cs, uh, fh, ci_, p1 + p2 + p3, d);
            }
            return Err(IdError::DuplicateItemId(d));
        },
    }
    let fp = match build_filler_part(filler_counts, c, &filler_hashes[ci], Ghost(filler_keys(cs.take(ci_), fh))) {
        Some(v) => v,
        None => {
            proof { lemma_overflow_in_all(cs, uh, fh, ci_); }
            return Err(IdError::CounterOverflow);
        },
    };
    match add_items(items, fp) {
        Ok(()) => {},
        Err(d) => {
            proof {
                assert(base + p1 + p2 + p3 + p4 =~= base + (p1 + p2 + p3 + p4));
                assert(whole.take((p1 + p2 + p3 + p4).len() as int) =~= p1 + p2 + p3 + p4);
                lemma_dup_in_all(cs, uh, fh, ci_, p1 + p2 + p3 + p4, d);
            }
            return Err(IdError::DuplicateItemId(d));
        },
    }
    let sp = build_scenario_part(c);
    match add_items(items, sp) {
        Ok(()) => {},
        Err(d) => {
            proof {
                assert(base + p1 + p2 + p3 + p4 + p5 =~= base + (p1 + p2 + p3 + p4 + p5));
                assert(whole.take(whole.len() as int) =~= whole);
                lemma_dup_in_all(cs, uh, fh, ci_, whole, d);
            }
            return Err(IdError::DuplicateItemId(d));
        },
    }
    proof {
        assert(base + p1 + p2 + p3 + p4 + p5 =~= base + whole);
    }
    Ok(())
}

/// Ids for every item of the data, given the hash of each unlock name and
/// of each filler name: in campaign order, a campaign's unlocks (counted
/// by campaign and 32 hash bits), ten amounts of experience, its scenario
/// cards, its filler items (counted by 24 hash bits) and its scenario
/// unlocks.  Fails on the first id given twice, or when a counter cannot
/// count a repeat.
pub fn item_ids(data: &Data, unlock_hashes: &Vec<Vec<u64>>, filler_hashes: &Vec<Vec<u64>>) -> (res: Result<Vec<(i64, Item)>, IdError>)
    requires
        hashes_fit(data.campaigns@, unlock_hashes@, filler_hashes@),
    ensures
        match res {
            Ok(v) => item_views(v@) == all_items(data.campaigns@, unlock_hashes@, filler_hashes@),
            Err(IdError::DuplicateItemId(d)) => exists|i: int| 0 <= i < all_items(data.campaigns@, unlock_hashes@, filler_hashes@).len()
                && (#[trigger] all_items(data.campaigns@, unlock_hashes@, filler_hashes@)[i]).0 == d,
            Err(IdError::CounterOverflow) => id_overflow(data.campaigns@, unlock_hashes@, filler_hashes@),
            Err(IdError::MissingCard(_)) => false,
        },
        res is Ok <==> distinct_ids(all_items(data.campaigns@, unlock_hashes@, filler_hashes@)) && !id_overflow(data.campaigns@, unlock_hashes@, filler_hashes@),
        res matches Err(IdError::DuplicateItemId(_)) ==> !distinct_ids(all_items(data.campaigns@, unlock_hashes@, filler_hashes@)),
{
    let ghost cs = data.campaigns@;
    let ghost uh = unlock_hashes@;
    let ghost fh = filler_hashes@;
    let mut items: Vec<(i64, Item)> = Vec::new();
    let mut unlock_counts = Counter::new(40);
    let mut filler_counts = Counter::new(40);
    proof {
        assert(item_views(items@) =~= items_upto(cs, uh, fh, 0));
        assert(cs.take(0) =~= Seq::<Campaign>::empty());
        assert(unlock_keys(cs.take(0), uh) =~= Seq::<i64>::empty());
        assert(filler_keys(cs.take(0), fh) =~= Seq::<i64>::empty());
    }
    let mut ci: usize = 0;
    while ci < data.campaigns.len()
        invariant
            cs == data.campaigns@,
            uh == unlock_hashes@,
            fh == filler_hashes@,
            hashes_fit(cs, uh, fh),
            ci <= cs.len(),
            item_views(items@) == items_upto(cs, uh, fh, ci as int),
            distinct_ids(item_views(items@)),
            counter_models(unlock_counts, unlock_keys(cs.take(ci as int), uh)),
            counter_models(filler_counts, filler_keys(cs.take(ci as int), fh)),
            unlock_counts.offset() == 40,
            filler_counts.offset() == 40,
            !overflows(unlock_keys(cs.take(ci as int), uh)),
            !overflows(filler_keys(cs.take(ci as int), fh)),
        decreases cs.len() - ci,
    {
        match campaign_step(&mut items, &mut unlock_counts, &mut filler_counts, data, unlock_hashes, filler_hashes, ci) {
            Ok(()) => {},
            Err(e) => { return Err(e); },
        }
        ci = ci + 1;
    }
    proof {
        assert(cs.take(cs.len() as int) =~= cs);
    }
    Ok(items)
}

/// Repeated requests for one id are answered with different ids, as long
/// as the id fits below bit 40 and the repeats below 2^23.
pub proof fn lemma_counted_distinct(id: i64, n: i64, m: i64)
    requires
        0 <= id < 0x100_0000_0000,
        0 <= n < m < 0x80_0000,
    ensures
        counted(id, n, 40) != counted(id, m, 40),
{
    if n == 0 {
        assert(id != id | (m << 40)) by (bit_vector)
            requires 0 <= id < 0x100_0000_0000i64, 0 < m < 0x80_0000i64;
    } else {
        assert(id | (n << 40) != id | (m << 40)) by (bit_vector)
            requires 0 <= id < 0x100_0000_0000i64, 0 < n < m, m < 0x80_0000i64;
    }
}

} // verus!
