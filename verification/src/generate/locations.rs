//! Location ids: every clue and victory point of a scenario's locations
//! and every count of its checks becomes a location with an id.

use vstd::prelude::*;
use crate::cardcode::Code;
use crate::collections::{first_where, lemma_first_where, lemma_first_where_at, lemma_first_where_none};
use crate::generate::card::{Card, unique_name_spec};
use crate::generate::data::{Data, Campaign, Scenario, Check};
use crate::generate::ids::{code_int, counted_ids, overflows, occurrences, IdError, Counter, counter_models, request};
use crate::text::{int_text, push_str, push_i64};

verus! {

/// What a location stands for: the `n`-th victory point or clue of a
/// card in a scenario of a campaign, or one count of a check (by the
/// places of its campaign, scenario and check).
pub enum Target {
    Victory(Seq<char>, Seq<char>, Code, i64),
    Clue(Seq<char>, Seq<char>, Code, i64),
    Check(int, int, int),
}

/// A location before it has an id: the counter key it is numbered by, the
/// name it is listed under, and what it stands for.
pub struct Request {
    pub key: i64,
    pub name: Seq<char>,
    pub target: Target,
}

/// Matches a card with this code.
pub open spec fn code_pred(code: Code) -> spec_fn(Card) -> bool {
    |c: Card| c.code == code
}

/// The first card with this code.
pub open spec fn card_for(cards: Seq<Card>, code: Code) -> Option<Card> {
    let i = first_where(cards, code_pred(code));
    if i >= 0 { Some(cards[i]) } else { None }
}

/// The counter key of the locations of a card (or check) in a scenario:
/// campaign number, scenario number above it, the card code above that.
pub open spec fn location_key(ci: i64, s: Scenario, code: Code) -> i64 {
    ci | (s.i << 8) | (code_int(code) << 16)
}

/// The victory-point locations of a card in a scenario.
pub open spec fn victory_requests(cname: Seq<char>, ci: i64, s: Scenario, code: Code, card: Card) -> Seq<Request> {
    let n: nat = if card.victory > 0 { card.victory as nat } else { 0 };
    Seq::new(n, |j: int| Request {
        key: location_key(ci, s, code),
        name: s.name@ + " - "@ + unique_name_spec(card@) + " Victory "@ + int_text(j + 1),
        target: Target::Victory(cname, s.name@, code, j as i64),
    })
}

/// The clue locations of a card in a scenario.
pub open spec fn clue_requests(cname: Seq<char>, ci: i64, s: Scenario, code: Code, card: Card) -> Seq<Request> {
    let n: nat = if card.clues > 0 { card.clues as nat } else { 0 };
    Seq::new(n, |j: int| Request {
        key: location_key(ci, s, code),
        name: s.name@ + " - "@ + unique_name_spec(card@) + " Clues "@ + int_text(j + 1),
        target: Target::Clue(cname, s.name@, code, j as i64),
    })
}

/// The locations of the first `n` location cards of a scenario: each
/// card's victory points, then its clues.
pub open spec fn location_requests(cname: Seq<char>, ci: i64, s: Scenario, cards: Seq<Card>, n: int) -> Seq<Request>
    decreases n,
{
    if n <= 0 {
        Seq::empty()
    } else {
        let code = s.locations@[n - 1];
        location_requests(cname, ci, s, cards, n - 1) + match card_for(cards, code) {
            Some(card) => victory_requests(cname, ci, s, code, card) + clue_requests(cname, ci, s, code, card),
            None => Seq::empty(),
        }
    }
}

/// How many locations a check has: one per count (at least one) for each
/// victory point (at least one).
pub open spec fn check_size(k: Check) -> nat {
    let per: int = if k.count > 1 { k.count as int } else { 1 };
    if k.victory > 0 { (k.victory * per) as nat } else { per as nat }
}

/// The name of the `j`-th location of a check.
pub open spec fn check_name(s: Scenario, k: Check, j: int) -> Seq<char> {
    let base = s.name@ + " - "@ + k.name@;
    if k.victory > 0 {
        if k.count > 1 {
            base + " Victory "@ + int_text(j / (k.count as int) + 1) + " #"@ + int_text(j % (k.count as int) + 1)
        } else {
            base + " Victory "@ + int_text(j + 1)
        }
    } else if k.count > 1 {
        base + " #"@ + int_text(j + 1)
    } else {
        base
    }
}

/// The locations of the check at `ki` of a scenario.
pub open spec fn one_check_requests(ci: i64, s: Scenario, cx: int, sx: int, ki: int) -> Seq<Request> {
    let k = s.checks@[ki];
    Seq::new(check_size(k), |j: int| Request {
        key: location_key(ci, s, k.code),
        name: check_name(s, k, j),
        target: Target::Check(cx, sx, ki),
    })
}

/// The locations of the first `n` checks of a scenario.
pub open spec fn check_requests(ci: i64, s: Scenario, cx: int, sx: int, n: int) -> Seq<Request>
    decreases n,
{
    if n <= 0 {
        Seq::empty()
    } else {
        check_requests(ci, s, cx, sx, n - 1) + one_check_requests(ci, s, cx, sx, n - 1)
    }
}

/// The locations of the scenario at `sx` of the campaign at `cx`: those of
/// its location cards, then those of its checks.
pub open spec fn scenario_requests(c: Campaign, cx: int, sx: int, cards: Seq<Card>) -> Seq<Request> {
    let s = c.scenarios@[sx];
    location_requests(c.name@, c.i, s, cards, s.locations@.len() as int) + check_requests(c.i, s, cx, sx, s.checks@.len() as int)
}

/// The locations of the first `n` scenarios of the campaign at `cx`.
pub open spec fn campaign_requests(c: Campaign, cx: int, cards: Seq<Card>, n: int) -> Seq<Request>
    decreases n,
{
    if n <= 0 {
        Seq::empty()
    } else {
        campaign_requests(c, cx, cards, n - 1) + scenario_requests(c, cx, n - 1, cards)
    }
}

/// The locations of the first `n` campaigns.
pub open spec fn requests_upto(cs: Seq<Campaign>, cards: Seq<Card>, n: int) -> Seq<Request>
    decreases n,
{
    if n <= 0 {
        Seq::empty()
    } else {
        requests_upto(cs, cards, n - 1) + campaign_requests(cs[n - 1], n - 1, cards, cs[n - 1].scenarios@.len() as int)
    }
}

/// Every location card of the data is in the card list.
pub open spec fn locations_known(cs: Seq<Campaign>, cards: Seq<Card>) -> bool {
    forall|cx: int, sx: int, l: int| 0 <= cx < cs.len() && 0 <= sx < cs[cx].scenarios@.len()
        && 0 <= l < cs[cx].scenarios@[sx].locations@.len()
        ==> #[trigger] card_for(cards, cs[cx].scenarios@[sx].locations@[l]) is Some
}

/// A location: the `n`-th victory point or clue of a card in a scenario
/// of a campaign.
pub struct Location {
    pub campaign: String,
    pub scenario: String,
    pub code: Code,
    pub n: i64,
}

/// What a location stands for.
pub enum LocationTarget {
    Victory(Location),
    Clue(Location),
    /// A count of the check at these places of campaign, scenario and check.
    Check(usize, usize, usize),
}

impl LocationTarget {
    pub open spec fn view(self) -> Target {
        match self {
            LocationTarget::Victory(l) => Target::Victory(l.campaign@, l.scenario@, l.code, l.n),
            LocationTarget::Clue(l) => Target::Clue(l.campaign@, l.scenario@, l.code, l.n),
            LocationTarget::Check(c, s, k) => Target::Check(c as int, s as int, k as int),
        }
    }
}

/// A location before it has an id.
pub struct LocationRequest {
    pub key: i64,
    pub name: String,
    pub target: LocationTarget,
}

impl LocationRequest {
    pub open spec fn view(self) -> Request {
        Request { key: self.key, name: self.name@, target: self.target@ }
    }
}

/// The values of some requests.
pub open spec fn request_views(v: Seq<LocationRequest>) -> Seq<Request> {
    v.map_values(|r: LocationRequest| r@)
}

/// The index of the first card with this code.
pub fn lookup_card(cards: &Vec<Card>, code: Code) -> (res: Option<usize>)
    ensures
        match res {
            Some(i) => i < cards@.len() && first_where(cards@, code_pred(code)) == i && card_for(cards@, code) == Some(cards@[i as int]),
            None => card_for(cards@, code) is None,
        },
{
    let mut i: usize = 0;
    while i < cards.len()
        invariant
            i <= cards@.len(),
            forall|j: int| 0 <= j < i ==> !(#[trigger] code_pred(code)(cards@[j])),
        decreases cards@.len() - i,
    {
        if cards[i].code == code {
            proof { lemma_first_where_at(cards@, code_pred(code), i as int); }
            return Some(i);
        }
        i = i + 1;
    }
    proof { lemma_first_where_none(cards@, code_pred(code)); }
    None
}

fn location_name(s: &Scenario, uname: &String, what: &str, n: i64) -> (res: String)
    ensures
        res@ == s.name@ + " - "@ + uname@ + what@ + int_text(n as int),
{
    let mut name = s.name.clone();
    push_str(&mut name, " - ");
    push_str(&mut name, uname.as_str());
    push_str(&mut name, what);
    push_i64(&mut name, n);
    name
}

fn push_request(reqs: &mut Vec<LocationRequest>, r: LocationRequest)
    ensures
        request_views(final(reqs)@) == request_views(old(reqs)@).push(r@),
{
    let ghost before = request_views(reqs@);
    reqs.push(r);
    proof { assert(request_views(reqs@) =~= before.push(r@)); }
}

/// Appends the victory-point and clue locations of a card.
fn push_card_locations(reqs: &mut Vec<LocationRequest>, cname: &String, ci: i64, s: &Scenario, code: Code, card: &Card)
    ensures
        request_views(final(reqs)@) == request_views(old(reqs)@)
            + victory_requests(cname@, ci, *s, code, *card) + clue_requests(cname@, ci, *s, code, *card),
{
    let ghost base = request_views(reqs@);
    let ghost vr = victory_requests(cname@, ci, *s, code, *card);
    let ghost cr = clue_requests(cname@, ci, *s, code, *card);
    let uname = card.unique_name();
    let key: i64 = ci | (s.i << 8) | (code.i64() << 16);
    proof { assert(key == location_key(ci, *s, code)); }
    let mut n: i64 = 0;
    proof { assert(base + vr.take(0) =~= base); }
    while n < card.victory
        invariant
            0 <= n,
            card.victory > 0 ==> n <= card.victory,
            card.victory <= 0 ==> n == 0,
            vr == victory_requests(cname@, ci, *s, code, *card),
            key == location_key(ci, *s, code),
            uname@ == unique_name_spec(card@),
            request_views(reqs@) == base + vr.take(n as int),
        decreases card.victory - n,
    {
        let name = location_name(s, &uname, " Victory ", n + 1);
        let r = LocationRequest {
            key,
            name,
            target: LocationTarget::Victory(Location { campaign: cname.clone(), scenario: s.name.clone(), code, n }),
        };
        proof {
            assert(vr[n as int] == r@);
            assert(vr.take(n + 1) =~= vr.take(n as int).push(r@));
        }
        push_request(reqs, r);
        n = n + 1;
    }
    proof { assert(vr.take(n as int) =~= vr); }
    let ghost mid = request_views(reqs@);
    let mut n: i64 = 0;
    proof { assert(mid + cr.take(0) =~= mid); }
    while n < card.clues
        invariant
            0 <= n,
            card.clues > 0 ==> n <= card.clues,
            card.clues <= 0 ==> n == 0,
            cr == clue_requests(cname@, ci, *s, code, *card),
            key == location_key(ci, *s, code),
            uname@ == unique_name_spec(card@),
            request_views(reqs@) == mid + cr.take(n as int),
        decreases card.clues - n,
    {
        let name = location_name(s, &uname, " Clues ", n + 1);
        let r = LocationRequest {
            key,
            name,
            target: LocationTarget::Clue(Location { campaign: cname.clone(), scenario: s.name.clone(), code, n }),
        };
        proof {
            assert(cr[n as int] == r@);
            assert(cr.take(n + 1) =~= cr.take(n as int).push(r@));
        }
        push_request(reqs, r);
        n = n + 1;
    }
    proof { assert(cr.take(n as int) =~= cr); }
}

/// Appends the locations of a scenario's location cards; fails on the
/// first card that is not in the card list.
fn push_scenario_locations(reqs: &mut Vec<LocationRequest>, cname: &String, ci: i64, s: &Scenario, cards: &Vec<Card>) -> (res: Result<(), IdError>)
    ensures
        match res {
            Ok(()) => request_views(final(reqs)@) == request_views(old(reqs)@) + location_requests(cname@, ci, *s, cards@, s.locations@.len() as int)
                && forall|l: int| 0 <= l < s.locations@.len() ==> #[trigger] card_for(cards@, s.locations@[l]) is Some,
            Err(IdError::MissingCard(code)) => exists|l: int| 0 <= l < s.locations@.len() && s.locations@[l] == code
                && #[trigger] card_for(cards@, s.locations@[l]) is None,
            Err(_) => false,
        },
{
    let ghost base = request_views(reqs@);
    let mut l: usize = 0;
    while l < s.locations.len()
        invariant
            base == request_views(old(reqs)@),
            l <= s.locations@.len(),
            request_views(reqs@) == base + location_requests(cname@, ci, *s, cards@, l as int),
            forall|j: int| 0 <= j < l ==> #[trigger] card_for(cards@, s.locations@[j]) is Some,
        decreases s.locations@.len() - l,
    {
        let code = s.locations[l];
        match lookup_card(cards, code) {
            Some(i) => {
                push_card_locations(reqs, cname, ci, s, code, &cards[i]);
                proof {
                    assert(location_requests(cname@, ci, *s, cards@, l + 1) == location_requests(cname@, ci, *s, cards@, l as int)
                        + victory_requests(cname@, ci, *s, code, cards@[i as int]) + clue_requests(cname@, ci, *s, code, cards@[i as int]));
                }
            },
            None => {
                return Err(IdError::MissingCard(code));
            },
        }
        l = l + 1;
    }
    Ok(())
}

pub proof fn lemma_div_mod(v: int, per: int, m: int)
    by (nonlinear_arith)
    requires
        per > 0,
        v >= 0,
        0 <= m < per,
    ensures
        (v * per + m) / per == v,
        (v * per + m) % per == m,
        (v + 1) * per == v * per + per,
{
}

/// Appends the locations of one check.
fn push_one_check(reqs: &mut Vec<LocationRequest>, ci: i64, s: &Scenario, cx: usize, sx: usize, ki: usize)
    requires
        ki < s.checks@.len(),
    ensures
        request_views(final(reqs)@) == request_views(old(reqs)@) + one_check_requests(ci, *s, cx as int, sx as int, ki as int),
{
    let ghost base = request_views(reqs@);
    let ghost cr = one_check_requests(ci, *s, cx as int, sx as int, ki as int);
    let k = &s.checks[ki];
    let key: i64 = ci | (s.i << 8) | (k.code.i64() << 16);
    proof { assert(key == location_key(ci, *s, k.code)); }
    let mut prefix = s.name.clone();
    push_str(&mut prefix, " - ");
    push_str(&mut prefix, k.name.as_str());
    let ghost per: int = if k.count > 1 { k.count as int } else { 1 };
    if k.victory > 0 {
        let mut v: i64 = 0;
        proof { assert(base + cr.take(0) =~= base); }
        while v < k.victory
            invariant
                0 <= v <= k.victory,
                k == s.checks@[ki as int],
                cr == one_check_requests(ci, *s, cx as int, sx as int, ki as int),
                cr.len() == k.victory * per,
                per == if k.count > 1 { k.count as int } else { 1 },
                key == location_key(ci, *s, k.code),
                prefix@ == s.name@ + " - "@ + k.name@,
                request_views(reqs@) == base + cr.take(v * per),
            decreases k.victory - v,
        {
            if k.count > 1 {
                let mut m: i64 = 0;
                while m < k.count
                    invariant
                        0 <= v < k.victory,
                        0 <= m <= k.count,
                        k.count > 1,
                        k == s.checks@[ki as int],
                        cr == one_check_requests(ci, *s, cx as int, sx as int, ki as int),
                        cr.len() == k.victory * per,
                        per == k.count,
                        key == location_key(ci, *s, k.code),
                        prefix@ == s.name@ + " - "@ + k.name@,
                        request_views(reqs@) == base + cr.take(v * per + m),
                    decreases k.count - m,
                {
                    let mut name = prefix.clone();
                    push_str(&mut name, " Victory ");
                    push_i64(&mut name, v + 1);
                    push_str(&mut name, " #");
                    push_i64(&mut name, m + 1);
                    let r = LocationRequest { key, name, target: LocationTarget::Check(cx, sx, ki) };
                    proof {
                        lemma_div_mod(v as int, per, m as int);
                        assert(v * per + m < cr.len()) by (nonlinear_arith)
                            requires v < k.victory, m < per, cr.len() == k.victory * per, per > 0, v >= 0;
                        assert(cr[v * per + m] == r@);
                        assert(cr.take(v * per + m + 1) =~= cr.take(v * per + m).push(r@));
                    }
                    push_request(reqs, r);
                    m = m + 1;
                }
                proof { lemma_div_mod(v as int, per, 0); }
            } else {
                let mut name = prefix.clone();
                push_str(&mut name, " Victory ");
                push_i64(&mut name, v + 1);
                let r = LocationRequest { key, name, target: LocationTarget::Check(cx, sx, ki) };
                proof {
                    assert(cr[v as int] == r@);
                    assert(cr.take(v + 1) =~= cr.take(v as int).push(r@));
                }
                push_request(reqs, r);
            }
            v = v + 1;
        }
        proof { assert(cr.take(v * per) =~= cr); }
    } else if k.count > 1 {
        let mut m: i64 = 0;
        proof { assert(base + cr.take(0) =~= base); }
        while m < k.count
            invariant
                0 <= m <= k.count,
                k.count > 1,
                k.victory <= 0,
                k == s.checks@[ki as int],
                cr == one_check_requests(ci, *s, cx as int, sx as int, ki as int),
                cr.len() == k.count,
                key == location_key(ci, *s, k.code),
                prefix@ == s.name@ + " - "@ + k.name@,
                request_views(reqs@) == base + cr.take(m as int),
            decreases k.count - m,
        {
            let mut name = prefix.clone();
            push_str(&mut name, " #");
            push_i64(&mut name, m + 1);
            let r = LocationRequest { key, name, target: LocationTarget::Check(cx, sx, ki) };
            proof {
                assert(cr[m as int] == r@);
                assert(cr.take(m + 1) =~= cr.take(m as int).push(r@));
            }
            push_request(reqs, r);
            m = m + 1;
        }
        proof { assert(cr.take(m as int) =~= cr); }
    } else {
        let r = LocationRequest { key, name: prefix, target: LocationTarget::Check(cx, sx, ki) };
        proof {
            assert(cr.len() == 1);
            assert(cr[0] == r@);
            assert(cr =~= seq![r@]);
        }
        push_request(reqs, r);
    }
}

/// Appends the locations of a scenario's checks.
fn push_check_locations(reqs: &mut Vec<LocationRequest>, ci: i64, s: &Scenario, cx: usize, sx: usize)
    ensures
        request_views(final(reqs)@) == request_views(old(reqs)@) + check_requests(ci, *s, cx as int, sx as int, s.checks@.len() as int),
{
    let ghost base = request_views(reqs@);
    let mut ki: usize = 0;
    while ki < s.checks.len()
        invariant
            base == request_views(old(reqs)@),
            ki <= s.checks@.len(),
            request_views(reqs@) == base + check_requests(ci, *s, cx as int, sx as int, ki as int),
        decreases s.checks@.len() - ki,
    {
        push_one_check(reqs, ci, s, cx, sx, ki);
        ki = ki + 1;
    }
}

/// Appends the locations of the scenarios of the campaign at `cx`.
fn push_campaign_locations(reqs: &mut Vec<LocationRequest>, c: &Campaign, cx: usize, cards: &Vec<Card>) -> (res: Result<(), IdError>)
    ensures
        match res {
            Ok(()) => request_views(final(reqs)@) == request_views(old(reqs)@) + campaign_requests(*c, cx as int, cards@, c.scenarios@.len() as int)
                && forall|sx: int, l: int| 0 <= sx < c.scenarios@.len() && 0 <= l < c.scenarios@[sx].locations@.len()
                    ==> #[trigger] card_for(cards@, c.scenarios@[sx].locations@[l]) is Some,
            Err(IdError::MissingCard(code)) => exists|sx: int, l: int| 0 <= sx < c.scenarios@.len() && 0 <= l < c.scenarios@[sx].locations@.len()
                && c.scenarios@[sx].locations@[l] == code && #[trigger] card_for(cards@, c.scenarios@[sx].locations@[l]) is None,
            Err(_) => false,
        },
{
    let ghost base = request_views(reqs@);
    let mut sx: usize = 0;
    while sx < c.scenarios.len()
        invariant
            base == request_views(old(reqs)@),
            sx <= c.scenarios@.len(),
            request_views(reqs@) == base + campaign_requests(*c, cx as int, cards@, sx as int),
            forall|t: int, l: int| 0 <= t < sx && 0 <= l < c.scenarios@[t].locations@.len()
                ==> #[trigger] card_for(cards@, c.scenarios@[t].locations@[l]) is Some,
        decreases c.scenarios@.len() - sx,
    {
        let s = &c.scenarios[sx];
        let ghost mid = request_views(reqs@);
        match push_scenario_locations(reqs, &c.name, c.i, s, cards) {
            Ok(()) => {},
            Err(e) => { return Err(e); },
        }
        push_check_locations(reqs, c.i, s, cx, sx);
        proof {
            assert(campaign_requests(*c, cx as int, cards@, sx + 1) == campaign_requests(*c, cx as int, cards@, sx as int) + scenario_requests(*c, cx as int, sx as int, cards@));
            assert(request_views(reqs@) =~= base + campaign_requests(*c, cx as int, cards@, sx + 1));
        }
        sx = sx + 1;
    }
    Ok(())
}

/// The locations of all campaigns, in order, before they have ids: for
/// each scenario, the victory points and clues of its location cards,
/// then the counts of its checks.  Fails on the first location card that
/// is not in the card list.
pub fn location_requests_of(data: &Data, cards: &Vec<Card>) -> (res: Result<Vec<LocationRequest>, IdError>)
    ensures
        match res {
            Ok(v) => request_views(v@) == requests_upto(data.campaigns@, cards@, data.campaigns@.len() as int),
            Err(IdError::MissingCard(code)) => exists|cx: int, sx: int, l: int| 0 <= cx < data.campaigns@.len()
                && 0 <= sx < data.campaigns@[cx].scenarios@.len()
                && 0 <= l < data.campaigns@[cx].scenarios@[sx].locations@.len()
                && data.campaigns@[cx].scenarios@[sx].locations@[l] == code
                && #[trigger] card_for(cards@, data.campaigns@[cx].scenarios@[sx].locations@[l]) is None,
            Err(_) => false,
        },
        res is Ok <==> locations_known(data.campaigns@, cards@),
{
    let ghost cs = data.campaigns@;
    let mut reqs: Vec<LocationRequest> = Vec::new();
    proof { assert(request_views(reqs@) =~= requests_upto(cs, cards@, 0)); }
    let mut cx: usize = 0;
    while cx < data.campaigns.len()
        invariant
            cs == data.campaigns@,
            cx <= cs.len(),
            request_views(reqs@) == requests_upto(cs, cards@, cx as int),
            forall|t: int, sx: int, l: int| 0 <= t < cx && 0 <= sx < cs[t].scenarios@.len() && 0 <= l < cs[t].scenarios@[sx].locations@.len()
                ==> #[trigger] card_for(cards@, cs[t].scenarios@[sx].locations@[l]) is Some,
        decreases cs.len() - cx,
    {
        let c = &data.campaigns[cx];
        match push_campaign_locations(&mut reqs, c, cx, cards) {
            Ok(()) => {},
            Err(e) => {
                proof {
                    if let IdError::MissingCard(code) = e {
                        let (sx, l) = choose|sx: int, l: int| 0 <= sx < c.scenarios@.len() && 0 <= l < c.scenarios@[sx].locations@.len()
                            && c.scenarios@[sx].locations@[l] == code && #[trigger] card_for(cards@, c.scenarios@[sx].locations@[l]) is None;
                        assert(card_for(cards@, cs[cx as int].scenarios@[sx].locations@[l]) is None);
                    }
                }
                return Err(e);
            },
        }
        cx = cx + 1;
    }
    Ok(reqs)
}

/// A location with its id.
pub struct LocationEntry {
    pub id: i64,
    pub name: String,
    pub target: LocationTarget,
}

impl LocationEntry {
    pub open spec fn view(self) -> (i64, Seq<char>, Target) {
        (self.id, self.name@, self.target@)
    }
}

/// The values of some locations.
pub open spec fn entry_views(v: Seq<LocationEntry>) -> Seq<(i64, Seq<char>, Target)> {
    v.map_values(|e: LocationEntry| e@)
}

/// The counter keys of some requests.
pub open spec fn request_keys(rs: Seq<Request>) -> Seq<i64> {
    rs.map_values(|r: Request| r.key)
}

/// The requests with the ids a fresh counter gives them in turn.
pub open spec fn numbered(rs: Seq<Request>) -> Seq<(i64, Seq<char>, Target)> {
    Seq::new(rs.len(), |j: int| (counted_ids(request_keys(rs), 40)[j], rs[j].name, rs[j].target))
}

fn copy_target(t: &LocationTarget) -> (res: LocationTarget)
    ensures
        res@ == t@,
{
    match t {
        LocationTarget::Victory(l) => LocationTarget::Victory(Location { campaign: l.campaign.clone(), scenario: l.scenario.clone(), code: l.code, n: l.n }),
        LocationTarget::Clue(l) => LocationTarget::Clue(Location { campaign: l.campaign.clone(), scenario: l.scenario.clone(), code: l.code, n: l.n }),
        LocationTarget::Check(c, s, k) => LocationTarget::Check(*c, *s, *k),
    }
}

/// Gives each location its id: the key of its card (or check) the first
/// time, and the key with the number of earlier requests for it shifted
/// up by 40 bits after that.
#[verifier::rlimit(40)]
pub fn number_locations(reqs: &Vec<LocationRequest>) -> (res: Result<Vec<LocationEntry>, IdError>)
    ensures
        match res {
            Ok(v) => entry_views(v@) == numbered(request_views(reqs@)),
            Err(IdError::CounterOverflow) => overflows(request_keys(request_views(reqs@))),
            Err(_) => false,
        },
        res is Ok <==> !overflows(request_keys(request_views(reqs@))),
{
    let ghost rs = request_views(reqs@);
    let ghost ks = request_keys(rs);
    let ghost all = numbered(rs);
    let mut counter = Counter::new(40);
    let mut out: Vec<LocationEntry> = Vec::new();
    proof {
        assert(ks.take(0) =~= Seq::<i64>::empty());
        assert(entry_views(out@) =~= all.take(0));
    }
    let mut j: usize = 0;
    while j < reqs.len()
        invariant
            rs == request_views(reqs@),
            ks == request_keys(rs),
            all == numbered(rs),
            j <= reqs@.len(),
            counter_models(counter, ks.take(j as int)),
            counter.offset() == 40,
            entry_views(out@) == all.take(j as int),
            forall|i: int| 0 <= i < j ==> occurrences(ks.take(i), #[trigger] ks[i]) <= i64::MAX,
        decreases reqs@.len() - j,
    {
        let r = &reqs[j];
        proof {
            assert(rs[j as int] == r@);
            assert(ks[j as int] == r.key);
            assert(ks.take(j + 1) =~= ks.take(j as int).push(r.key));
        }
        let id = match request(&mut counter, r.key, Ghost(ks.take(j as int))) {
            Some(id) => id,
            None => {
                proof {
                    assert(ks.take(j as int).take(j as int) =~= ks.take(j as int));
                    assert(occurrences(ks.take(j as int), ks[j as int]) > i64::MAX);
                }
                return Err(IdError::CounterOverflow);
            },
        };
        let e = LocationEntry { id, name: r.name.clone(), target: copy_target(&r.target) };
        proof {
            assert(all[j as int] == e@);
            assert(all.take(j + 1) =~= all.take(j as int).push(e@));
        }
        let ghost before = entry_views(out@);
        out.push(e);
        proof { assert(entry_views(out@) =~= before.push(e@)); }
        j = j + 1;
    }
    proof {
        assert(all.take(j as int) =~= all);
        if overflows(ks) {
            let i = choose|i: int| 0 <= i < ks.len() && occurrences(ks.take(i), ks[i]) > i64::MAX;
        }
    }
    Ok(out)
}

/// The ids of the locations of the check at these places, in order.
pub open spec fn ids_for(es: Seq<(i64, Seq<char>, Target)>, cx: int, sx: int, ki: int) -> Seq<i64> {
    es.filter(|e: (i64, Seq<char>, Target)| e.2 == Target::Check(cx, sx, ki)).map_values(|e: (i64, Seq<char>, Target)| e.0)
}

/// Every check a location stands for exists in the data.
pub open spec fn targets_exist(cs: Seq<Campaign>, es: Seq<(i64, Seq<char>, Target)>) -> bool {
    forall|j: int| 0 <= j < es.len() ==> match (#[trigger] es[j]).2 {
        Target::Check(cx, sx, ki) => 0 <= cx < cs.len() && 0 <= sx < cs[cx].scenarios@.len() && 0 <= ki < cs[cx].scenarios@[sx].checks@.len(),
        _ => true,
    }
}

/// Two checks agree in everything but their ids.
pub open spec fn same_check(a: Check, b: Check) -> bool {
    a.code == b.code && a.name == b.name && a.description == b.description && a.logic == b.logic
        && a.count == b.count && a.victory == b.victory && a.goal == b.goal
}

/// Two scenarios agree in everything but the ids of their checks.
pub open spec fn same_scenario(a: Scenario, b: Scenario) -> bool {
    &&& a.name == b.name && a.i == b.i && a.logic_xp == b.logic_xp && a.always == b.always
    &&& a.locks == b.locks && a.locations == b.locations && a.begin == b.begin && a.paths == b.paths
    &&& a.checks@.len() == b.checks@.len()
    &&& forall|k: int| 0 <= k < a.checks@.len() ==> same_check(#[trigger] a.checks@[k], b.checks@[k])
}

/// Two campaigns agree in everything but the ids of their checks.
pub open spec fn same_campaign(a: Campaign, b: Campaign) -> bool {
    &&& a.name == b.name && a.i == b.i && a.xp == b.xp && a.unlocks == b.unlocks
    &&& a.scenario_cards == b.scenario_cards && a.filler == b.filler
    &&& a.scenarios@.len() == b.scenarios@.len()
    &&& forall|t: int| 0 <= t < a.scenarios@.len() ==> same_scenario(#[trigger] a.scenarios@[t], b.scenarios@[t])
}

/// `new` is `old` with the ids of the locations `es` added to their checks.
pub open spec fn ids_added(old: Seq<Campaign>, new: Seq<Campaign>, es: Seq<(i64, Seq<char>, Target)>) -> bool {
    &&& old.len() == new.len()
    &&& forall|cx: int| 0 <= cx < old.len() ==> same_campaign(#[trigger] old[cx], new[cx])
    &&& forall|cx: int, sx: int, ki: int| 0 <= cx < old.len() && 0 <= sx < old[cx].scenarios@.len() && 0 <= ki < old[cx].scenarios@[sx].checks@.len()
        ==> (#[trigger] new[cx].scenarios@[sx].checks@[ki]).ids@ == old[cx].scenarios@[sx].checks@[ki].ids@ + ids_for(es, cx, sx, ki)
}

proof fn lemma_ids_for_push(s: Seq<(i64, Seq<char>, Target)>, x: (i64, Seq<char>, Target), cx: int, sx: int, ki: int)
    ensures
        ids_for(s.push(x), cx, sx, ki) == if x.2 == Target::Check(cx, sx, ki) { ids_for(s, cx, sx, ki).push(x.0) } else { ids_for(s, cx, sx, ki) },
{
    let p = |e: (i64, Seq<char>, Target)| e.2 == Target::Check(cx, sx, ki);
    s.lemma_filter_push(x, p);
    let f = |e: (i64, Seq<char>, Target)| e.0;
    if p(x) {
        assert(s.push(x).filter(p).map_values(f) =~= s.filter(p).map_values(f).push(x.0));
    }
}

/// Adds to each check the ids of its locations, in order.
pub fn assign_check_ids(data: &mut Data, entries: &Vec<LocationEntry>)
    requires
        targets_exist(old(data).campaigns@, entry_views(entries@)),
    ensures
        ids_added(old(data).campaigns@, final(data).campaigns@, entry_views(entries@)),
{
    let ghost es = entry_views(entries@);
    let ghost before = data.campaigns@;
    let mut j: usize = 0;
    proof {
        assert forall|cx: int, sx: int, ki: int| 0 <= cx < before.len() && 0 <= sx < before[cx].scenarios@.len() && 0 <= ki < before[cx].scenarios@[sx].checks@.len()
            implies (#[trigger] data.campaigns@[cx].scenarios@[sx].checks@[ki]).ids@ == before[cx].scenarios@[sx].checks@[ki].ids@ + ids_for(es.take(0), cx, sx, ki) by {
            assert(es.take(0).filter(|e: (i64, Seq<char>, Target)| e.2 == Target::Check(cx, sx, ki)) =~= Seq::empty()) by {
                reveal(Seq::filter);
            }
            assert(ids_for(es.take(0), cx, sx, ki) =~= Seq::<i64>::empty());
        }
    }
    while j < entries.len()
        invariant
            es == entry_views(entries@),
            before == old(data).campaigns@,
            targets_exist(before, es),
            j <= es.len(),
            ids_added(before, data.campaigns@, es.take(j as int)),
        decreases es.len() - j,
    {
        let e = &entries[j];
        let ghost now = data.campaigns@;
        proof {
            assert(es[j as int] == e@);
            assert(es.take(j + 1) =~= es.take(j as int).push(e@));
        }
        match e.target {
            LocationTarget::Check(cx, sx, ki) => {
                proof {
                    assert(e@.2 == Target::Check(cx as int, sx as int, ki as int));
                }
                data.campaigns[cx].scenarios[sx].checks[ki].ids.push(e.id);
                proof {
                    let new = data.campaigns@;
                    assert(new.len() == now.len());
                    assert(forall|c2: int| 0 <= c2 < now.len() && c2 != cx ==> #[trigger] new[c2] == now[c2]);
                    assert(new[cx as int].scenarios@.len() == now[cx as int].scenarios@.len());
                    assert(forall|s2: int| 0 <= s2 < now[cx as int].scenarios@.len() && s2 != sx ==> #[trigger] new[cx as int].scenarios@[s2] == now[cx as int].scenarios@[s2]);
                    assert(new[cx as int].scenarios@[sx as int].checks@.len() == now[cx as int].scenarios@[sx as int].checks@.len());
                    assert(forall|k2: int| 0 <= k2 < now[cx as int].scenarios@[sx as int].checks@.len() && k2 != ki ==> #[trigger] new[cx as int].scenarios@[sx as int].checks@[k2] == now[cx as int].scenarios@[sx as int].checks@[k2]);
                    assert(new[cx as int].scenarios@[sx as int].checks@[ki as int].ids@ == now[cx as int].scenarios@[sx as int].checks@[ki as int].ids@.push(e.id));
                    assert forall|c2: int| 0 <= c2 < before.len() implies same_campaign(#[trigger] before[c2], new[c2]) by {
                        assert(same_campaign(before[c2], now[c2]));
                        if c2 == cx {
                            assert forall|t: int| 0 <= t < before[c2].scenarios@.len() implies same_scenario(#[trigger] before[c2].scenarios@[t], new[c2].scenarios@[t]) by {
                                assert(same_scenario(before[c2].scenarios@[t], now[c2].scenarios@[t]));
                                if t == sx {
                                    assert forall|k: int| 0 <= k < before[c2].scenarios@[t].checks@.len() implies same_check(#[trigger] before[c2].scenarios@[t].checks@[k], new[c2].scenarios@[t].checks@[k]) by {
                                        assert(same_check(before[c2].scenarios@[t].checks@[k], now[c2].scenarios@[t].checks@[k]));
                                    }
                                }
                            }
                        }
                    }
                    assert forall|c2: int, s2: int, k2: int| 0 <= c2 < before.len() && 0 <= s2 < before[c2].scenarios@.len() && 0 <= k2 < before[c2].scenarios@[s2].checks@.len()
                        implies (#[trigger] new[c2].scenarios@[s2].checks@[k2]).ids@ == before[c2].scenarios@[s2].checks@[k2].ids@ + ids_for(es.take(j + 1), c2, s2, k2) by {
                        lemma_ids_for_push(es.take(j as int), e@, c2, s2, k2);
                        assert(same_campaign(before[c2], now[c2]));
                        assert(same_scenario(before[c2].scenarios@[s2], now[c2].scenarios@[s2]));
                        if c2 == cx && s2 == sx && k2 == ki {
                            assert(now[c2].scenarios@[s2].checks@[k2].ids@ == before[c2].scenarios@[s2].checks@[k2].ids@ + ids_for(es.take(j as int), c2, s2, k2));
                        } else {
                            assert(new[c2].scenarios@[s2].checks@[k2] == now[c2].scenarios@[s2].checks@[k2]);
                        }
                    }
                }
            },
            _ => {
                proof {
                    assert forall|c2: int, s2: int, k2: int| 0 <= c2 < before.len() && 0 <= s2 < before[c2].scenarios@.len() && 0 <= k2 < before[c2].scenarios@[s2].checks@.len()
                        implies (#[trigger] data.campaigns@[c2].scenarios@[s2].checks@[k2]).ids@ == before[c2].scenarios@[s2].checks@[k2].ids@ + ids_for(es.take(j + 1), c2, s2, k2) by {
                        lemma_ids_for_push(es.take(j as int), e@, c2, s2, k2);
                    }
                }
            },
        }
        j = j + 1;
    }
    proof { assert(es.take(j as int) =~= es); }
}

/// Some request stands for the check at these places.
pub open spec fn requests_check(rs: Seq<Request>, cx: int, sx: int, ki: int) -> bool {
    exists|j: int| 0 <= j < rs.len() && (#[trigger] rs[j]).target == Target::Check(cx, sx, ki)
}

proof fn lemma_check_requests(ci: i64, s: Scenario, cx: int, sx: int, n: int)
    requires
        0 <= n <= s.checks@.len(),
    ensures
        forall|j: int| 0 <= j < check_requests(ci, s, cx, sx, n).len() ==> match (#[trigger] check_requests(ci, s, cx, sx, n)[j]).target {
            Target::Check(a, b, k) => a == cx && b == sx && 0 <= k < n,
            _ => false,
        },
        forall|k: int| 0 <= k < n ==> #[trigger] requests_check(check_requests(ci, s, cx, sx, n), cx, sx, k),
    decreases n,
{
    if n > 0 {
        lemma_check_requests(ci, s, cx, sx, n - 1);
        let a = check_requests(ci, s, cx, sx, n - 1);
        let b = one_check_requests(ci, s, cx, sx, n - 1);
        let r = check_requests(ci, s, cx, sx, n);
        assert(r == a + b);
        assert forall|j: int| 0 <= j < r.len() implies match (#[trigger] r[j]).target {
            Target::Check(x, y, k) => x == cx && y == sx && 0 <= k < n,
            _ => false,
        } by {
            if j < a.len() { assert(r[j] == a[j]); } else { assert(r[j] == b[j - a.len()]); }
        }
        assert forall|k: int| 0 <= k < n implies #[trigger] requests_check(r, cx, sx, k) by {
            if k < n - 1 {
                assert(requests_check(a, cx, sx, k));
                let j = choose|j: int| 0 <= j < a.len() && (#[trigger] a[j]).target == Target::Check(cx, sx, k);
                assert(r[j] == a[j]);
            } else {
                assert(check_size(s.checks@[n - 1]) >= 1) by (nonlinear_arith)
                    requires
                        check_size(s.checks@[n - 1]) == (if s.checks@[n - 1].victory > 0 {
                            (s.checks@[n - 1].victory * (if s.checks@[n - 1].count > 1 { s.checks@[n - 1].count as int } else { 1 })) as nat
                        } else { (if s.checks@[n - 1].count > 1 { s.checks@[n - 1].count as int } else { 1 }) as nat });
                assert(r[a.len() as int] == b[0]);
            }
        }
    }
}

proof fn lemma_location_requests(cname: Seq<char>, ci: i64, s: Scenario, cards: Seq<Card>, n: int)
    ensures
        forall|j: int| 0 <= j < location_requests(cname, ci, s, cards, n).len() ==> !((#[trigger] location_requests(cname, ci, s, cards, n)[j]).target is Check),
    decreases n,
{
    if n > 0 {
        lemma_location_requests(cname, ci, s, cards, n - 1);
        let a = location_requests(cname, ci, s, cards, n - 1);
        let r = location_requests(cname, ci, s, cards, n);
        assert forall|j: int| 0 <= j < r.len() implies !((#[trigger] r[j]).target is Check) by {
            if j < a.len() { assert(r[j] == a[j]); }
        }
    }
}

proof fn lemma_campaign_requests(c: Campaign, cx: int, cards: Seq<Card>, n: int)
    requires
        0 <= n <= c.scenarios@.len(),
    ensures
        forall|j: int| 0 <= j < campaign_requests(c, cx, cards, n).len() ==> match (#[trigger] campaign_requests(c, cx, cards, n)[j]).target {
            Target::Check(a, b, k) => a == cx && 0 <= b < n && 0 <= k < c.scenarios@[b].checks@.len(),
            _ => true,
        },
        forall|sx: int, k: int| 0 <= sx < n && 0 <= k < c.scenarios@[sx].checks@.len() ==> #[trigger] requests_check(campaign_requests(c, cx, cards, n), cx, sx, k),
    decreases n,
{
    if n > 0 {
        lemma_campaign_requests(c, cx, cards, n - 1);
        let s = c.scenarios@[n - 1];
        lemma_location_requests(c.name@, c.i, s, cards, s.locations@.len() as int);
        lemma_check_requests(c.i, s, cx, n - 1, s.checks@.len() as int);
        let a = campaign_requests(c, cx, cards, n - 1);
        let l = location_requests(c.name@, c.i, s, cards, s.locations@.len() as int);
        let k = check_requests(c.i, s, cx, n - 1, s.checks@.len() as int);
        let r = campaign_requests(c, cx, cards, n);
        assert(r == a + (l + k));
        assert forall|j: int| 0 <= j < r.len() implies match (#[trigger] r[j]).target {
            Target::Check(x, b, q) => x == cx && 0 <= b < n && 0 <= q < c.scenarios@[b].checks@.len(),
            _ => true,
        } by {
            if j < a.len() {
                assert(r[j] == a[j]);
            } else if j < a.len() + l.len() {
                assert(r[j] == l[j - a.len()]);
            } else {
                assert(r[j] == k[j - a.len() - l.len()]);
            }
        }
        assert forall|sx: int, q: int| 0 <= sx < n && 0 <= q < c.scenarios@[sx].checks@.len() implies #[trigger] requests_check(r, cx, sx, q) by {
            if sx < n - 1 {
                assert(requests_check(a, cx, sx, q));
                let j = choose|j: int| 0 <= j < a.len() && (#[trigger] a[j]).target == Target::Check(cx, sx, q);
                assert(r[j] == a[j]);
            } else {
                assert(requests_check(k, cx, sx, q));
                let j = choose|j: int| 0 <= j < k.len() && (#[trigger] k[j]).target == Target::Check(cx, sx, q);
                assert(r[a.len() + l.len() + j] == k[j]);
            }
        }
    }
}

/// The requests stand only for checks of the data, and every check of the
/// first `n` campaigns has one.
pub proof fn lemma_requests_targets(cs: Seq<Campaign>, cards: Seq<Card>, n: int)
    requires
        0 <= n <= cs.len(),
    ensures
        forall|j: int| 0 <= j < requests_upto(cs, cards, n).len() ==> match (#[trigger] requests_upto(cs, cards, n)[j]).target {
            Target::Check(cx, sx, ki) => 0 <= cx < n && 0 <= sx < cs[cx].scenarios@.len() && 0 <= ki < cs[cx].scenarios@[sx].checks@.len(),
            _ => true,
        },
        forall|cx: int, sx: int, ki: int| 0 <= cx < n && 0 <= sx < cs[cx].scenarios@.len() && 0 <= ki < cs[cx].scenarios@[sx].checks@.len()
            ==> #[trigger] requests_check(requests_upto(cs, cards, n), cx, sx, ki),
    decreases n,
{
    if n > 0 {
        lemma_requests_targets(cs, cards, n - 1);
        let c = cs[n - 1];
        lemma_campaign_requests(c, n - 1, cards, c.scenarios@.len() as int);
        let a = requests_upto(cs, cards, n - 1);
        let b = campaign_requests(c, n - 1, cards, c.scenarios@.len() as int);
        let r = requests_upto(cs, cards, n);
        assert(r == a + b);
        assert forall|j: int| 0 <= j < r.len() implies match (#[trigger] r[j]).target {
            Target::Check(cx, sx, ki) => 0 <= cx < n && 0 <= sx < cs[cx].scenarios@.len() && 0 <= ki < cs[cx].scenarios@[sx].checks@.len(),
            _ => true,
        } by {
            if j < a.len() { assert(r[j] == a[j]); } else { assert(r[j] == b[j - a.len()]); }
        }
        assert forall|cx: int, sx: int, ki: int| 0 <= cx < n && 0 <= sx < cs[cx].scenarios@.len() && 0 <= ki < cs[cx].scenarios@[sx].checks@.len()
            implies #[trigger] requests_check(r, cx, sx, ki) by {
            if cx < n - 1 {
                assert(requests_check(a, cx, sx, ki));
                let j = choose|j: int| 0 <= j < a.len() && (#[trigger] a[j]).target == Target::Check(cx, sx, ki);
                assert(r[j] == a[j]);
            } else {
                assert(requests_check(b, cx, sx, ki));
                let j = choose|j: int| 0 <= j < b.len() && (#[trigger] b[j]).target == Target::Check(cx, sx, ki);
                assert(r[a.len() + j] == b[j]);
            }
        }
    }
}

} // verus!
