//! The card list: cards read from the card database, corrected by the
//! overrides, with the names that only one card has.

use vstd::prelude::*;
use crate::cardcode::{Code, code_of_str, valid_code_str};
use crate::text::{escape_debug, escaped, push_str, string_of, chars_of};
use crate::generate::counter::{Counter, add_all, unique_values, lemma_unique_value_added};

verus! {

/// A card of the game.
pub struct Card {
    pub code: Code,
    pub type_code: String,
    pub faction: Option<String>,
    pub name: String,
    pub subname: String,
    pub image: Option<String>,
    pub clues: i64,
    pub victory: i64,
    pub unique: bool,
    pub is_encounter: bool,
    pub is_duplicate: bool,
    pub is_bonded: bool,
}

/// A card as the card database lists it.
pub struct RawCard {
    pub code: String,
    pub type_code: String,
    pub faction_name: Option<String>,
    pub alternate_of_code: Option<String>,
    pub duplicate_of_code: Option<String>,
    pub real_name: String,
    pub subname: String,
    pub bonded_to: Option<String>,
    pub imagesrc: Option<String>,
    pub backimagesrc: Option<String>,
    pub clues: i64,
    pub victory: i64,
    pub spoiler: i64,
}

/// Corrections to a card of the database.
pub struct RawCardOverride {
    pub code: String,
    pub type_code: Option<String>,
    pub faction_name: Option<String>,
    pub real_name: Option<String>,
    pub subname: Option<String>,
    pub image: Option<String>,
    pub clues: Option<i64>,
    pub victory: Option<i64>,
    pub spoiler: Option<i64>,
}

/// The value of a card.
pub struct CardView {
    pub code: Code,
    pub type_code: Seq<char>,
    pub faction: Option<Seq<char>>,
    pub name: Seq<char>,
    pub subname: Seq<char>,
    pub image: Option<Seq<char>>,
    pub clues: i64,
    pub victory: i64,
    pub unique: bool,
    pub is_encounter: bool,
    pub is_duplicate: bool,
    pub is_bonded: bool,
}

/// The view of an optional string.
pub open spec fn opt_view(o: Option<String>) -> Option<Seq<char>> {
    match o { Some(s) => Some(s@), None => None }
}

/// The escaped view of an optional string.
pub open spec fn opt_escaped(o: Option<String>) -> Option<Seq<char>> {
    match o { Some(s) => Some(escaped(s@)), None => None }
}

impl Card {
    pub open spec fn view(self) -> CardView {
        CardView {
            code: self.code,
            type_code: self.type_code@,
            faction: opt_view(self.faction),
            name: self.name@,
            subname: self.subname@,
            image: opt_view(self.image),
            clues: self.clues,
            victory: self.victory,
            unique: self.unique,
            is_encounter: self.is_encounter,
            is_duplicate: self.is_duplicate,
            is_bonded: self.is_bonded,
        }
    }
}

/// The name a database card is listed under: escaped, with ` (Parallel)`
/// for an alternate version.
pub open spec fn raw_name(raw: RawCard) -> Seq<char> {
    if raw.alternate_of_code is None {
        escaped(raw.real_name@)
    } else {
        escaped(raw.real_name@) + " (Parallel)"@
    }
}

/// The card that a database card becomes.
pub open spec fn raw_view(raw: RawCard) -> CardView {
    CardView {
        code: code_of_str(raw.code@),
        type_code: raw.type_code@,
        faction: opt_escaped(raw.faction_name),
        name: raw_name(raw),
        subname: escaped(raw.subname@),
        image: opt_escaped(if raw.imagesrc is Some { raw.imagesrc } else { raw.backimagesrc }),
        clues: raw.clues,
        victory: raw.victory,
        unique: false,
        is_encounter: raw.spoiler > 0,
        is_duplicate: raw.duplicate_of_code is Some,
        is_bonded: raw.bonded_to is Some,
    }
}

/// A card after its corrections.
pub open spec fn override_view(c: CardView, o: RawCardOverride) -> CardView {
    CardView {
        type_code: match o.type_code { Some(t) => t@, None => c.type_code },
        faction: match o.faction_name { Some(f) => Some(f@), None => c.faction },
        name: match o.real_name { Some(n) => n@, None => c.name },
        subname: match o.subname { Some(n) => n@, None => c.subname },
        image: match o.image { Some(i) => Some(i@), None => c.image },
        clues: match o.clues { Some(v) => v, None => c.clues },
        victory: match o.victory { Some(v) => v, None => c.victory },
        is_encounter: match o.spoiler { Some(v) => v > 0, None => c.is_encounter },
        ..c
    }
}

/// Adds a card, replacing the card with the same code.
pub open spec fn put_card(cs: Seq<CardView>, c: CardView) -> Seq<CardView> {
    if exists|i: int| 0 <= i < cs.len() && (#[trigger] cs[i]).code == c.code {
        let i = choose|i: int| 0 <= i < cs.len() && (#[trigger] cs[i]).code == c.code;
        cs.update(i, c)
    } else {
        cs.push(c)
    }
}

/// The cards of the database, in the order their codes first appear.
pub open spec fn raw_cards(raws: Seq<RawCard>) -> Seq<CardView>
    decreases raws.len(),
{
    if raws.len() == 0 {
        Seq::empty()
    } else {
        put_card(raw_cards(raws.drop_last()), raw_view(raws.last()))
    }
}

/// Applies corrections to the card with their code.
pub open spec fn override_card(cs: Seq<CardView>, o: RawCardOverride) -> Seq<CardView> {
    let code = code_of_str(o.code@);
    let i = choose|i: int| 0 <= i < cs.len() && (#[trigger] cs[i]).code == code;
    cs.update(i, override_view(cs[i], o))
}

/// The cards after every correction, in order.
pub open spec fn overridden(cs: Seq<CardView>, os: Seq<RawCardOverride>) -> Seq<CardView>
    decreases os.len(),
{
    if os.len() == 0 {
        cs
    } else {
        override_card(overridden(cs, os.drop_last()), os.last())
    }
}

/// The names of the database cards, with their codes, in order.
pub open spec fn name_adds(raws: Seq<RawCard>) -> Seq<(Seq<char>, Code)> {
    raws.map_values(|r: RawCard| (raw_name(r), code_of_str(r.code@)))
}

/// Marks the card with code `k` unique.
pub open spec fn mark_unique(cs: Seq<CardView>, k: Code) -> Seq<CardView> {
    let i = choose|i: int| 0 <= i < cs.len() && (#[trigger] cs[i]).code == k;
    cs.update(i, CardView { unique: true, ..cs[i] })
}

/// Marks unique the cards with each code in turn.
pub open spec fn mark_all(cs: Seq<CardView>, ks: Seq<Code>) -> Seq<CardView>
    decreases ks.len(),
{
    if ks.len() == 0 {
        cs
    } else {
        mark_unique(mark_all(cs, ks.drop_last()), ks.last())
    }
}

/// The card list made from the database cards and the corrections.
pub open spec fn cards_spec(raws: Seq<RawCard>, os: Seq<RawCardOverride>) -> Seq<CardView> {
    mark_all(overridden(raw_cards(raws), os), unique_values(add_all(name_adds(raws))))
}

/// Codes are distinct.
pub open spec fn distinct_codes(cs: Seq<CardView>) -> bool {
    forall|i: int, j: int| 0 <= i < cs.len() && 0 <= j < cs.len() && i != j ==> (#[trigger] cs[i]).code != (#[trigger] cs[j]).code
}

/// The input that `get_cards` reads without panicking: valid codes, and
/// corrections only for cards that exist.
pub open spec fn valid_card_input(raws: Seq<RawCard>, os: Seq<RawCardOverride>) -> bool {
    &&& forall|i: int| 0 <= i < raws.len() ==> valid_code_str((#[trigger] raws[i]).code@)
    &&& forall|k: int| 0 <= k < os.len() ==> valid_code_str((#[trigger] os[k]).code@)
    &&& forall|k: int| 0 <= k < os.len() ==> exists|i: int| 0 <= i < raws.len() && code_of_str((#[trigger] raws[i]).code@) == code_of_str((#[trigger] os[k]).code@)
}

fn escape_opt(o: &Option<String>) -> (res: Option<String>)
    ensures
        opt_view(res) == opt_escaped(*o),
{
    match o {
        Some(s) => Some(escape_debug(s.as_str())),
        None => None,
    }
}

fn clone_opt(o: &Option<String>) -> (res: Option<String>)
    ensures
        opt_view(res) == opt_view(*o),
{
    match o {
        Some(s) => Some(s.clone()),
        None => None,
    }
}

impl Card {
    /// The card that a database card becomes.
    pub fn from_raw(raw: &RawCard) -> (res: Card)
        requires
            valid_code_str(raw.code@),
        ensures
            res@ == raw_view(*raw),
    {
        let name = if raw.alternate_of_code.is_none() {
            escape_debug(raw.real_name.as_str())
        } else {
            let mut n = escape_debug(raw.real_name.as_str());
            push_str(&mut n, " (Parallel)");
            n
        };
        let image = if raw.imagesrc.is_some() { escape_opt(&raw.imagesrc) } else { escape_opt(&raw.backimagesrc) };
        Card {
            code: Code::from_str(raw.code.as_str()),
            type_code: raw.type_code.clone(),
            faction: escape_opt(&raw.faction_name),
            name,
            subname: escape_debug(raw.subname.as_str()),
            image,
            clues: raw.clues,
            victory: raw.victory,
            unique: false,
            is_encounter: raw.spoiler > 0,
            is_duplicate: raw.duplicate_of_code.is_some(),
            is_bonded: raw.bonded_to.is_some(),
        }
    }

    /// The name, with the subname in parentheses when there is one.
    pub fn full_name(&self) -> (res: String)
        ensures
            res@ == if self.subname@.len() == 0 { self.name@ } else { self.name@ + " ("@ + self.subname@ + ")"@ },
    {
        if self.subname.as_str().is_empty() {
            self.name.clone()
        } else {
            let mut s = self.name.clone();
            push_str(&mut s, " (");
            push_str(&mut s, self.subname.as_str());
            push_str(&mut s, ")");
            s
        }
    }

    /// The name, alone when no other card has it, else the full name.
    pub fn unique_name(&self) -> (res: String)
        ensures
            res@ == unique_name_spec(self@),
    {
        if self.unique { self.name.clone() } else { self.full_name() }
    }

    fn apply(&mut self, o: &RawCardOverride)
        ensures
            final(self)@ == override_view(old(self)@, *o),
    {
        match &o.type_code { Some(t) => { self.type_code = t.clone(); }, None => {} }
        match &o.faction_name { Some(f) => { self.faction = Some(f.clone()); }, None => {} }
        match &o.real_name { Some(n) => { self.name = n.clone(); }, None => {} }
        match &o.subname { Some(n) => { self.subname = n.clone(); }, None => {} }
        match &o.image { Some(i) => { self.image = Some(i.clone()); }, None => {} }
        match o.clues { Some(v) => { self.clues = v; }, None => {} }
        match o.victory { Some(v) => { self.victory = v; }, None => {} }
        match o.spoiler { Some(v) => { self.is_encounter = v > 0; }, None => {} }
    }
}

/// The name a card is shown under: alone when no other card has it, else
/// with its subname.
pub open spec fn unique_name_spec(c: CardView) -> Seq<char> {
    if c.unique {
        c.name
    } else if c.subname.len() == 0 {
        c.name
    } else {
        c.name + " ("@ + c.subname + ")"@
    }
}

/// The values of a list of cards.
pub open spec fn card_views(cs: Seq<Card>) -> Seq<CardView> {
    cs.map_values(|c: Card| c@)
}

/// Some card has code `k`.
pub open spec fn has_code(cs: Seq<CardView>, k: Code) -> bool {
    exists|i: int| 0 <= i < cs.len() && (#[trigger] cs[i]).code == k
}

fn find_card(cards: &Vec<Card>, k: Code) -> (res: Option<usize>)
    ensures
        match res {
            Some(i) => i < cards@.len() && cards@[i as int].code == k,
            None => !has_code(card_views(cards@), k),
        },
{
    let mut i: usize = 0;
    while i < cards.len()
        invariant
            i <= cards@.len(),
            forall|j: int| 0 <= j < i ==> (#[trigger] cards@[j]).code != k,
        decreases cards@.len() - i,
    {
        if cards[i].code == k {
            return Some(i);
        }
        i = i + 1;
    }
    proof {
        let cs = card_views(cards@);
        assert forall|j: int| 0 <= j < cs.len() implies (#[trigger] cs[j]).code != k by {
            assert(cs[j] == cards@[j]@);
        }
    }
    None
}

/// Adds a card, replacing the card with the same code.
fn insert_card(cards: &mut Vec<Card>, card: Card)
    requires
        distinct_codes(card_views(old(cards)@)),
    ensures
        distinct_codes(card_views(final(cards)@)),
        card_views(final(cards)@) == put_card(card_views(old(cards)@), card@),
        forall|k: Code| #[trigger] has_code(card_views(final(cards)@), k) <==> has_code(card_views(old(cards)@), k) || k == card.code,
{
    let ghost cs = card_views(cards@);
    let ghost c = card@;
    match find_card(cards, card.code) {
        Some(i) => {
            proof {
                assert(cs[i as int].code == c.code);
                let k = choose|k: int| 0 <= k < cs.len() && (#[trigger] cs[k]).code == c.code;
                assert(k == i);
            }
            cards.set(i, card);
            proof {
                let ns = card_views(cards@);
                assert(ns =~= cs.update(i as int, c));
                assert forall|a: int| 0 <= a < ns.len() implies (#[trigger] ns[a]).code == cs[a].code by {}
                assert forall|k: Code| #[trigger] has_code(ns, k) <==> has_code(cs, k) || k == c.code by {
                    if has_code(ns, k) {
                        let a = choose|a: int| 0 <= a < ns.len() && (#[trigger] ns[a]).code == k;
                        assert(cs[a].code == k);
                    }
                    if has_code(cs, k) {
                        let a = choose|a: int| 0 <= a < cs.len() && (#[trigger] cs[a]).code == k;
                        assert(ns[a].code == k);
                    }
                    if k == c.code {
                        assert(ns[i as int].code == k);
                    }
                }
            }
        },
        None => {
            cards.push(card);
            proof {
                let ns = card_views(cards@);
                assert(ns =~= cs.push(c));
                assert forall|k: Code| #[trigger] has_code(ns, k) <==> has_code(cs, k) || k == c.code by {
                    if has_code(ns, k) {
                        let a = choose|a: int| 0 <= a < ns.len() && (#[trigger] ns[a]).code == k;
                        if a < cs.len() { assert(cs[a].code == k); }
                    }
                    if has_code(cs, k) {
                        let a = choose|a: int| 0 <= a < cs.len() && (#[trigger] cs[a]).code == k;
                        assert(ns[a].code == k);
                    }
                    if k == c.code {
                        assert(ns[cs.len() as int].code == k);
                    }
                }
            }
        },
    }
}

/// Applies the corrections of `o` to the card with its code.
fn apply_override(cards: &mut Vec<Card>, o: &RawCardOverride)
    requires
        distinct_codes(card_views(old(cards)@)),
        valid_code_str(o.code@),
        has_code(card_views(old(cards)@), code_of_str(o.code@)),
    ensures
        distinct_codes(card_views(final(cards)@)),
        card_views(final(cards)@) == override_card(card_views(old(cards)@), *o),
        forall|k: Code| #[trigger] has_code(card_views(final(cards)@), k) == has_code(card_views(old(cards)@), k),
{
    let ghost cs = card_views(cards@);
    let code = Code::from_str(o.code.as_str());
    match find_card(cards, code) {
        Some(i) => {
            proof {
                assert(cs[i as int].code == code);
                let k = choose|k: int| 0 <= k < cs.len() && (#[trigger] cs[k]).code == code;
                assert(k == i);
            }
            let entry = &mut cards[i];
            entry.apply(o);
            proof {
                let ns = card_views(cards@);
                assert(ns =~= cs.update(i as int, override_view(cs[i as int], *o)));
                assert forall|a: int| 0 <= a < ns.len() implies (#[trigger] ns[a]).code == cs[a].code by {}
                assert forall|k: Code| #[trigger] has_code(ns, k) == has_code(cs, k) by {
                    if has_code(ns, k) {
                        let a = choose|a: int| 0 <= a < ns.len() && (#[trigger] ns[a]).code == k;
                        assert(cs[a].code == k);
                    }
                    if has_code(cs, k) {
                        let a = choose|a: int| 0 <= a < cs.len() && (#[trigger] cs[a]).code == k;
                        assert(ns[a].code == k);
                    }
                }
            }
        },
        None => {},
    }
}

/// Marks unique the card with code `k`.
fn mark_card(cards: &mut Vec<Card>, code: Code)
    requires
        distinct_codes(card_views(old(cards)@)),
        has_code(card_views(old(cards)@), code),
    ensures
        distinct_codes(card_views(final(cards)@)),
        card_views(final(cards)@) == mark_unique(card_views(old(cards)@), code),
        forall|k: Code| #[trigger] has_code(card_views(final(cards)@), k) == has_code(card_views(old(cards)@), k),
{
    let ghost cs = card_views(cards@);
    match find_card(cards, code) {
        Some(i) => {
            proof {
                assert(cs[i as int].code == code);
                let k = choose|k: int| 0 <= k < cs.len() && (#[trigger] cs[k]).code == code;
                assert(k == i);
            }
            let entry = &mut cards[i];
            entry.unique = true;
            proof {
                let ns = card_views(cards@);
                assert(ns =~= cs.update(i as int, CardView { unique: true, ..cs[i as int] }));
                assert forall|a: int| 0 <= a < ns.len() implies (#[trigger] ns[a]).code == cs[a].code by {}
                assert forall|k: Code| #[trigger] has_code(ns, k) == has_code(cs, k) by {
                    if has_code(ns, k) {
                        let a = choose|a: int| 0 <= a < ns.len() && (#[trigger] ns[a]).code == k;
                        assert(cs[a].code == k);
                    }
                    if has_code(cs, k) {
                        let a = choose|a: int| 0 <= a < cs.len() && (#[trigger] cs[a]).code == k;
                        assert(ns[a].code == k);
                    }
                }
            }
        },
        None => {},
    }
}

/// The card list: every database card, in the order its code first appears
/// (a later card with the same code replaces the earlier one), with the
/// corrections applied in order, and marked unique where no other database
/// card bears its name.
pub fn get_cards(raws: &Vec<RawCard>, overrides: &Vec<RawCardOverride>) -> (res: Vec<Card>)
    requires
        valid_card_input(raws@, overrides@),
    ensures
        card_views(res@) == cards_spec(raws@, overrides@),
        distinct_codes(card_views(res@)),
        forall|j: int| 0 <= j < raws@.len() ==> has_code(card_views(res@), code_of_str((#[trigger] raws@[j]).code@)),
{
    let mut cards: Vec<Card> = Vec::new();
    let mut names: Counter<Code> = Counter::new();
    let mut i: usize = 0;
    assert(card_views(cards@) =~= raw_cards(raws@.take(0)));
    assert(name_adds(raws@.take(0)) =~= Seq::empty());
    while i < raws.len()
        invariant
            i <= raws@.len(),
            valid_card_input(raws@, overrides@),
            names.wf(),
            names.entries() == add_all(name_adds(raws@.take(i as int))),
            card_views(cards@) == raw_cards(raws@.take(i as int)),
            distinct_codes(card_views(cards@)),
            forall|j: int| 0 <= j < i ==> has_code(card_views(cards@), code_of_str((#[trigger] raws@[j]).code@)),
        decreases raws@.len() - i,
    {
        let ghost pre = raws@.take(i as int);
        proof {
            assert(raws@.take(i + 1).drop_last() =~= pre);
            assert(name_adds(raws@.take(i + 1)).drop_last() =~= name_adds(pre));
            assert(valid_code_str(raws@[i as int].code@));
        }
        let card = Card::from_raw(&raws[i]);
        names.add(card.name.clone(), card.code);
        insert_card(&mut cards, card);
        proof {
            assert(name_adds(raws@.take(i + 1)).last() == (raw_name(raws@[i as int]), code_of_str(raws@[i as int].code@)));
        }
        i = i + 1;
    }
    proof {
        assert(raws@.take(raws@.len() as int) =~= raws@);
    }
    let ghost base = card_views(cards@);
    let mut k: usize = 0;
    while k < overrides.len()
        invariant
            k <= overrides@.len(),
            valid_card_input(raws@, overrides@),
            card_views(cards@) == overridden(base, overrides@.take(k as int)),
            distinct_codes(card_views(cards@)),
            forall|j: int| 0 <= j < raws@.len() ==> has_code(card_views(cards@), code_of_str((#[trigger] raws@[j]).code@)),
        decreases overrides@.len() - k,
    {
        proof {
            assert(overrides@.take(k + 1).drop_last() =~= overrides@.take(k as int));
            assert(valid_code_str(overrides@[k as int].code@));
            let j = choose|j: int| 0 <= j < raws@.len() && code_of_str((#[trigger] raws@[j]).code@) == code_of_str(overrides@[k as int].code@);
            assert(has_code(card_views(cards@), code_of_str(raws@[j].code@)));
        }
        apply_override(&mut cards, &overrides[k]);
        k = k + 1;
    }
    proof {
        assert(overrides@.take(overrides@.len() as int) =~= overrides@);
    }
    let uniq = names.unique();
    let ghost marked_base = card_views(cards@);
    let mut m: usize = 0;
    while m < uniq.len()
        invariant
            m <= uniq@.len(),
            uniq@ == unique_values(add_all(name_adds(raws@))),
            card_views(cards@) == mark_all(marked_base, uniq@.take(m as int)),
            distinct_codes(card_views(cards@)),
            forall|j: int| 0 <= j < raws@.len() ==> has_code(card_views(cards@), code_of_str((#[trigger] raws@[j]).code@)),
        decreases uniq@.len() - m,
    {
        proof {
            assert(uniq@.take(m + 1).drop_last() =~= uniq@.take(m as int));
            lemma_unique_value_added(name_adds(raws@), m as int);
            let j = choose|j: int| 0 <= j < name_adds(raws@).len() && (#[trigger] name_adds(raws@)[j]).1 == uniq@[m as int];
            assert(name_adds(raws@)[j].1 == code_of_str(raws@[j].code@));
        }
        mark_card(&mut cards, uniq[m]);
        m = m + 1;
    }
    proof {
        assert(uniq@.take(uniq@.len() as int) =~= uniq@);
    }
    cards
}

proof fn lemma_raw_cards(raws: Seq<RawCard>)
    ensures
        distinct_codes(raw_cards(raws)),
        forall|j: int| 0 <= j < raws.len() ==> has_code(raw_cards(raws), code_of_str((#[trigger] raws[j]).code@)),
    decreases raws.len(),
{
    if raws.len() > 0 {
        let d = raws.drop_last();
        lemma_raw_cards(d);
        let cs = raw_cards(d);
        let c = raw_view(raws.last());
        let r = raw_cards(raws);
        assert(r == put_card(cs, c));
        if exists|i: int| 0 <= i < cs.len() && (#[trigger] cs[i]).code == c.code {
            let i = choose|i: int| 0 <= i < cs.len() && (#[trigger] cs[i]).code == c.code;
            assert(r == cs.update(i, c));
            assert forall|a: int, b: int| 0 <= a < r.len() && 0 <= b < r.len() && a != b implies (#[trigger] r[a]).code != (#[trigger] r[b]).code by {
                assert(r[a].code == cs[a].code && r[b].code == cs[b].code);
            }
            assert forall|j: int| 0 <= j < raws.len() implies has_code(r, code_of_str((#[trigger] raws[j]).code@)) by {
                if j < d.len() {
                    assert(d[j] == raws[j]);
                    let q = choose|q: int| 0 <= q < cs.len() && (#[trigger] cs[q]).code == code_of_str(d[j].code@);
                    assert(r[q].code == cs[q].code);
                } else {
                    assert(r[i].code == c.code);
                }
            }
        } else {
            assert(r == cs.push(c));
            assert forall|a: int, b: int| 0 <= a < r.len() && 0 <= b < r.len() && a != b implies (#[trigger] r[a]).code != (#[trigger] r[b]).code by {
                if a < cs.len() && b < cs.len() {
                    assert(r[a] == cs[a] && r[b] == cs[b]);
                } else if a < cs.len() {
                    assert(r[a] == cs[a]);
                } else if b < cs.len() {
                    assert(r[b] == cs[b]);
                }
            }
            assert forall|j: int| 0 <= j < raws.len() implies has_code(r, code_of_str((#[trigger] raws[j]).code@)) by {
                if j < d.len() {
                    assert(d[j] == raws[j]);
                    let q = choose|q: int| 0 <= q < cs.len() && (#[trigger] cs[q]).code == code_of_str(d[j].code@);
                    assert(r[q] == cs[q]);
                } else {
                    assert(r[cs.len() as int] == c);
                }
            }
        }
    }
}

/// Corrections keep every card at its place, with its code.
proof fn lemma_overridden_codes(cs: Seq<CardView>, os: Seq<RawCardOverride>)
    requires
        forall|k: int| 0 <= k < os.len() ==> has_code(cs, code_of_str((#[trigger] os[k]).code@)),
    ensures
        overridden(cs, os).len() == cs.len(),
        forall|i: int| 0 <= i < cs.len() ==> (#[trigger] overridden(cs, os)[i]).code == cs[i].code,
    decreases os.len(),
{
    if os.len() > 0 {
        let d = os.drop_last();
        assert forall|k: int| 0 <= k < d.len() implies has_code(cs, code_of_str((#[trigger] d[k]).code@)) by {
            assert(d[k] == os[k]);
        }
        lemma_overridden_codes(cs, d);
        let prev = overridden(cs, d);
        let code = code_of_str(os.last().code@);
        assert(has_code(cs, code_of_str(os[os.len() - 1].code@)));
        let q = choose|q: int| 0 <= q < cs.len() && (#[trigger] cs[q]).code == code;
        assert(prev[q].code == code);
        let i = choose|i: int| 0 <= i < prev.len() && (#[trigger] prev[i]).code == code;
        assert(overridden(cs, os) == prev.update(i, override_view(prev[i], os.last())));
    }
}

proof fn lemma_overridden_victory(cs: Seq<CardView>, os: Seq<RawCardOverride>, k: int, v: i64, p: int)
    requires
        distinct_codes(cs),
        forall|m: int| 0 <= m < os.len() ==> has_code(cs, code_of_str((#[trigger] os[m]).code@)),
        0 <= k < os.len(),
        os[k].victory == Some(v),
        forall|j: int| k < j < os.len() && code_of_str((#[trigger] os[j]).code@) == code_of_str(os[k].code@) ==> os[j].victory is None,
        0 <= p < cs.len(),
        cs[p].code == code_of_str(os[k].code@),
    ensures
        overridden(cs, os)[p].victory == v,
    decreases os.len(),
{
    let d = os.drop_last();
    assert forall|m: int| 0 <= m < d.len() implies has_code(cs, code_of_str((#[trigger] d[m]).code@)) by {
        assert(d[m] == os[m]);
    }
    lemma_overridden_codes(cs, d);
    let prev = overridden(cs, d);
    let o = os.last();
    let code = code_of_str(o.code@);
    assert(has_code(cs, code_of_str(os[os.len() - 1].code@)));
    let q = choose|q: int| 0 <= q < cs.len() && (#[trigger] cs[q]).code == code;
    assert(prev[q].code == code);
    let i = choose|i: int| 0 <= i < prev.len() && (#[trigger] prev[i]).code == code;
    assert(overridden(cs, os) == prev.update(i, override_view(prev[i], o)));
    assert(prev[i].code == cs[i].code);
    if k == os.len() - 1 {
        assert(i == p) by {
            if i != p { assert(cs[i].code != cs[p].code); }
        }
    } else {
        assert forall|j: int| k < j < d.len() && code_of_str((#[trigger] d[j]).code@) == code_of_str(d[k].code@) implies d[j].victory is None by {
            assert(d[j] == os[j]);
        }
        lemma_overridden_victory(cs, d, k, v, p);
        if i == p {
            assert(os[os.len() - 1].victory is None);
        }
    }
}

proof fn lemma_mark_all_keeps(cs: Seq<CardView>, ks: Seq<Code>)
    requires
        forall|m: int| 0 <= m < ks.len() ==> has_code(cs, #[trigger] ks[m]),
    ensures
        mark_all(cs, ks).len() == cs.len(),
        forall|i: int| 0 <= i < cs.len() ==> (#[trigger] mark_all(cs, ks)[i]).code == cs[i].code
            && mark_all(cs, ks)[i].victory == cs[i].victory,
    decreases ks.len(),
{
    if ks.len() > 0 {
        let d = ks.drop_last();
        assert forall|m: int| 0 <= m < d.len() implies has_code(cs, #[trigger] d[m]) by {
            assert(d[m] == ks[m]);
        }
        lemma_mark_all_keeps(cs, d);
        let prev = mark_all(cs, d);
        let k = ks.last();
        assert(has_code(cs, ks[ks.len() - 1]));
        let q = choose|q: int| 0 <= q < cs.len() && (#[trigger] cs[q]).code == k;
        assert(prev[q].code == k);
        let i = choose|i: int| 0 <= i < prev.len() && (#[trigger] prev[i]).code == k;
        assert(mark_all(cs, ks) == prev.update(i, CardView { unique: true, ..prev[i] }));
    }
}

/// A correction that gives a card's victory points sets them: after the
/// last correction of a code that gives victory points, the card with
/// that code has those victory points (corrections of the code that give
/// none after it leave them).
pub proof fn lemma_victory_correction(raws: Seq<RawCard>, os: Seq<RawCardOverride>, k: int, v: i64)
    requires
        valid_card_input(raws, os),
        0 <= k < os.len(),
        os[k].victory == Some(v),
        forall|j: int| k < j < os.len() && code_of_str((#[trigger] os[j]).code@) == code_of_str(os[k].code@) ==> os[j].victory is None,
    ensures
        has_code(cards_spec(raws, os), code_of_str(os[k].code@)),
        forall|i: int| 0 <= i < cards_spec(raws, os).len() && (#[trigger] cards_spec(raws, os)[i]).code == code_of_str(os[k].code@)
            ==> cards_spec(raws, os)[i].victory == v,
{
    let base = raw_cards(raws);
    lemma_raw_cards(raws);
    assert forall|m: int| 0 <= m < os.len() implies has_code(base, code_of_str((#[trigger] os[m]).code@)) by {
        let j = choose|j: int| 0 <= j < raws.len() && code_of_str((#[trigger] raws[j]).code@) == code_of_str(os[m].code@);
        assert(has_code(base, code_of_str(raws[j].code@)));
    }
    lemma_overridden_codes(base, os);
    let ov = overridden(base, os);
    let ks = unique_values(add_all(name_adds(raws)));
    assert forall|m: int| 0 <= m < ks.len() implies has_code(ov, #[trigger] ks[m]) by {
        lemma_unique_value_added(name_adds(raws), m);
        let j = choose|j: int| 0 <= j < name_adds(raws).len() && (#[trigger] name_adds(raws)[j]).1 == ks[m];
        assert(name_adds(raws)[j].1 == code_of_str(raws[j].code@));
        assert(has_code(base, code_of_str(raws[j].code@)));
        let q = choose|q: int| 0 <= q < base.len() && (#[trigger] base[q]).code == code_of_str(raws[j].code@);
        assert(ov[q].code == base[q].code);
    }
    lemma_mark_all_keeps(ov, ks);
    let r = cards_spec(raws, os);
    let code = code_of_str(os[k].code@);
    let p = choose|p: int| 0 <= p < base.len() && (#[trigger] base[p]).code == code;
    lemma_overridden_victory(base, os, k, v, p);
    assert(r[p].code == code);
    assert forall|i: int| 0 <= i < r.len() && (#[trigger] r[i]).code == code implies r[i].victory == v by {
        assert(r[i].code == base[i].code);
        if i != p { assert(base[i].code != base[p].code); }
    }
}

/// Whether `get_cards` can read these database cards and corrections:
/// every code is valid, and every correction is for a database card.
pub fn card_input_ok(raws: &Vec<RawCard>, overrides: &Vec<RawCardOverride>) -> (res: bool)
    ensures
        res == valid_card_input(raws@, overrides@),
{
    let mut codes: Vec<Code> = Vec::new();
    let mut i: usize = 0;
    while i < raws.len()
        invariant
            i <= raws@.len(),
            codes@.len() == i,
            forall|j: int| 0 <= j < i ==> valid_code_str((#[trigger] raws@[j]).code@),
            forall|j: int| 0 <= j < i ==> codes@[j] == code_of_str(raws@[j].code@),
        decreases raws@.len() - i,
    {
        let cs = chars_of(raws[i].code.as_str());
        match Code::parse_chars(cs.as_slice()) {
            Some(c) => { codes.push(c); },
            None => { return false; },
        }
        i = i + 1;
    }
    let mut k: usize = 0;
    while k < overrides.len()
        invariant
            k <= overrides@.len(),
            codes@.len() == raws@.len(),
            forall|j: int| 0 <= j < raws@.len() ==> valid_code_str((#[trigger] raws@[j]).code@),
            forall|j: int| 0 <= j < raws@.len() ==> codes@[j] == code_of_str(raws@[j].code@),
            forall|q: int| 0 <= q < k ==> valid_code_str((#[trigger] overrides@[q]).code@),
            forall|q: int| 0 <= q < k ==> exists|i: int| 0 <= i < raws@.len() && code_of_str((#[trigger] raws@[i]).code@) == code_of_str((#[trigger] overrides@[q]).code@),
        decreases overrides@.len() - k,
    {
        let cs = chars_of(overrides[k].code.as_str());
        let c = match Code::parse_chars(cs.as_slice()) {
            Some(c) => c,
            None => { return false; },
        };
        let mut found = false;
        let mut j: usize = 0;
        while j < codes.len()
            invariant
                j <= codes@.len(),
                codes@.len() == raws@.len(),
                forall|q: int| 0 <= q < raws@.len() ==> codes@[q] == code_of_str(raws@[q].code@),
                found ==> exists|i: int| 0 <= i < raws@.len() && code_of_str((#[trigger] raws@[i]).code@) == c,
                !found ==> forall|q: int| 0 <= q < j ==> codes@[q] != c,
            decreases codes@.len() - j,
        {
            if codes[j] == c {
                assert(code_of_str(raws@[j as int].code@) == c);
                found = true;
            }
            j = j + 1;
        }
        if !found {
            proof {
                if exists|i: int| 0 <= i < raws@.len() && code_of_str((#[trigger] raws@[i]).code@) == code_of_str(overrides@[k as int].code@) {
                    let i = choose|i: int| 0 <= i < raws@.len() && code_of_str((#[trigger] raws@[i]).code@) == code_of_str(overrides@[k as int].code@);
                    assert(codes@[i] == c);
                }
            }
            return false;
        }
        k = k + 1;
    }
    true
}

} // verus!
