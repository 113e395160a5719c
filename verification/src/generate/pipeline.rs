//! From the card database, its corrections and the data files to the
//! client's Rust lookup functions, `Id.py` and `Data.py`.

use vstd::prelude::*;
use crate::cardcode::Code;
use crate::generate::card::{Card, CardView, RawCard, RawCardOverride, get_cards, card_input_ok, cards_spec, valid_card_input, card_views};
use crate::generate::data::{Data, Campaign, CampaignView, ScenarioView, campaign_views};
use crate::generate::group::{SourceLine, GroupError, try_group_data, group_spec, line_texts, lemma_group_spec_views};
use crate::generate::ids::{IdError, item_views, hashes_fit};
use crate::generate::name_hash::NameHash;
use crate::generate::package::{Datapackage, generate_id_py, id_outcome, ids_fine, hashes_named, all_checks_have_ids, location_map_view, goal_map_view};
use crate::generate::data_py::{generate_data_py, data_py, py_known, names_code, scenario_known, scenario_names};
use crate::generate::locations::{same_campaign, same_scenario, same_check};
use crate::generate::locations::card_for;
use crate::generate::source::{item_from_id_text, location_ids_text, get_card_text, get_campaign_text, get_scenario_text,
    can_follow_path_text, can_send_location_text, goal_text, checks_have_ids, push_item_from_id, push_get_clue_id,
    push_get_victory_id, push_get_card, push_get_campaign, push_get_scenario, push_can_follow_path, push_can_send_location,
    push_is_goal_location};
use crate::client::data::Tables;
use crate::client::tables::{client_tables, tables_from};

verus! {

/// Why the generated files could not be made.
pub enum GenerateError {
    /// A card code is invalid, or a correction is for a card the database lacks.
    BadCardInput,
    /// A line of the data files is wrong.
    Group(GroupError),
    /// Ids could not be assigned.
    Id(IdError),
    /// `Data.py` would name a card that the card list lacks.
    MissingCard(Code),
}

/// What is generated: the Rust lookup functions, `Id.py`, `Data.py`, and
/// the client's tables with the same entries as the lookup functions.
pub struct Generated {
    pub rust: String,
    pub id_py: String,
    pub data_py: String,
    pub tables: Tables,
}

/// The Rust lookup functions, in order: items by id, clue ids, victory
/// ids, cards, campaigns, scenarios, path rules, location rules, goals.
pub open spec fn source_text(cards: Seq<CardView>, cs: Seq<CampaignView>, p: Datapackage) -> Seq<char> {
    item_from_id_text(item_views(p.item_from_id@))
        + location_ids_text("get_clue_id"@, location_map_view(p.clue_ids@))
        + location_ids_text("get_victory_id"@, location_map_view(p.victory_ids@))
        + get_card_text(cards)
        + get_campaign_text(cs)
        + get_scenario_text(cs)
        + can_follow_path_text(cs)
        + can_send_location_text(cs)
        + goal_text(goal_map_view(p.goal_locations@))
}

/// The Rust lookup functions for the cards, the data with its location
/// ids, and the datapackage.
pub fn generate_source(cards: &Vec<Card>, data: &Data, p: &Datapackage) -> (res: String)
    requires
        checks_have_ids(campaign_views(data.campaigns@)),
    ensures
        res@ == source_text(card_views(cards@), campaign_views(data.campaigns@), *p),
{
    let mut s = String::new();
    push_item_from_id(&mut s, &p.item_from_id);
    push_get_clue_id(&mut s, &p.clue_ids);
    push_get_victory_id(&mut s, &p.victory_ids);
    push_get_card(&mut s, cards);
    push_get_campaign(&mut s, data);
    push_get_scenario(&mut s, data);
    push_can_follow_path(&mut s, data);
    push_can_send_location(&mut s, data);
    push_is_goal_location(&mut s, &p.goal_locations);
    s
}

/// What `generate_data` makes of its inputs, given the cards, the data
/// read from the files, the data with its ids and the datapackage.
pub open spec fn generated_from(raws: Seq<RawCard>, overrides: Seq<RawCardOverride>, lines: Seq<SourceLine>, prefix: Seq<char>,
    g: Generated, cards: Seq<Card>, read: Seq<Campaign>, numbered: Seq<Campaign>, p: Datapackage, uh: Seq<Vec<u64>>, fh: Seq<Vec<u64>>,
    ur: Seq<Seq<NameHash>>, fr: Seq<Seq<NameHash>>) -> bool
{
    &&& card_views(cards) == cards_spec(raws, overrides)
    &&& group_spec(line_texts(lines), cards) == Ok::<Seq<CampaignView>, GroupError>(campaign_views(read))
    &&& hashes_fit(read, uh, fh)
    &&& hashes_named(read, uh, fh, ur, fr)
    &&& id_outcome(read, cards, uh, fh, Ok((p, g.id_py)), numbered)
    &&& g.data_py@ == data_py(prefix, cards, campaign_views(numbered))
    &&& g.rust@ == source_text(card_views(cards), campaign_views(numbered), p)
    &&& tables_from(g.tables, card_views(cards), campaign_views(numbered), p)
}

/// Success: the texts are those of the stages' results.
pub open spec fn generated_ok(raws: Seq<RawCard>, overrides: Seq<RawCardOverride>, lines: Seq<SourceLine>, prefix: Seq<char>, g: Generated) -> bool {
    exists|cards: Seq<Card>, read: Seq<Campaign>, numbered: Seq<Campaign>, p: Datapackage, uh: Seq<Vec<u64>>, fh: Seq<Vec<u64>>,
        ur: Seq<Seq<NameHash>>, fr: Seq<Seq<NameHash>>|
        #[trigger] generated_from(raws, overrides, lines, prefix, g, cards, read, numbered, p, uh, fh, ur, fr)
}

/// The data files are wrong at a line.
pub open spec fn group_failed(raws: Seq<RawCard>, overrides: Seq<RawCardOverride>, lines: Seq<SourceLine>, e: GroupError) -> bool {
    exists|cards: Seq<Card>| card_views(cards) == cards_spec(raws, overrides)
        && #[trigger] group_spec(line_texts(lines), cards) == Err::<Seq<CampaignView>, GroupError>(e)
}

/// Ids could not be assigned to what the data files describe.
pub open spec fn id_failed(raws: Seq<RawCard>, overrides: Seq<RawCardOverride>, lines: Seq<SourceLine>, e: IdError) -> bool {
    exists|cards: Seq<Card>, read: Seq<Campaign>, uh: Seq<Vec<u64>>, fh: Seq<Vec<u64>>, ur: Seq<Seq<NameHash>>, fr: Seq<Seq<NameHash>>|
        card_views(cards) == cards_spec(raws, overrides)
        && group_spec(line_texts(lines), cards) == Ok::<Seq<CampaignView>, GroupError>(campaign_views(read))
        && hashes_fit(read, uh, fh) && #[trigger] hashes_named(read, uh, fh, ur, fr) && #[trigger] id_outcome(read, cards, uh, fh, Err(e), read)
}

/// The data files name card `k`, which the card list lacks.
pub open spec fn card_missing(raws: Seq<RawCard>, overrides: Seq<RawCardOverride>, lines: Seq<SourceLine>, k: Code) -> bool {
    exists|cards: Seq<Card>, read: Seq<Campaign>| card_views(cards) == cards_spec(raws, overrides)
        && group_spec(line_texts(lines), cards) == Ok::<Seq<CampaignView>, GroupError>(campaign_views(read))
        && #[trigger] names_code(campaign_views(read), k) && #[trigger] card_for(cards, k) is None
}

/// Success is owed: the card input is valid, the data files read without
/// error, and whatever the names' hashes turn out to be, ids can be given
/// to everything and every card the data names is in the card list.  (On
/// data without unlocks and filler no hash takes part.)
pub open spec fn success_owed(raws: Seq<RawCard>, overrides: Seq<RawCardOverride>, lines: Seq<SourceLine>) -> bool {
    &&& valid_card_input(raws, overrides)
    &&& forall|cards: Seq<Card>| card_views(cards) == cards_spec(raws, overrides)
        ==> (#[trigger] group_spec(line_texts(lines), cards)) is Ok
    &&& forall|cards: Seq<Card>, read: Seq<Campaign>, uh: Seq<Vec<u64>>, fh: Seq<Vec<u64>>|
        card_views(cards) == cards_spec(raws, overrides)
        && group_spec(line_texts(lines), cards) == Ok::<Seq<CampaignView>, GroupError>(campaign_views(read))
        && hashes_fit(read, uh, fh)
        ==> #[trigger] ids_fine(read, cards, uh, fh) && py_known(cards, campaign_views(read))
}

/// Two scenarios name the same cards in the same places.
pub open spec fn names_agree(p: ScenarioView, q: ScenarioView) -> bool {
    &&& p.locations == q.locations && p.begin == q.begin && p.paths == q.paths
    &&& p.checks.len() == q.checks.len()
    &&& forall|k: int| 0 <= k < p.checks.len() ==> #[trigger] p.checks[k].code == q.checks[k].code
}

/// Campaigns that differ only in the ids of their checks name the same
/// cards.
proof fn lemma_same_names(cards: Seq<Card>, a: Seq<Campaign>, b: Seq<Campaign>)
    requires
        a.len() == b.len(),
        forall|cx: int| 0 <= cx < a.len() ==> same_campaign(#[trigger] a[cx], b[cx]),
    ensures
        py_known(cards, campaign_views(a)) == py_known(cards, campaign_views(b)),
        forall|k: Code| #[trigger] names_code(campaign_views(a), k) == names_code(campaign_views(b), k),
{
    let va = campaign_views(a);
    let vb = campaign_views(b);
    assert forall|cx: int| 0 <= cx < va.len() implies {
        &&& (#[trigger] va[cx]).scenario_cards == vb[cx].scenario_cards
        &&& va[cx].scenarios.len() == vb[cx].scenarios.len()
        &&& forall|sx: int| 0 <= sx < va[cx].scenarios.len() ==> names_agree(#[trigger] va[cx].scenarios[sx], vb[cx].scenarios[sx])
    } by {
        assert(va[cx] == a[cx]@ && vb[cx] == b[cx]@);
        assert(same_campaign(a[cx], b[cx]));
        assert forall|sx: int| 0 <= sx < va[cx].scenarios.len() implies names_agree(#[trigger] va[cx].scenarios[sx], vb[cx].scenarios[sx]) by {
            let sa = a[cx].scenarios@[sx];
            let sb = b[cx].scenarios@[sx];
            assert(same_scenario(sa, sb));
            assert(va[cx].scenarios[sx] == sa@ && vb[cx].scenarios[sx] == sb@);
            assert forall|k: int| 0 <= k < sa@.checks.len() implies #[trigger] sa@.checks[k].code == sb@.checks[k].code by {
                assert(same_check(sa.checks@[k], sb.checks@[k]));
                assert(sa@.checks[k] == sa.checks@[k]@ && sb@.checks[k] == sb.checks@[k]@);
            }
        }
    }
    assert forall|cx: int, sx: int| 0 <= cx < va.len() && 0 <= sx < va[cx].scenarios.len()
        implies #[trigger] scenario_known(cards, va[cx].scenarios[sx]) == scenario_known(cards, vb[cx].scenarios[sx]) by {
        let p = va[cx].scenarios[sx];
        let q = vb[cx].scenarios[sx];
        assert(names_agree(p, q));
        if scenario_known(cards, p) {
            assert forall|k: int| 0 <= k < q.checks.len() implies #[trigger] card_for(cards, q.checks[k].code) is Some by {
                assert(p.checks[k].code == q.checks[k].code);
            }
        }
        if scenario_known(cards, q) {
            assert forall|k: int| 0 <= k < p.checks.len() implies #[trigger] card_for(cards, p.checks[k].code) is Some by {
                assert(p.checks[k].code == q.checks[k].code);
            }
        }
    }
    if py_known(cards, va) {
        assert forall|cx: int, k: int| 0 <= cx < vb.len() && 0 <= k < vb[cx].scenario_cards.len()
            implies #[trigger] card_for(cards, vb[cx].scenario_cards[k]) is Some by {
            assert(va[cx].scenario_cards == vb[cx].scenario_cards);
        }
        assert forall|cx: int, sx: int| 0 <= cx < vb.len() && 0 <= sx < vb[cx].scenarios.len()
            implies #[trigger] scenario_known(cards, vb[cx].scenarios[sx]) by {
            assert(scenario_known(cards, va[cx].scenarios[sx]) == scenario_known(cards, vb[cx].scenarios[sx]));
        }
    }
    if py_known(cards, vb) {
        assert forall|cx: int, k: int| 0 <= cx < va.len() && 0 <= k < va[cx].scenario_cards.len()
            implies #[trigger] card_for(cards, va[cx].scenario_cards[k]) is Some by {
            assert(va[cx].scenario_cards == vb[cx].scenario_cards);
        }
        assert forall|cx: int, sx: int| 0 <= cx < va.len() && 0 <= sx < va[cx].scenarios.len()
            implies #[trigger] scenario_known(cards, va[cx].scenarios[sx]) by {
            assert(scenario_known(cards, va[cx].scenarios[sx]) == scenario_known(cards, vb[cx].scenarios[sx]));
        }
    }
    assert forall|k: Code| #[trigger] names_code(va, k) == names_code(vb, k) by {
        if names_code(va, k) {
            let cx = choose|cx: int| 0 <= cx < va.len() && ((#[trigger] va[cx]).scenario_cards.contains(k)
                || exists|sx: int| 0 <= sx < va[cx].scenarios.len() && scenario_names(#[trigger] va[cx].scenarios[sx], k));
            assert(vb[cx].scenario_cards == va[cx].scenario_cards);
            if !va[cx].scenario_cards.contains(k) {
                let sx = choose|sx: int| 0 <= sx < va[cx].scenarios.len() && scenario_names(#[trigger] va[cx].scenarios[sx], k);
                let p = va[cx].scenarios[sx];
                let q = vb[cx].scenarios[sx];
                assert(names_agree(p, q));
                if exists|j: int| 0 <= j < p.checks.len() && (#[trigger] p.checks[j]).code == k {
                    let j = choose|j: int| 0 <= j < p.checks.len() && (#[trigger] p.checks[j]).code == k;
                    assert(q.checks[j].code == k);
                }
                assert(scenario_names(q, k));
            }
        }
        if names_code(vb, k) {
            let cx = choose|cx: int| 0 <= cx < vb.len() && ((#[trigger] vb[cx]).scenario_cards.contains(k)
                || exists|sx: int| 0 <= sx < vb[cx].scenarios.len() && scenario_names(#[trigger] vb[cx].scenarios[sx], k));
            assert(vb[cx].scenario_cards == va[cx].scenario_cards);
            if !vb[cx].scenario_cards.contains(k) {
                let sx = choose|sx: int| 0 <= sx < vb[cx].scenarios.len() && scenario_names(#[trigger] vb[cx].scenarios[sx], k);
                let p = va[cx].scenarios[sx];
                let q = vb[cx].scenarios[sx];
                assert(names_agree(p, q));
                if exists|j: int| 0 <= j < q.checks.len() && (#[trigger] q.checks[j]).code == k {
                    let j = choose|j: int| 0 <= j < q.checks.len() && (#[trigger] q.checks[j]).code == k;
                    assert(p.checks[j].code == k);
                }
                assert(scenario_names(p, k));
            }
        }
    }
}

/// Builds the client's files, as [`try_generate_data`] does, from inputs
/// without fault: the card input is valid, no line of the data files is
/// wrong, and every card the data files name is in the card list.
///
/// Ids that rest on the hashes of names may still be given twice; which
/// hashes this process computes no input can tell beforehand, so that
/// comes back as an [`IdError`].
pub fn generate_data(raws: &Vec<RawCard>, overrides: &Vec<RawCardOverride>, lines: &Vec<SourceLine>, prefix: &str)
    -> (res: Result<Generated, IdError>)
    requires
        valid_card_input(raws@, overrides@),
        forall|e: GroupError| !#[trigger] group_failed(raws@, overrides@, lines@, e),
        forall|k: Code| !#[trigger] card_missing(raws@, overrides@, lines@, k),
    ensures
        res matches Ok(g) ==> generated_ok(raws@, overrides@, lines@, prefix@, g),
        res matches Err(e) ==> id_failed(raws@, overrides@, lines@, e),
        success_owed(raws@, overrides@, lines@) ==> res is Ok,
{
    match try_generate_data(raws, overrides, lines, prefix) {
        Ok(g) => Ok(g),
        Err(GenerateError::Id(e)) => Err(e),
        Err(GenerateError::BadCardInput) => vstd::pervasive::unreached(),
        Err(GenerateError::Group(e)) => {
            proof { assert(group_failed(raws@, overrides@, lines@, e)); }
            vstd::pervasive::unreached()
        },
        Err(GenerateError::MissingCard(k)) => {
            proof { assert(card_missing(raws@, overrides@, lines@, k)); }
            vstd::pervasive::unreached()
        },
    }
}

/// Builds the client's files: the card list from the database and its
/// corrections, the campaigns from the data files' lines, their item and
/// location ids, then the Rust lookup functions, `Id.py` and `Data.py`
/// (after `prefix`), and the client's tables; or says what is wrong in
/// the inputs, and where.
#[verifier::rlimit(60)]
pub fn try_generate_data(raws: &Vec<RawCard>, overrides: &Vec<RawCardOverride>, lines: &Vec<SourceLine>, prefix: &str)
    -> (res: Result<Generated, GenerateError>)
    ensures
        res matches Ok(g) ==> generated_ok(raws@, overrides@, lines@, prefix@, g),
        success_owed(raws@, overrides@, lines@) ==> res is Ok,
        (res matches Err(GenerateError::BadCardInput)) <==> !valid_card_input(raws@, overrides@),
        forall|e: GroupError| (res == Err::<Generated, GenerateError>(GenerateError::Group(e)))
            <==> valid_card_input(raws@, overrides@) && #[trigger] group_failed(raws@, overrides@, lines@, e),
        res matches Err(GenerateError::Group(e)) ==> e.line < lines@.len(),
        res matches Err(GenerateError::Id(e)) ==> id_failed(raws@, overrides@, lines@, e),
        res matches Err(GenerateError::MissingCard(k)) ==> card_missing(raws@, overrides@, lines@, k),
{
    if !card_input_ok(raws, overrides) {
        return Err(GenerateError::BadCardInput);
    }
    let cards = get_cards(raws, overrides);
    proof {
        assert forall|cards2: Seq<Card>| card_views(cards2) == cards_spec(raws@, overrides@)
            implies #[trigger] group_spec(line_texts(lines@), cards2) == group_spec(line_texts(lines@), cards@) by {
            lemma_group_spec_views(line_texts(lines@), cards2, cards@);
        }
    }
    let mut data = match try_group_data(lines, &cards) {
        Ok(d) => d,
        Err(e) => {
            proof {
                assert(card_views(cards@) == cards_spec(raws@, overrides@));
                assert(group_spec(line_texts(lines@), cards@) == Err::<Seq<CampaignView>, GroupError>(e));
                assert(group_failed(raws@, overrides@, lines@, e));
                assert forall|e2: GroupError| #[trigger] group_failed(raws@, overrides@, lines@, e2) implies e2 == e by {
                    let c2 = choose|c2: Seq<Card>| card_views(c2) == cards_spec(raws@, overrides@)
                        && #[trigger] group_spec(line_texts(lines@), c2) == Err::<Seq<CampaignView>, GroupError>(e2);
                    assert(group_spec(line_texts(lines@), c2) == group_spec(line_texts(lines@), cards@));
                }
                assert(!success_owed(raws@, overrides@, lines@)) by {
                    if success_owed(raws@, overrides@, lines@) {
                        assert(group_spec(line_texts(lines@), cards@) is Ok);
                    }
                }
            }
            return Err(GenerateError::Group(e));
        },
    };
    let ghost read = data.campaigns@;
    proof {
        assert(group_spec(line_texts(lines@), cards@) == Ok::<Seq<CampaignView>, GroupError>(campaign_views(read)));
        assert forall|e2: GroupError| !(#[trigger] group_failed(raws@, overrides@, lines@, e2)) by {
            if group_failed(raws@, overrides@, lines@, e2) {
                let c2 = choose|c2: Seq<Card>| card_views(c2) == cards_spec(raws@, overrides@)
                    && #[trigger] group_spec(line_texts(lines@), c2) == Err::<Seq<CampaignView>, GroupError>(e2);
                assert(group_spec(line_texts(lines@), c2) == group_spec(line_texts(lines@), cards@));
            }
        }
    }
    let (p, id_py) = match generate_id_py(&cards, &mut data) {
        Ok(r) => r,
        Err(e) => {
            proof {
                let (uh, fh, ur, fr) = choose|uh: Seq<Vec<u64>>, fh: Seq<Vec<u64>>, ur: Seq<Seq<NameHash>>, fr: Seq<Seq<NameHash>>| hashes_fit(read, uh, fh)
                    && #[trigger] hashes_named(read, uh, fh, ur, fr)
                    && #[trigger] id_outcome(read, cards@, uh, fh, Err(e), data.campaigns@);
                assert(data.campaigns@ == read);
                assert(id_failed(raws@, overrides@, lines@, e));
                if success_owed(raws@, overrides@, lines@) {
                    assert(ids_fine(read, cards@, uh, fh));
                }
            }
            return Err(GenerateError::Id(e));
        },
    };
    let ghost numbered = data.campaigns@;
    proof {
        let (uh, fh, ur, fr) = choose|uh: Seq<Vec<u64>>, fh: Seq<Vec<u64>>, ur: Seq<Seq<NameHash>>, fr: Seq<Seq<NameHash>>| hashes_fit(read, uh, fh)
                    && #[trigger] hashes_named(read, uh, fh, ur, fr)
            && #[trigger] id_outcome(read, cards@, uh, fh, Ok((p, id_py)), numbered);
        lemma_same_names(cards@, read, numbered);
        if success_owed(raws@, overrides@, lines@) {
            assert(ids_fine(read, cards@, uh, fh));
            assert(py_known(cards@, campaign_views(read)));
        }
    }
    let data_py = match generate_data_py(prefix, &cards, &data) {
        Ok(t) => t,
        Err(k) => {
            proof {
                assert(card_views(cards@) == cards_spec(raws@, overrides@));
                assert(card_for(cards@, k) is None);
                assert(names_code(campaign_views(read), k));
                assert(card_missing(raws@, overrides@, lines@, k));
            }
            return Err(GenerateError::MissingCard(k));
        },
    };
    proof {
        let (uh, fh, ur, fr) = choose|uh: Seq<Vec<u64>>, fh: Seq<Vec<u64>>, ur: Seq<Seq<NameHash>>, fr: Seq<Seq<NameHash>>| hashes_fit(read, uh, fh)
                    && #[trigger] hashes_named(read, uh, fh, ur, fr)
            && #[trigger] id_outcome(read, cards@, uh, fh, Ok((p, id_py)), numbered);
        assert(all_checks_have_ids(numbered));
        let cv = campaign_views(numbered);
        assert forall|cx: int, sx: int, k: int| 0 <= cx < cv.len() && 0 <= sx < cv[cx].scenarios.len() && 0 <= k < cv[cx].scenarios[sx].checks.len()
            implies (#[trigger] cv[cx].scenarios[sx].checks[k]).ids.len() > 0 by {
            assert(cv[cx].scenarios[sx].checks[k] == numbered[cx].scenarios@[sx].checks@[k]@);
            assert(numbered[cx].scenarios@[sx].checks@[k].ids@.len() > 0);
        }
    }
    let rust = generate_source(&cards, &data, &p);
    let tables = client_tables(&cards, &data, &p);
    let g = Generated { rust, id_py, data_py, tables };
    proof {
        let (uh, fh, ur, fr) = choose|uh: Seq<Vec<u64>>, fh: Seq<Vec<u64>>, ur: Seq<Seq<NameHash>>, fr: Seq<Seq<NameHash>>| hashes_fit(read, uh, fh)
                    && #[trigger] hashes_named(read, uh, fh, ur, fr)
            && #[trigger] id_outcome(read, cards@, uh, fh, Ok((p, id_py)), numbered);
        assert(generated_from(raws@, overrides@, lines@, prefix@, g, cards@, read, numbered, p, uh, fh, ur, fr));
        assert(generated_ok(raws@, overrides@, lines@, prefix@, g));
    }
    Ok(g)
}

} // verus!
