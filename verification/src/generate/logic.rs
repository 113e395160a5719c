//! Logic rules: which unlocks a path or a check needs.

use vstd::prelude::*;
use crate::text::{join, join_strings, views, chars_of, split, split_char, find, find_char, lemma_find_char, trim, trim_chars, escape_debug, escaped, string_of, push_str, push_chars};

verus! {

/// The mathematical value of a rule.
pub enum Logic {
    /// The named unlock of a campaign.
    Unlock(Seq<char>, Seq<char>),
    Or(Seq<Logic>),
    And(Seq<Logic>),
    True,
}

/// A rule as read from the data files.
pub enum LogicTerm {
    Unlock((String, String)),
    Or(Vec<LogicTerm>),
    And(Vec<LogicTerm>),
    True,
}

impl LogicTerm {
    pub open spec fn view(self) -> Logic
        decreases self,
    {
        match self {
            LogicTerm::Unlock((c, u)) => Logic::Unlock(c@, u@),
            LogicTerm::Or(ts) => Logic::Or(terms_view(ts@)),
            LogicTerm::And(ts) => Logic::And(terms_view(ts@)),
            LogicTerm::True => Logic::True,
        }
    }
}

pub open spec fn terms_view(ts: Seq<LogicTerm>) -> Seq<Logic>
    decreases ts,
{
    if ts.len() == 0 {
        Seq::empty()
    } else {
        terms_view(ts.drop_last()).push(ts.last().view())
    }
}

/// The rule that `parse_logic` reads from `s` for `campaign`: `|`
/// separates alternatives, then `&` separates requirements, and anything
/// else names an unlock (trimmed and escaped).
pub open spec fn parse_spec(campaign: Seq<char>, s: Seq<char>) -> Logic
    decreases s.len() + 1, 0int,
{
    if s.len() == 0 {
        Logic::True
    } else if find_char(s, '|') >= 0 {
        Logic::Or(parse_pieces(campaign, split_char(s, '|'), s.len() as int))
    } else if find_char(s, '&') >= 0 {
        Logic::And(parse_pieces(campaign, split_char(s, '&'), s.len() as int))
    } else {
        Logic::Unlock(campaign, escaped(trim(s)))
    }
}

/// `parse_spec` of each piece shorter than `n`.
pub open spec fn parse_pieces(campaign: Seq<char>, ps: Seq<Seq<char>>, n: int) -> Seq<Logic>
    decreases n, ps.len(),
{
    if ps.len() == 0 {
        Seq::empty()
    } else {
        parse_pieces(campaign, ps.drop_last(), n).push(
            if ps.last().len() < n { parse_spec(campaign, ps.last()) } else { Logic::True },
        )
    }
}

/// Pieces of a split are no longer than the string, and shorter when the
/// separator occurs.
pub proof fn lemma_split_pieces_shorter(s: Seq<char>, c: char)
    ensures
        split_char(s, c).len() >= 1,
        forall|k: int| 0 <= k < split_char(s, c).len() ==> (#[trigger] split_char(s, c)[k]).len() <= s.len(),
        find_char(s, c) >= 0 ==> forall|k: int| 0 <= k < split_char(s, c).len() ==> (#[trigger] split_char(s, c)[k]).len() < s.len(),
    decreases s.len(),
{
    lemma_find_char(s, c);
    let i = find_char(s, c);
    if i >= 0 && i < s.len() {
        lemma_split_pieces_shorter(s.skip(i + 1), c);
        let rest = split_char(s.skip(i + 1), c);
        assert(split_char(s, c) == seq![s.take(i)] + rest);
        assert forall|k: int| 0 <= k < split_char(s, c).len() implies (#[trigger] split_char(s, c)[k]).len() < s.len() by {
            if k > 0 {
                assert(split_char(s, c)[k] == rest[k - 1]);
            }
        }
    }
}

proof fn lemma_parse_pieces_index(campaign: Seq<char>, ps: Seq<Seq<char>>, n: int)
    requires
        forall|k: int| 0 <= k < ps.len() ==> (#[trigger] ps[k]).len() < n,
    ensures
        parse_pieces(campaign, ps, n).len() == ps.len(),
        forall|k: int| 0 <= k < ps.len() ==> #[trigger] parse_pieces(campaign, ps, n)[k] == parse_spec(campaign, ps[k]),
    decreases ps.len(),
{
    if ps.len() > 0 {
        lemma_parse_pieces_index(campaign, ps.drop_last(), n);
    }
}

/// Reads the rule `s`, whose unlocks belong to `campaign`.
pub fn parse_logic(campaign: &str, s: &str) -> (res: LogicTerm)
    ensures
        res@ == parse_spec(campaign@, s@),
{
    let cs = chars_of(s);
    parse_chars(campaign, cs.as_slice())
}

fn parse_chars(campaign: &str, cs: &[char]) -> (res: LogicTerm)
    ensures
        res@ == parse_spec(campaign@, cs@),
    decreases cs@.len(),
{
    if cs.len() == 0 {
        return LogicTerm::True;
    }
    let bar = find(cs, '|');
    let sep: char;
    if bar.is_some() {
        sep = '|';
    } else {
        let amp = find(cs, '&');
        if amp.is_none() {
            let t = trim_chars(cs);
            let name = escape_debug(string_of(t.as_slice()).as_str());
            return LogicTerm::Unlock((campaign.to_owned(), name));
        }
        sep = '&';
    }
    let pieces = split(cs, sep);
    let ghost ps = split_char(cs@, sep);
    proof {
        lemma_split_pieces_shorter(cs@, sep);
        lemma_parse_pieces_index(campaign@, ps, cs@.len() as int);
    }
    let mut terms: Vec<LogicTerm> = Vec::new();
    let mut i: usize = 0;
    while i < pieces.len()
        invariant
            pieces@.map_values(|v: Vec<char>| v@) == ps,
            forall|k: int| 0 <= k < ps.len() ==> (#[trigger] ps[k]).len() < cs@.len(),
            parse_pieces(campaign@, ps, cs@.len() as int).len() == ps.len(),
            forall|k: int| 0 <= k < ps.len() ==> #[trigger] parse_pieces(campaign@, ps, cs@.len() as int)[k] == parse_spec(campaign@, ps[k]),
            i <= pieces@.len(),
            terms_view(terms@) == parse_pieces(campaign@, ps, cs@.len() as int).take(i as int),
        decreases pieces@.len() - i,
    {
        assert(pieces@[i as int]@ == ps[i as int]);
        let t = parse_chars(campaign, pieces[i].as_slice());
        let ghost before = terms@;
        terms.push(t);
        proof {
            assert(terms@.drop_last() =~= before);
            assert(terms_view(terms@) =~= parse_pieces(campaign@, ps, cs@.len() as int).take(i + 1));
        }
        i = i + 1;
    }
    assert(parse_pieces(campaign@, ps, cs@.len() as int).take(pieces@.len() as int) =~= parse_pieces(campaign@, ps, cs@.len() as int));
    if sep == '|' {
        LogicTerm::Or(terms)
    } else {
        LogicTerm::And(terms)
    }
}

/// The Rust boolean expression that a rule is compiled to.
pub open spec fn rust_expr(l: Logic) -> Seq<char>
    decreases l,
{
    match l {
        Logic::Unlock(c, u) => "state.has(\""@ + c + "\", \""@ + u + "\")"@,
        Logic::Or(ts) => join(rust_exprs(ts, false), "||"@),
        Logic::And(ts) => join(rust_exprs(ts, true), "&&"@),
        Logic::True => "true"@,
    }
}

/// `rust_expr` of each term, in parentheses when `paren`.
pub open spec fn rust_exprs(ts: Seq<Logic>, paren: bool) -> Seq<Seq<char>>
    decreases ts,
{
    if ts.len() == 0 {
        Seq::empty()
    } else {
        rust_exprs(ts.drop_last(), paren).push(
            if paren { "("@ + rust_expr(ts.last()) + ")"@ } else { rust_expr(ts.last()) },
        )
    }
}

/// The Python text of one unlock test.
pub open spec fn py_unlock(c: Seq<char>, u: Seq<char>) -> Seq<char> {
    "state.prog_items[player].get(\""@ + c + " - "@ + u + "\",False)"@
}

/// The quoted item name of an unlock, as listed in `has_any`/`has_all`.
pub open spec fn py_item(c: Seq<char>, u: Seq<char>) -> Seq<char> {
    "\""@ + c + " - "@ + u + "\""@
}

/// The unlocks among `ts`, in order.
pub open spec fn unlocks_of(ts: Seq<Logic>) -> Seq<(Seq<char>, Seq<char>)>
    decreases ts.len(),
{
    if ts.len() == 0 {
        Seq::empty()
    } else {
        match ts.last() {
            Logic::Unlock(c, u) => unlocks_of(ts.drop_last()).push((c, u)),
            _ => unlocks_of(ts.drop_last()),
        }
    }
}

/// The Python expression that a rule is compiled to.
pub open spec fn py_expr(l: Logic) -> Seq<char>
    decreases l, 2int,
{
    match l {
        Logic::Unlock(c, u) => py_unlock(c, u),
        Logic::Or(ts) => py_group(ts, "state.has_any(("@, " or "@),
        Logic::And(ts) => py_group(ts, "state.has_all(("@, " and "@),
        Logic::True => "True"@,
    }
}

/// The Python text of an `or` (or `and`) of terms: the unlocks tested
/// together, then the other terms in parentheses, all joined with `sep`.
pub open spec fn py_group(ts: Seq<Logic>, head: Seq<char>, sep: Seq<char>) -> Seq<char>
    decreases ts, 1int,
{
    let us = unlocks_of(ts);
    let items = if us.len() == 0 {
        Seq::empty()
    } else if us.len() == 1 {
        py_unlock(us[0].0, us[0].1)
    } else {
        head + join(us.map_values(|p: (Seq<char>, Seq<char>)| py_item(p.0, p.1)), ","@) + "),player)"@
    };
    let additional = join(py_others(ts), sep);
    if items.len() == 0 {
        additional
    } else if additional.len() == 0 {
        items
    } else {
        items + sep + additional
    }
}

/// `py_expr` in parentheses of each term that is not an unlock.
pub open spec fn py_others(ts: Seq<Logic>) -> Seq<Seq<char>>
    decreases ts, 0int,
{
    if ts.len() == 0 {
        Seq::empty()
    } else {
        match ts.last() {
            Logic::Unlock(_, _) => py_others(ts.drop_last()),
            _ => py_others(ts.drop_last()).push("("@ + py_expr(ts.last()) + ")"@),
        }
    }
}

/// The views of string pairs.
pub open spec fn pair_views(v: Seq<(String, String)>) -> Seq<(Seq<char>, Seq<char>)> {
    v.map_values(|p: (String, String)| (p.0@, p.1@))
}

fn py_unlock_text(campaign: &String, unlock: &String) -> (res: String)
    ensures
        res@ == py_unlock(campaign@, unlock@),
{
    let mut s = String::new();
    push_str(&mut s, "state.prog_items[player].get(\"");
    push_str(&mut s, campaign.as_str());
    push_str(&mut s, " - ");
    push_str(&mut s, unlock.as_str());
    push_str(&mut s, "\",False)");
    s
}

proof fn lemma_terms_view_len(ts: Seq<LogicTerm>)
    ensures
        terms_view(ts).len() == ts.len(),
        forall|i: int| 0 <= i < ts.len() ==> #[trigger] terms_view(ts)[i] == ts[i]@,
    decreases ts.len(),
{
    if ts.len() > 0 {
        lemma_terms_view_len(ts.drop_last());
    }
}

impl LogicTerm {
    /// The Rust boolean expression this rule is compiled to.
    pub fn as_rust_expr(&self) -> (res: String)
        ensures
            res@ == rust_expr(self@),
        decreases self,
    {
        match self {
            LogicTerm::Unlock((campaign, unlock)) => {
                let mut s = String::new();
                push_str(&mut s, "state.has(\"");
                push_str(&mut s, campaign.as_str());
                push_str(&mut s, "\", \"");
                push_str(&mut s, unlock.as_str());
                push_str(&mut s, "\")");
                s
            },
            LogicTerm::Or(terms) => {
                let parts = Self::rust_parts(terms, false);
                join_strings(&parts, "||")
            },
            LogicTerm::And(terms) => {
                let parts = Self::rust_parts(terms, true);
                join_strings(&parts, "&&")
            },
            LogicTerm::True => {
                let mut s = String::new();
                push_str(&mut s, "true");
                s
            },
        }
    }

    /// The Python expression this rule is compiled to.
    pub fn as_py_expr(&self) -> (res: String)
        ensures
            res@ == py_expr(self@),
        decreases self,
    {
        match self {
            LogicTerm::Unlock((campaign, unlock)) => py_unlock_text(campaign, unlock),
            LogicTerm::Or(terms) => Self::py_group_text(terms, "state.has_any((", " or "),
            LogicTerm::And(terms) => Self::py_group_text(terms, "state.has_all((", " and "),
            LogicTerm::True => {
                let mut s = String::new();
                push_str(&mut s, "True");
                s
            },
        }
    }

    fn py_group_text(terms: &Vec<LogicTerm>, head: &str, sep: &str) -> (res: String)
        ensures
            res@ == py_group(terms_view(terms@), head@, sep@),
        decreases terms,
    {
        let mut unlocks: Vec<(String, String)> = Vec::new();
        let mut others: Vec<String> = Vec::new();
        let mut i: usize = 0;
        while i < terms.len()
            invariant
                i <= terms@.len(),
                pair_views(unlocks@) == unlocks_of(terms_view(terms@.take(i as int))),
                views(others@) == py_others(terms_view(terms@.take(i as int))),
            decreases terms@.len() - i,
        {
            let ghost tv = terms_view(terms@.take(i as int));
            proof {
                assert(terms@.take(i + 1).drop_last() =~= terms@.take(i as int));
                assert(terms_view(terms@.take(i + 1)) == tv.push(terms@[i as int]@));
                assert(tv.push(terms@[i as int]@).drop_last() =~= tv);
            }
            let t = &terms[i];
            match t {
                LogicTerm::Unlock((c, u)) => {
                    let ghost before = unlocks@;
                    unlocks.push((c.clone(), u.clone()));
                    assert(pair_views(unlocks@) =~= pair_views(before).push((c@, u@)));
                },
                _ => {
                    assert(decreases_to!(terms => terms@[i as int]));
                    let e = t.as_py_expr();
                    let mut part = String::new();
                    push_str(&mut part, "(");
                    push_str(&mut part, e.as_str());
                    push_str(&mut part, ")");
                    let ghost before = others@;
                    others.push(part);
                    assert(views(others@) =~= views(before).push(part@));
                },
            }
            i = i + 1;
        }
        assert(terms@.take(terms@.len() as int) =~= terms@);
        let ghost us = unlocks_of(terms_view(terms@));
        let mut items = String::new();
        if unlocks.len() == 1 {
            items = py_unlock_text(&unlocks[0].0, &unlocks[0].1);
        } else if unlocks.len() > 1 {
            let mut names: Vec<String> = Vec::new();
            let mut k: usize = 0;
            while k < unlocks.len()
                invariant
                    k <= unlocks@.len(),
                    pair_views(unlocks@) == us,
                    views(names@) == us.take(k as int).map_values(|p: (Seq<char>, Seq<char>)| py_item(p.0, p.1)),
                decreases unlocks@.len() - k,
            {
                let mut n = String::new();
                push_str(&mut n, "\"");
                push_str(&mut n, unlocks[k].0.as_str());
                push_str(&mut n, " - ");
                push_str(&mut n, unlocks[k].1.as_str());
                push_str(&mut n, "\"");
                let ghost before = names@;
                names.push(n);
                assert(us[k as int] == (unlocks@[k as int].0@, unlocks@[k as int].1@));
                assert(views(names@) =~= views(before).push(n@));
                assert(n@ == py_item(us[k as int].0, us[k as int].1));
                assert(views(names@) =~= us.take(k + 1).map_values(|p: (Seq<char>, Seq<char>)| py_item(p.0, p.1)));
                k = k + 1;
            }
            assert(us.take(unlocks@.len() as int) =~= us);
            push_str(&mut items, head);
            let joined = join_strings(&names, ",");
            push_str(&mut items, joined.as_str());
            push_str(&mut items, "),player)");
        }
        assert(items@.len() == 0 <==> us.len() == 0) by {
            if us.len() == 1 {
                assert(items@ == py_unlock(us[0].0, us[0].1));
                assert(items@.len() > 0) by { reveal_strlit("\",False)"); }
            }
            if us.len() > 1 {
                reveal_strlit("),player)");
            }
        }
        let additional = join_strings(&others, sep);
        if items.as_str().is_empty() {
            additional
        } else if additional.as_str().is_empty() {
            items
        } else {
            push_str(&mut items, sep);
            push_str(&mut items, additional.as_str());
            items
        }
    }

    fn rust_parts(terms: &Vec<LogicTerm>, paren: bool) -> (res: Vec<String>)
        ensures
            views(res@) == rust_exprs(terms_view(terms@), paren),
        decreases terms,
    {
        let mut res: Vec<String> = Vec::new();
        let mut i: usize = 0;
        while i < terms.len()
            invariant
                i <= terms@.len(),
                views(res@) == rust_exprs(terms_view(terms@.take(i as int)), paren),
            decreases terms@.len() - i,
        {
            let t = &terms[i];
            assert(decreases_to!(terms => terms@[i as int]));
            let e = t.as_rust_expr();
            let mut part = String::new();
            if paren {
                push_str(&mut part, "(");
                push_str(&mut part, e.as_str());
                push_str(&mut part, ")");
            } else {
                push_str(&mut part, e.as_str());
            }
            let ghost before = res@;
            res.push(part);
            proof {
                lemma_terms_view_len(terms@.take(i + 1));
                assert(terms@.take(i + 1).drop_last() =~= terms@.take(i as int));
                let tv = terms_view(terms@.take(i as int));
                assert(terms_view(terms@.take(i + 1)) == tv.push(terms@[i as int]@));
                assert(tv.push(terms@[i as int]@).drop_last() =~= tv);
                assert(views(res@) =~= views(before).push(part@));
            }
            i = i + 1;
        }
        assert(terms@.take(terms@.len() as int) =~= terms@);
        res
    }
}

/// Whether a rule holds when `has(campaign, unlock)` tells which unlocks
/// are held: an `Or` needs one term, an `And` all of them.
pub open spec fn holds(l: Logic, has: spec_fn(Seq<char>, Seq<char>) -> bool) -> bool
    decreases l,
{
    match l {
        Logic::Unlock(c, u) => has(c, u),
        Logic::Or(ts) => any_holds(ts, has),
        Logic::And(ts) => all_hold(ts, has),
        Logic::True => true,
    }
}

/// Some term holds.
pub open spec fn any_holds(ts: Seq<Logic>, has: spec_fn(Seq<char>, Seq<char>) -> bool) -> bool
    decreases ts,
{
    ts.len() > 0 && (any_holds(ts.drop_last(), has) || holds(ts.last(), has))
}

/// Every term holds.
pub open spec fn all_hold(ts: Seq<Logic>, has: spec_fn(Seq<char>, Seq<char>) -> bool) -> bool
    decreases ts,
{
    ts.len() == 0 || (all_hold(ts.drop_last(), has) && holds(ts.last(), has))
}

pub proof fn lemma_terms_view_step(ts: Seq<LogicTerm>, i: int)
    requires
        0 <= i < ts.len(),
    ensures
        terms_view(ts.take(i + 1)) == terms_view(ts.take(i)).push(ts[i]@),
        terms_view(ts.take(i + 1)).drop_last() == terms_view(ts.take(i)),
        terms_view(ts.take(i + 1)).last() == ts[i]@,
{
    assert(ts.take(i + 1).drop_last() =~= ts.take(i));
    assert(terms_view(ts.take(i)).push(ts[i]@).drop_last() =~= terms_view(ts.take(i)));
}

impl LogicTerm {
    /// A copy of the rule.
    pub fn copy(&self) -> (res: LogicTerm)
        ensures
            res@ == self@,
        decreases self,
    {
        match self {
            LogicTerm::Unlock((c, u)) => LogicTerm::Unlock((c.clone(), u.clone())),
            LogicTerm::Or(ts) => LogicTerm::Or(Self::copy_all(ts)),
            LogicTerm::And(ts) => LogicTerm::And(Self::copy_all(ts)),
            LogicTerm::True => LogicTerm::True,
        }
    }

    fn copy_all(ts: &Vec<LogicTerm>) -> (res: Vec<LogicTerm>)
        ensures
            terms_view(res@) == terms_view(ts@),
        decreases ts@,
    {
        let mut v: Vec<LogicTerm> = Vec::new();
        let mut i: usize = 0;
        while i < ts.len()
            invariant
                i <= ts@.len(),
                terms_view(v@) == terms_view(ts@.take(i as int)),
            decreases ts@.len() - i,
        {
            proof { assert(decreases_to!(ts@ => ts@[i as int])); }
            let t = ts[i].copy();
            let ghost before = v@;
            v.push(t);
            proof {
                assert(v@.drop_last() =~= before);
                assert(ts@.take(i + 1).drop_last() =~= ts@.take(i as int));
            }
            i = i + 1;
        }
        assert(ts@.take(i as int) =~= ts@);
        v
    }
}

} // verus!
