//! Deduplicated notification fanout to the owners of nearby plantations.
use vstd::prelude::*;

verus! {

/// Plantations within this great-circle distance of the triggering one,
/// in meters, are nearby.
pub const NEARBY_RADIUS_METERS: u32 = 100_000;

/// What looking up a plantation's owner gave.
#[derive(Clone, Debug)]
pub enum Contact {
    /// No user record was found.
    Unresolved,
    /// The user has registered no push token.
    NoToken,
    /// The user's push token.
    Token(String),
}

/// A plantation near the triggering one, with its owner.
#[derive(Clone, Debug)]
pub struct Candidate {
    pub user_id: u128,
    pub contact: Contact,
}

/// A user to notify once, at a push token.
#[derive(Clone, Debug)]
pub struct Recipient {
    pub user_id: u128,
    pub token: String,
}

pub open spec fn token_of(c: Contact) -> Option<Seq<char>> {
    match c {
        Contact::Token(t) => Some(t@),
        _ => None,
    }
}

pub open spec fn candidates_view(cs: Seq<Candidate>) -> Seq<(u128, Option<Seq<char>>)> {
    cs.map_values(|c: Candidate| (c.user_id, token_of(c.contact)))
}

pub open spec fn recipients_view(rs: Seq<Recipient>) -> Seq<(u128, Seq<char>)> {
    rs.map_values(|r: Recipient| (r.user_id, r.token@))
}

pub open spec fn ids_of(rs: Seq<(u128, Seq<char>)>) -> Seq<u128> {
    rs.map_values(|r: (u128, Seq<char>)| r.0)
}

/// A candidate may be notified: it has a push token and is not `excluded`.
pub open spec fn eligible(c: (u128, Option<Seq<char>>), excluded: Option<u128>) -> bool {
    c.1 is Some && excluded != Some(c.0)
}

/// The recipients of a fanout over candidates `cs`, in candidate order:
/// each eligible candidate whose user was not notified before.
pub open spec fn fanout_recipients(cs: Seq<(u128, Option<Seq<char>>)>, excluded: Option<u128>) -> Seq<
    (u128, Seq<char>),
>
    decreases cs.len(),
{
    if cs.len() == 0 {
        Seq::empty()
    } else {
        let prev = fanout_recipients(cs.drop_last(), excluded);
        let c = cs.last();
        if eligible(c, excluded) && !ids_of(prev).contains(c.0) {
            prev.push((c.0, c.1->0))
        } else {
            prev
        }
    }
}

/// The users among `cs` that may be notified.
pub open spec fn eligible_users(cs: Seq<(u128, Option<Seq<char>>)>, excluded: Option<u128>) -> Set<u128> {
    Set::new(|u: u128| exists|i: int| 0 <= i < cs.len() && eligible(#[trigger] cs[i], excluded) && cs[i].0 == u)
}

fn contains_id(ids: &Vec<u128>, u: u128) -> (b: bool)
    ensures
        b == ids@.contains(u),
{
    let mut i: usize = 0;
    while i < ids.len()
        invariant
            i <= ids.len(),
            forall|t: int| 0 <= t < i ==> ids@[t] != u,
        decreases ids.len() - i,
    {
        if ids[i] == u {
            return true;
        }
        i = i + 1;
    }
    false
}

/// Picks whom to notify: each candidate with a push token, except the
/// `excluded` user, once per user, in candidate order.
pub fn plan_fanout(candidates: &Vec<Candidate>, excluded: Option<u128>) -> (out: Vec<Recipient>)
    ensures
        recipients_view(out@) == fanout_recipients(candidates_view(candidates@), excluded),
{
    let ghost cs = candidates_view(candidates@);
    let mut out: Vec<Recipient> = Vec::new();
    let mut ids: Vec<u128> = Vec::new();
    let mut i: usize = 0;
    while i < candidates.len()
        invariant
            i <= candidates.len(),
            cs == candidates_view(candidates@),
            recipients_view(out@) == fanout_recipients(cs.take(i as int), excluded),
            ids@ == ids_of(recipients_view(out@)),
        decreases candidates.len() - i,
    {
        let c = &candidates[i];
        proof {
            assert(cs.take(i + 1).drop_last() =~= cs.take(i as int));
            assert(cs.take(i + 1).last() == cs[i as int]);
        }
        let allowed = match excluded {
            Some(x) => x != c.user_id,
            None => true,
        };
        if allowed {
            match &c.contact {
                Contact::Token(t) => {
                    if !contains_id(&ids, c.user_id) {
                        let r = Recipient { user_id: c.user_id, token: t.clone() };
                        out.push(r);
                        ids.push(c.user_id);
                        proof {
                            assert(recipients_view(out@) =~= fanout_recipients(cs.take(i as int), excluded).push(
                                (c.user_id, t@),
                            ));
                            assert(ids@ =~= ids_of(recipients_view(out@)));
                        }
                    }
                },
                _ => {},
            }
        }
        i = i + 1;
    }
    proof {
        assert(cs.take(i as int) =~= cs);
    }
    out
}

proof fn lemma_fanout_facts(cs: Seq<(u128, Option<Seq<char>>)>, excluded: Option<u128>)
    ensures
        ids_of(fanout_recipients(cs, excluded)).no_duplicates(),
        ids_of(fanout_recipients(cs, excluded)).to_set() == eligible_users(cs, excluded),
    decreases cs.len(),
{
    if cs.len() > 0 {
        let p = cs.drop_last();
        let c = cs.last();
        let prev = fanout_recipients(p, excluded);
        lemma_fanout_facts(p, excluded);
        if eligible(c, excluded) && !ids_of(prev).contains(c.0) {
            assert(ids_of(prev.push((c.0, c.1->0))) =~= ids_of(prev).push(c.0));
            ids_of(prev).lemma_push_to_set_commute(c.0);
        }
        assert forall|u: u128| #[trigger] eligible_users(cs, excluded).contains(u) == (eligible_users(
            p,
            excluded,
        ).contains(u) || (eligible(c, excluded) && u == c.0)) by {
            if eligible_users(cs, excluded).contains(u) {
                let i = choose|i: int| 0 <= i < cs.len() && eligible(#[trigger] cs[i], excluded) && cs[i].0 == u;
                if i < cs.len() - 1 {
                    assert(p[i] == cs[i]);
                }
            }
            if eligible_users(p, excluded).contains(u) {
                let i = choose|i: int| 0 <= i < p.len() && eligible(#[trigger] p[i], excluded) && p[i].0 == u;
                assert(p[i] == cs[i]);
            }
            if eligible(c, excluded) && u == c.0 {
                assert(cs[cs.len() - 1] == c);
            }
        }
        if eligible(c, excluded) {
            assert(eligible_users(cs, excluded) =~= eligible_users(p, excluded).insert(c.0));
            if ids_of(prev).contains(c.0) {
                assert(ids_of(prev).to_set().insert(c.0) =~= ids_of(prev).to_set());
            }
        } else {
            assert(eligible_users(cs, excluded) =~= eligible_users(p, excluded));
        }
    }
}

/// A fanout notifies each eligible user exactly once, however many of
/// their plantations are nearby: its recipients are distinct, they are the
/// eligible users, and so their number is that of the eligible users.
pub proof fn lemma_fanout_once_per_user(cs: Seq<(u128, Option<Seq<char>>)>, excluded: Option<u128>)
    ensures
        ids_of(fanout_recipients(cs, excluded)).no_duplicates(),
        ids_of(fanout_recipients(cs, excluded)).to_set() == eligible_users(cs, excluded),
        fanout_recipients(cs, excluded).len() == eligible_users(cs, excluded).len(),
{
    lemma_fanout_facts(cs, excluded);
    ids_of(fanout_recipients(cs, excluded)).unique_seq_to_set();
}

/// The excluded user, the owner of the triggering occurrence, is never
/// notified, even when another plantation of theirs is nearby.
pub proof fn lemma_fanout_skips_owner(cs: Seq<(u128, Option<Seq<char>>)>, owner: u128)
    ensures
        !ids_of(fanout_recipients(cs, Some(owner))).contains(owner),
{
    lemma_fanout_facts(cs, Some(owner));
    if ids_of(fanout_recipients(cs, Some(owner))).contains(owner) {
        assert(ids_of(fanout_recipients(cs, Some(owner))).to_set().contains(owner));
        let i = choose|i: int| 0 <= i < cs.len() && eligible(#[trigger] cs[i], Some(owner)) && cs[i].0 == owner;
    }
}

/// Title of the push message about a nearby occurrence.
pub const OCCURRENCE_TITLE: &'static str = "Ocorrência de doença";

/// Title of the push message about a likely occurrence.
pub const RISK_TITLE: &'static str = "ALERTA: Probabilidade de ocorrência";

pub const OCCURRENCE_LEAD: &'static str = "Uma ocorrência de ";

pub const OCCURRENCE_TAIL: &'static str = " foi registrada em uma plantação próxima.";

pub const RISK_LEAD: &'static str = "Detectamos que há probabilidade de ";

pub const RISK_MIDDLE: &'static str = " em uma ou mais plantações de ";

pub const RISK_TAIL: &'static str = ".";

/// The text sent to growers near an occurrence of `pathogenic_name`.
pub fn occurrence_message(pathogenic_name: &str) -> (m: String)
    ensures
        m@ == OCCURRENCE_LEAD@ + pathogenic_name@ + OCCURRENCE_TAIL@,
{
    let mut m = String::from_str(OCCURRENCE_LEAD);
    m.append(pathogenic_name);
    m.append(OCCURRENCE_TAIL);
    m
}

/// The text sent to growers of `culture_name` when `pathogenic_name` is likely.
pub fn risk_message(pathogenic_name: &str, culture_name: &str) -> (m: String)
    ensures
        m@ == RISK_LEAD@ + pathogenic_name@ + RISK_MIDDLE@ + culture_name@ + RISK_TAIL@,
{
    let mut m = String::from_str(RISK_LEAD);
    m.append(pathogenic_name);
    m.append(RISK_MIDDLE);
    m.append(culture_name);
    m.append(RISK_TAIL);
    m
}

} // verus!
