//! The contest registry, ballots read from text lines, and the contest result.
use std::collections::HashMap;
use vstd::prelude::*;
use crate::json::{
    array_len, element_str, element_u64, json_array_len, json_element_str, json_element_u64,
    json_member_text, json_u64_member, member_text, trim, trim_of, u64_member,
};
use crate::tally::{
    by_count_desc, is_tally_of, keys, lemma_first_has_most_votes, ranked_counts, votes_for,
};

verus! {

broadcast use vstd::std_specs::hash::group_hash_axioms;

/// What stops a registry from being built, or a tally from being made.
#[derive(Debug, Clone, Copy, PartialEq, Eq, Structural)]
pub enum PollError {
    /// A document or a ballot is no JSON, or lacks an integer it needs.
    Parse,
    /// The `choices` of a definition are not a list of `{id, text}` records.
    Deserialize,
    /// A ballot names another contest than the registry's.
    InvalidContest,
}

/// One vote: the contest it is cast in, and the choice it names.
#[derive(Debug, Clone, Copy, PartialEq, Eq, Structural)]
pub struct Ballot {
    pub contest_id: u64,
    pub choice_id: u64,
}

/// What one line of the ballot stream holds: nothing (a blank line), a ballot, or an error.
pub open spec fn ballot_of_line(line: Seq<char>) -> Result<Option<Ballot>, PollError> {
    let t = trim_of(line);
    if t.len() == 0 {
        Ok(None)
    } else {
        match (json_u64_member(t, "contest_id"@), json_u64_member(t, "choice_id"@)) {
            (Some(a), Some(b)) => Ok(Some(Ballot { contest_id: a, choice_id: b })),
            _ => Err(PollError::Parse),
        }
    }
}

/// The choices named by the ballots of `lines`, in order, or the first fatal error met.
pub open spec fn choices_of_lines(lines: Seq<Seq<char>>, contest_id: u64) -> Result<
    Seq<u64>,
    PollError,
>
    decreases lines.len(),
{
    if lines.len() == 0 {
        Ok(Seq::empty())
    } else {
        match choices_of_lines(lines.drop_last(), contest_id) {
            Err(e) => Err(e),
            Ok(ids) => match ballot_of_line(lines.last()) {
                Err(e) => Err(e),
                Ok(None) => Ok(ids),
                Ok(Some(b)) => if b.contest_id == contest_id {
                    Ok(ids.push(b.choice_id))
                } else {
                    Err(PollError::InvalidContest)
                },
            },
        }
    }
}

/// The text of each line.
pub open spec fn line_texts(lines: Seq<String>) -> Seq<Seq<char>> {
    lines.map_values(|s: String| s@)
}

proof fn lemma_error_persists(lines: Seq<Seq<char>>, k: int, contest_id: u64)
    requires
        0 <= k <= lines.len(),
        choices_of_lines(lines.subrange(0, k), contest_id) is Err,
    ensures
        choices_of_lines(lines, contest_id) == choices_of_lines(lines.subrange(0, k), contest_id),
    decreases lines.len(),
{
    if k == lines.len() {
        assert(lines.subrange(0, k) =~= lines);
    } else {
        assert(lines.drop_last().subrange(0, k) =~= lines.subrange(0, k));
        lemma_error_persists(lines.drop_last(), k, contest_id);
    }
}

impl Ballot {
    /// Reads one line of the ballot stream: `Ok(None)` for a blank line, the ballot for a JSON
    /// record with unsigned `contest_id` and `choice_id`, `Parse` for anything else.
    pub fn from_line(line: &str) -> (r: Result<Option<Ballot>, PollError>)
        ensures
            r == ballot_of_line(line@),
    {
        let t = trim(line);
        if t.is_empty() {
            return Ok(None);
        }
        match (u64_member(t, "contest_id"), u64_member(t, "choice_id")) {
            (Some(a), Some(b)) => Ok(Some(Ballot { contest_id: a, choice_id: b })),
            _ => Err(PollError::Parse),
        }
    }
}

/// The choices of `lines` that are ballots of contest `contest_id`, in order. Stops at the first
/// line that is no ballot (`Parse`) or a ballot of another contest (`InvalidContest`).
pub fn choices_from_lines(contest_id: u64, lines: &Vec<String>) -> (r: Result<Vec<u64>, PollError>)
    ensures
        match choices_of_lines(line_texts(lines@), contest_id) {
            Ok(ids) => r is Ok && r->Ok_0@ == ids,
            Err(e) => r == Err::<Vec<u64>, PollError>(e),
        },
{
    let ghost texts = line_texts(lines@);
    let mut ids: Vec<u64> = Vec::new();
    let mut i: usize = 0;
    while i < lines.len()
        invariant
            i <= lines.len(),
            texts == line_texts(lines@),
            choices_of_lines(texts.subrange(0, i as int), contest_id) == Ok::<Seq<u64>, PollError>(ids@),
        decreases lines.len() - i,
    {
        let b = Ballot::from_line(lines[i].as_str());
        proof {
            assert(texts.subrange(0, i + 1).drop_last() =~= texts.subrange(0, i as int));
            assert(texts.subrange(0, i + 1).last() == lines@[i as int]@);
        }
        match b {
            Err(e) => {
                proof {
                    lemma_error_persists(texts, i + 1, contest_id);
                }
                return Err(e);
            },
            Ok(None) => {},
            Ok(Some(ballot)) => {
                if ballot.contest_id != contest_id {
                    proof {
                        lemma_error_persists(texts, i + 1, contest_id);
                    }
                    return Err(PollError::InvalidContest);
                }
                ids.push(ballot.choice_id);
            },
        }
        i = i + 1;
    }
    proof {
        assert(texts.subrange(0, lines.len() as int) =~= texts);
    }
    Ok(ids)
}

/// Element `i` of the `choices` array of `doc`, as an `(id, text)` pair, where both are there.
pub open spec fn choice_entry(doc: Seq<char>, i: int) -> Option<(u64, Seq<char>)> {
    match (
        json_element_u64(doc, "choices"@, i, "id"@),
        json_element_str(doc, "choices"@, i, "text"@),
    ) {
        (Some(id), Some(text)) => Some((id, text)),
        _ => None,
    }
}

/// The choices that the definition document `doc` lists, in order, where it lists them well.
pub open spec fn definition_choices(doc: Seq<char>) -> Option<Seq<(u64, Seq<char>)>> {
    match json_array_len(doc, "choices"@) {
        None => None,
        Some(n) => if forall|i: int| 0 <= i < n ==> (#[trigger] choice_entry(doc, i)) is Some {
            Some(Seq::new(n as nat, |i: int| choice_entry(doc, i).unwrap()))
        } else {
            None
        },
    }
}

/// The mapping from choice id to label that `entries` give, a later entry replacing an earlier
/// one with the same id.
pub open spec fn choice_map(entries: Seq<(u64, Seq<char>)>) -> Map<u64, Seq<char>>
    decreases entries.len(),
{
    if entries.len() == 0 {
        Map::empty()
    } else {
        choice_map(entries.drop_last()).insert(entries.last().0, entries.last().1)
    }
}

/// The ids of `entries`.
pub open spec fn entry_ids(entries: Seq<(u64, Seq<char>)>) -> Set<u64> {
    entries.map_values(|e: (u64, Seq<char>)| e.0).to_set()
}

/// The registry's choices are keyed by the distinct ids of its entries, so it holds as many
/// choices as the entries hold distinct ids.
pub proof fn lemma_registry_keys(entries: Seq<(u64, Seq<char>)>)
    ensures
        choice_map(entries).dom() == entry_ids(entries),
        choice_map(entries).len() == entry_ids(entries).len(),
    decreases entries.len(),
{
    if entries.len() > 0 {
        let d = entries.drop_last();
        lemma_registry_keys(d);
        assert forall|x: u64| choice_map(entries).dom().contains(x) <==> entry_ids(entries).contains(x) by {
            let ks = entries.map_values(|e: (u64, Seq<char>)| e.0);
            let dks = d.map_values(|e: (u64, Seq<char>)| e.0);
            assert(ks =~= dks.push(entries.last().0));
            if dks.contains(x) {
                let k = choose|k: int| 0 <= k < dks.len() && dks[k] == x;
                assert(ks[k] == x);
            }
            if ks.contains(x) && x != entries.last().0 {
                let k = choose|k: int| 0 <= k < ks.len() && ks[k] == x;
                assert(dks[k] == x);
            }
            if x == entries.last().0 {
                assert(ks[ks.len() - 1] == x);
            }
        }
        assert(choice_map(entries).dom() =~= entry_ids(entries));
    }
}

/// The labels of a map of `String`s.
pub open spec fn label_view(m: Map<u64, String>) -> Map<u64, Seq<char>> {
    m.map_values(|s: String| s@)
}

/// A contest: its id, its description, and its choices by id.
#[derive(Debug)]
pub struct Contest {
    contest_id: u64,
    description: String,
    choices: HashMap<u64, String>,
}

impl Contest {
    /// The contest's id.
    pub closed spec fn id(&self) -> u64 {
        self.contest_id
    }

    /// The contest's description, as the definition document renders it.
    pub closed spec fn description_view(&self) -> Seq<char> {
        self.description@
    }

    /// The label of each choice, by id.
    pub closed spec fn labels(&self) -> Map<u64, Seq<char>> {
        label_view(self.choices@)
    }

    /// Builds the registry from a definition document
    /// `{"id": .., "description": .., "choices": [{"id": .., "text": ..}, ..]}`.
    /// `Parse` where the document is no JSON or has no unsigned `id`; `Deserialize` where
    /// `choices` is not a list of such records. A repeated choice id keeps its last label.
    pub fn new(document: &str) -> (r: Result<Contest, PollError>)
        ensures
            match json_u64_member(document@, "id"@) {
                None => r == Err::<Contest, PollError>(PollError::Parse),
                Some(id) => match definition_choices(document@) {
                    None => r == Err::<Contest, PollError>(PollError::Deserialize),
                    Some(entries) => {
                        &&& r is Ok
                        &&& r->Ok_0.id() == id
                        &&& r->Ok_0.description_view() == json_member_text(document@, "description"@)
                        &&& r->Ok_0.labels() == choice_map(entries)
                        &&& r->Ok_0.labels().len() == entry_ids(entries).len()
                    },
                },
            },
    {
        let contest_id = match u64_member(document, "id") {
            Some(id) => id,
            None => return Err(PollError::Parse),
        };
        let description = member_text(document, "description");
        let n = match array_len(document, "choices") {
            Some(n) => n,
            None => return Err(PollError::Deserialize),
        };
        let ghost f = |i: int| choice_entry(document@, i).unwrap();
        let mut choices: HashMap<u64, String> = HashMap::new();
        let mut i: usize = 0;
        while i < n
            invariant
                i <= n,
                json_u64_member(document@, "id"@) == Some(contest_id),
                description@ == json_member_text(document@, "description"@),
                json_array_len(document@, "choices"@) == Some(n),
                forall|k: int| 0 <= k < i ==> (#[trigger] choice_entry(document@, k)) is Some,
                f == (|i: int| choice_entry(document@, i).unwrap()),
                label_view(choices@) == choice_map(Seq::new(i as nat, f)),
            decreases n - i,
        {
            let id = element_u64(document, "choices", i, "id");
            let text = element_str(document, "choices", i, "text");
            match (id, text) {
                (Some(id), Some(text)) => {
                    let ghost before = choices@;
                    choices.insert(id, text);
                    proof {
                        assert(Seq::new((i + 1) as nat, f).drop_last() =~= Seq::new(i as nat, f));
                        assert(label_view(choices@) =~= label_view(before).insert(id, text@));
                    }
                },
                _ => {
                    proof {
                        assert(choice_entry(document@, i as int) is None);
                        assert(!(forall|k: int| 0 <= k < n ==> (#[trigger] choice_entry(document@, k)) is Some));
                        assert(definition_choices(document@) is None);
                    }
                    return Err(PollError::Deserialize);
                },
            }
            i = i + 1;
        }
        proof {
            assert(definition_choices(document@) == Some(Seq::new(n as nat, f)));
            lemma_registry_keys(Seq::new(n as nat, f));
        }
        Ok(Contest { contest_id, description, choices })
    }

    /// The contest's id.
    pub fn get_contest_id(&self) -> (r: u64)
        ensures
            r == self.id(),
    {
        self.contest_id
    }

    /// The contest's description, as the definition document renders it (a JSON string keeps
    /// its quotes).
    pub fn get_description(&self) -> (r: &str)
        ensures
            r@ == self.description_view(),
    {
        self.description.as_str()
    }

    /// The number of distinct choices.
    pub fn choice_count(&self) -> (r: usize)
        ensures
            r == self.labels().len(),
    {
        proof {
            assert(label_view(self.choices@).dom() =~= self.choices@.dom());
        }
        self.choices.len()
    }

    /// The label of choice `id`, where the contest has it.
    pub fn choice_text(&self, id: u64) -> (r: Option<&str>)
        ensures
            match r {
                Some(t) => self.labels().contains_key(id) && t@ == self.labels()[id],
                None => !self.labels().contains_key(id),
            },
    {
        match self.choices.get(&id) {
            Some(t) => Some(t.as_str()),
            None => None,
        }
    }
}

/// One line of the result: a choice and its number of votes.
#[derive(Debug, Clone, Copy, PartialEq, Eq, Structural)]
pub struct ChoiceResult {
    pub choice_id: u64,
    pub total_count: u64,
}

/// A choice with its label; the winner of a contest.
#[derive(Debug)]
pub struct Choice {
    pub id: u64,
    pub text: String,
}

/// The outcome of a contest: votes per choice, most voted first, and the winner.
#[derive(Debug)]
pub struct ContestResult {
    pub contest_id: u64,
    pub total_votes: u64,
    pub results: Vec<ChoiceResult>,
    pub winner: Choice,
}

/// The `(choice, count)` pairs of a result.
pub open spec fn result_pairs(rs: Seq<ChoiceResult>) -> Seq<(u64, u64)> {
    rs.map_values(|c: ChoiceResult| (c.choice_id, c.total_count))
}

/// The label of `id` in `labels`, empty where the contest has no such choice.
pub open spec fn label_or_empty(labels: Map<u64, Seq<char>>, id: u64) -> Seq<char> {
    if labels.contains_key(id) {
        labels[id]
    } else {
        Seq::empty()
    }
}

/// `r` is the result of contest `contest_id`, whose choices are `labels`, for ballots that name
/// the choices `ids`: every ballot counts, the pairs are ordered by count (ties in no particular
/// order), and the winner is the first pair's choice, or id 0 with an empty label when no ballot
/// was cast.
pub open spec fn is_result_of(
    r: ContestResult,
    contest_id: u64,
    labels: Map<u64, Seq<char>>,
    ids: Seq<u64>,
) -> bool {
    &&& r.contest_id == contest_id
    &&& r.total_votes == ids.len()
    &&& is_tally_of(result_pairs(r.results@), ids)
    &&& by_count_desc(result_pairs(r.results@))
    &&& if ids.len() == 0 {
        r.winner.id == 0 && r.winner.text@ == Seq::<char>::empty()
    } else {
        &&& r.results@.len() > 0
        &&& r.winner.id == r.results@[0].choice_id
        &&& r.winner.text@ == label_or_empty(labels, r.winner.id)
    }
}

impl ContestResult {
    /// The result of `contest` for ballots that name the choices `ids`, each of this contest.
    pub fn from_choice_ids(contest: &Contest, ids: &Vec<u64>) -> (r: ContestResult)
        ensures
            is_result_of(r, contest.id(), contest.labels(), ids@),
    {
        let ranked = ranked_counts(ids);
        let mut results: Vec<ChoiceResult> = Vec::new();
        let mut i: usize = 0;
        while i < ranked.len()
            invariant
                i <= ranked.len(),
                result_pairs(results@) == ranked@.subrange(0, i as int),
            decreases ranked.len() - i,
        {
            let (choice_id, total_count) = ranked[i];
            let ghost before = results@;
            results.push(ChoiceResult { choice_id, total_count });
            proof {
                assert(result_pairs(results@) =~= result_pairs(before).push(ranked@[i as int]));
                assert(ranked@.subrange(0, i + 1) =~= ranked@.subrange(0, i as int).push(ranked@[i as int]));
            }
            i = i + 1;
        }
        proof {
            assert(ranked@.subrange(0, ranked@.len() as int) =~= ranked@);
        }
        let total_votes = ids.len() as u64;
        let winner = if ids.len() == 0 {
            Choice { id: 0, text: String::new() }
        } else {
            proof {
                assert(ids@.contains(ids@[0]));
                assert(keys(ranked@).contains(ids@[0]));
            }
            let id = results[0].choice_id;
            let text = match contest.choice_text(id) {
                Some(t) => t.to_string(),
                None => String::new(),
            };
            Choice { id, text }
        };
        ContestResult { contest_id: contest.contest_id, total_votes, results, winner }
    }

    /// Tallies the ballot stream `lines` (one JSON ballot per line, blank lines skipped) for
    /// `contest`. Stops at the first line that is no ballot (`Parse`) or a ballot of another
    /// contest (`InvalidContest`); a ballot for a choice the contest lacks is counted all the
    /// same.
    pub fn new(contest: Contest, lines: &Vec<String>) -> (r: Result<ContestResult, PollError>)
        ensures
            match choices_of_lines(line_texts(lines@), contest.id()) {
                Ok(ids) => r is Ok && is_result_of(r->Ok_0, contest.id(), contest.labels(), ids),
                Err(e) => r is Err && r->Err_0 == e,
            },
    {
        let ids = match choices_from_lines(contest.contest_id, lines) {
            Ok(ids) => ids,
            Err(e) => return Err(e),
        };
        Ok(ContestResult::from_choice_ids(&contest, &ids))
    }
}

/// With no ballots there are no votes, no counted choices, and the winner is id 0 with an empty
/// label.
pub proof fn lemma_no_ballots(r: ContestResult, contest_id: u64, labels: Map<u64, Seq<char>>)
    requires
        is_result_of(r, contest_id, labels, Seq::empty()),
    ensures
        r.total_votes == 0,
        r.results@.len() == 0,
        r.winner.id == 0,
        r.winner.text@.len() == 0,
{
    let pairs = result_pairs(r.results@);
    if pairs.len() > 0 {
        assert(keys(pairs)[0] == pairs[0].0);
        assert(keys(pairs).contains(pairs[0].0));
        assert(Seq::<u64>::empty().contains(pairs[0].0));
    }
}

/// Where ballots were cast, no choice has more votes than the winner.
pub proof fn lemma_winner_has_most_votes(
    r: ContestResult,
    contest_id: u64,
    labels: Map<u64, Seq<char>>,
    ids: Seq<u64>,
    c: u64,
)
    requires
        is_result_of(r, contest_id, labels, ids),
        ids.len() > 0,
    ensures
        votes_for(ids, c) <= votes_for(ids, r.winner.id),
{
    lemma_first_has_most_votes(result_pairs(r.results@), ids, c);
}

} // verus!
