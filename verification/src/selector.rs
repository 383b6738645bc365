//! The selector: candidate index, match list, selection cursor and dispatch.
//!
//! The index is built once, when the selector opens, and is immutable
//! afterwards; the match list and the cursor are replaced on every completed
//! evaluation. Confirming resolves the selected match back through the
//! command map and, when the owning provider is still live, produces the
//! dispatch request for the caller to send; the selector closes either way.

use vstd::prelude::*;
use crate::index::CommandEntry;
use crate::index::EntryView;
use crate::index::Provider;
use crate::index::build_candidates;
use crate::index::build_entries;
use crate::index::built_entries;
use crate::index::candidates_match_entries;
use crate::index::entry_views;
use crate::index::pairs_of;
use crate::index::unique_displays;
use crate::matcher::Candidate;
use crate::matcher::StringMatch;
use crate::matcher::evaluate;
use crate::matcher::evaluation;
use crate::matcher::lemma_evaluation_ids;
use crate::matcher::match_views;

verus! {

/// A confirmed command ready to be sent: the raw command token and the
/// identifier of the provider that owns it.
pub struct DispatchRequest {
    pub command: String,
    pub server_id: u64,
}

/// The interactive command selector's state.
pub struct CommandSelector {
    pub candidates: Vec<Candidate>,
    pub entries: Vec<CommandEntry>,
    pub matches: Vec<StringMatch>,
    pub selected_index: usize,
    pub closed: bool,
}

impl CommandSelector {
    /// Well-formedness: the candidate list mirrors the deduplicated command
    /// map one to one, and every match points inside the candidate list.
    pub open spec fn wf(self) -> bool {
        &&& candidates_match_entries(self.candidates@, entry_views(self.entries@))
        &&& unique_displays(entry_views(self.entries@))
        &&& forall|k: int|
            0 <= k < self.matches@.len() ==> 0 <= (#[trigger] self.matches@[k]).candidate_id
                < self.candidates@.len()
    }

    /// The command map, as the index builder states it.
    pub open spec fn entries_view(self) -> Seq<EntryView> {
        entry_views(self.entries@)
    }

    /// Opens the selector over a snapshot of the providers attached to the
    /// document: builds the command map and the candidate list, with no
    /// matches and the cursor at the start.
    pub fn new(providers: &Vec<Provider>) -> (s: Self)
        ensures
            s.wf(),
            s.entries_view() == built_entries(pairs_of(providers@)),
            s.matches@.len() == 0,
            s.selected_index == 0,
            !s.closed,
    {
        let entries = build_entries(providers);
        let candidates = build_candidates(&entries);
        CommandSelector {
            candidates,
            entries,
            matches: Vec::new(),
            selected_index: 0,
            closed: false,
        }
    }

    /// How many matches the last evaluation produced.
    pub fn match_count(&self) -> (r: usize)
        ensures
            r == self.matches@.len(),
    {
        self.matches.len()
    }

    /// The currently highlighted match.
    pub fn selected_index(&self) -> (r: usize)
        ensures
            r == self.selected_index,
    {
        self.selected_index
    }

    /// Stores a caller-given selection verbatim; the value is not checked
    /// here and is re-clamped on the next match-list replacement.
    pub fn set_selected_index(&mut self, ix: usize)
        ensures
            final(self).selected_index == ix,
            final(self).candidates == old(self).candidates,
            final(self).entries == old(self).entries,
            final(self).matches == old(self).matches,
            final(self).closed == old(self).closed,
            old(self).wf() ==> final(self).wf(),
    {
        self.selected_index = ix;
    }

    /// Replaces the match list with a completed evaluation's output and
    /// re-clamps the cursor: the new cursor is the old one, cut down to the
    /// last valid position (zero for an empty list), so it is never left
    /// dangling.
    pub fn apply_matches(&mut self, matches: Vec<StringMatch>)
        requires
            forall|k: int|
                0 <= k < matches@.len() ==> 0 <= (#[trigger] matches@[k]).candidate_id
                    < old(self).candidates@.len(),
        ensures
            final(self).matches == matches,
            final(self).selected_index == if old(self).selected_index < matches@.len() {
                old(self).selected_index as int
            } else if matches@.len() == 0 {
                0
            } else {
                matches@.len() - 1
            },
            final(self).selected_index < max_int(1, matches@.len() as int),
            final(self).candidates == old(self).candidates,
            final(self).entries == old(self).entries,
            final(self).closed == old(self).closed,
            old(self).wf() ==> final(self).wf(),
    {
        self.matches = matches;
        let limit = if self.matches.len() == 0 {
            0
        } else {
            self.matches.len() - 1
        };
        if self.selected_index > limit {
            self.selected_index = limit;
        }
    }

    /// Re-evaluates the query against the candidate index and applies the
    /// result, as `evaluation` states it, re-clamping the cursor.
    pub fn update_matches(&mut self, query: &str)
        requires
            old(self).wf(),
        ensures
            final(self).wf(),
            match_views(final(self).matches@) == evaluation(query@, old(self).candidates@),
            final(self).selected_index == if old(self).selected_index < final(self).matches@.len() {
                old(self).selected_index as int
            } else if final(self).matches@.len() == 0 {
                0
            } else {
                final(self).matches@.len() - 1
            },
            final(self).selected_index < max_int(1, final(self).matches@.len() as int),
            final(self).candidates == old(self).candidates,
            final(self).entries == old(self).entries,
            final(self).closed == old(self).closed,
    {
        let ms = evaluate(query, &self.candidates);
        proof {
            lemma_evaluation_ids(query@, self.candidates@);
            assert forall|k: int| 0 <= k < ms@.len() implies 0 <= (#[trigger] ms@[k]).candidate_id
                < self.candidates@.len() by {
                assert(match_views(ms@)[k] == ms@[k]@);
                assert(evaluation(query@, self.candidates@).contains(match_views(ms@)[k]));
            }
        }
        self.apply_matches(ms);
    }

    /// Closes the selector: the caller observes `closed` and dismisses the
    /// surrounding view.
    pub fn dismissed(&mut self)
        ensures
            final(self).closed,
            final(self).candidates == old(self).candidates,
            final(self).entries == old(self).entries,
            final(self).matches == old(self).matches,
            final(self).selected_index == old(self).selected_index,
            old(self).wf() ==> final(self).wf(),
    {
        self.closed = true;
    }

    /// Confirms the current selection. When a match sits at the cursor, its
    /// display string resolves through the command map — the entry at the
    /// match's candidate index, since candidates and entries mirror one
    /// another and display strings are unique — and when that entry's
    /// provider is still among the live ones, the dispatch request for it is
    /// returned. Whatever happens, the selector closes; with no match at the
    /// cursor or a vanished provider, nothing is dispatched.
    pub fn confirm(&mut self, live_servers: &Vec<u64>) -> (r: Option<DispatchRequest>)
        requires
            old(self).wf(),
        ensures
            final(self).closed,
            final(self).wf(),
            final(self).candidates == old(self).candidates,
            final(self).entries == old(self).entries,
            final(self).matches == old(self).matches,
            final(self).selected_index == old(self).selected_index,
            r is Some <==> (old(self).selected_index < old(self).matches@.len()
                && live_servers@.contains(
                old(self).entries_view()[old(self).matches@[old(self).selected_index as int].candidate_id as int].server_id,
            )),
            r is Some ==> {
                let entry = old(self).entries_view()[old(self).matches@[old(self).selected_index as int].candidate_id as int];
                &&& r->Some_0.command@ == entry.command
                &&& r->Some_0.server_id == entry.server_id
            },
    {
        let mut result: Option<DispatchRequest> = None;
        if self.selected_index < self.matches.len() {
            let cid = self.matches[self.selected_index].candidate_id;
            let entry = &self.entries[cid];
            if contains_id(live_servers, entry.server_id) {
                result = Some(
                    DispatchRequest { command: entry.command.clone(), server_id: entry.server_id },
                );
            }
        }
        self.dismissed();
        result
    }
}

/// The larger of two integers.
pub open spec fn max_int(a: int, b: int) -> int {
    if a >= b {
        a
    } else {
        b
    }
}

/// Whether the identifier occurs in the list.
pub fn contains_id(ids: &Vec<u64>, x: u64) -> (r: bool)
    ensures
        r == ids@.contains(x),
{
    let mut i: usize = 0;
    while i < ids.len()
        invariant
            i <= ids@.len(),
            forall|t: int| 0 <= t < i ==> ids@[t] != x,
        decreases ids@.len() - i,
    {
        if ids[i] == x {
            return true;
        }
        i = i + 1;
    }
    false
}

} // verus!
