//! The candidate index: a deduplicated command map built from the providers'
//! advertised commands, and the candidate list derived from it.
//!
//! Each advertised command contributes the display label
//! `"{provider name}: {command}"`. Display labels are the deduplication key:
//! when two contributions collapse to the same label, the later one silently
//! overwrites the earlier (last write wins), keeping the earlier position.

use vstd::prelude::*;
use crate::matcher::Candidate;
use crate::text::push_str;

verus! {

/// A capability provider's advertised surface: its stable identifier, its
/// human-readable name, and the command tokens it advertises, in order.
pub struct Provider {
    pub server_id: u64,
    pub name: String,
    pub commands: Vec<String>,
}

/// One entry of the command map: a display label mapped to the raw command
/// token and the identifier of the provider that owns it.
pub struct CommandEntry {
    pub display: String,
    pub command: String,
    pub server_id: u64,
}

/// The mathematical value of one command entry.
#[verifier::ext_equal]
pub ghost struct EntryView {
    pub display: Seq<char>,
    pub command: Seq<char>,
    pub server_id: u64,
}

impl View for CommandEntry {
    type V = EntryView;

    open spec fn view(&self) -> EntryView {
        EntryView { display: self.display@, command: self.command@, server_id: self.server_id }
    }
}

/// The views of a sequence of command entries.
pub open spec fn entry_views(es: Seq<CommandEntry>) -> Seq<EntryView> {
    es.map_values(|e: CommandEntry| e@)
}

/// The display label of one advertised command: provider name, separator,
/// command token.
pub open spec fn label_of(name: Seq<char>, command: Seq<char>) -> Seq<char> {
    name + ": "@ + command
}

/// What one advertised command contributes to the map.
#[verifier::ext_equal]
pub ghost struct PairView {
    pub display: Seq<char>,
    pub command: Seq<char>,
    pub server_id: u64,
}

/// The entry a contribution becomes.
pub open spec fn entry_of(p: PairView) -> EntryView {
    EntryView { display: p.display, command: p.command, server_id: p.server_id }
}

/// The contributions of one provider, in the order it advertises them.
pub open spec fn provider_pairs(p: Provider) -> Seq<PairView> {
    Seq::new(
        p.commands@.len(),
        |i: int| PairView {
            display: label_of(p.name@, p.commands@[i]@),
            command: p.commands@[i]@,
            server_id: p.server_id,
        },
    )
}

/// The contributions of all providers, in order.
pub open spec fn pairs_of(ps: Seq<Provider>) -> Seq<PairView>
    decreases ps.len(),
{
    if ps.len() == 0 {
        Seq::empty()
    } else {
        pairs_of(ps.drop_last()) + provider_pairs(ps.last())
    }
}

/// The first index whose entry carries this display label, or the length when
/// no entry does.
pub open spec fn find_display(es: Seq<EntryView>, d: Seq<char>) -> int
    decreases es.len(),
{
    if es.len() == 0 {
        0
    } else if es[0].display == d {
        0
    } else {
        1 + find_display(es.drop_first(), d)
    }
}

/// One contribution entering the map: a contribution whose display label is
/// already present overwrites that entry in place; a new label is appended.
pub open spec fn upsert(es: Seq<EntryView>, p: PairView) -> Seq<EntryView> {
    let i = find_display(es, p.display);
    if i < es.len() {
        es.update(i, entry_of(p))
    } else {
        es.push(entry_of(p))
    }
}

/// The command map after every contribution has entered, in order.
pub open spec fn built_entries(ps: Seq<PairView>) -> Seq<EntryView>
    decreases ps.len(),
{
    if ps.len() == 0 {
        Seq::empty()
    } else {
        upsert(built_entries(ps.drop_last()), ps.last())
    }
}

/// No two entries share a display label.
pub open spec fn unique_displays(es: Seq<EntryView>) -> bool {
    forall|i: int, j: int| 0 <= i < j < es.len() ==> es[i].display != es[j].display
}

/// `find_display` finds the first entry with the label, and only misses when
/// no entry has it.
pub proof fn lemma_find_display(es: Seq<EntryView>, d: Seq<char>)
    ensures
        0 <= find_display(es, d) <= es.len(),
        find_display(es, d) < es.len() ==> es[find_display(es, d)].display == d,
        forall|k: int| 0 <= k < find_display(es, d) ==> es[k].display != d,
    decreases es.len(),
{
    if es.len() > 0 && es[0].display != d {
        lemma_find_display(es.drop_first(), d);
        let f = find_display(es, d);
        assert(forall|k: int| 1 <= k < f ==> es[k] == es.drop_first()[k - 1]);
    }
}

proof fn lemma_upsert_unique(es: Seq<EntryView>, p: PairView)
    requires
        unique_displays(es),
    ensures
        unique_displays(upsert(es, p)),
{
    lemma_find_display(es, p.display);
    let f = find_display(es, p.display);
    if f < es.len() {
        let r = es.update(f, entry_of(p));
        assert forall|i: int, j: int| 0 <= i < j < r.len() implies r[i].display != r[j].display by {
            assert(es[i].display != es[j].display);
        }
    } else {
        let r = es.push(entry_of(p));
        assert forall|i: int, j: int| 0 <= i < j < r.len() implies r[i].display != r[j].display by {
            if j < es.len() {
                assert(es[i].display != es[j].display);
            } else {
                assert(es[i].display != p.display);
            }
        }
    }
}

/// The command map is deduplicated: it never holds two entries with the same
/// display label.
pub proof fn lemma_built_unique(ps: Seq<PairView>)
    ensures
        unique_displays(built_entries(ps)),
    decreases ps.len(),
{
    if ps.len() > 0 {
        lemma_built_unique(ps.drop_last());
        lemma_upsert_unique(built_entries(ps.drop_last()), ps.last());
    }
}

/// The index of the last contribution carrying this display label, or `-1`
/// when no contribution does.
pub open spec fn last_index_with(ps: Seq<PairView>, d: Seq<char>) -> int
    decreases ps.len(),
{
    if ps.len() == 0 {
        -1
    } else if ps.last().display == d {
        ps.len() - 1
    } else {
        last_index_with(ps.drop_last(), d)
    }
}

proof fn lemma_last_index_range(ps: Seq<PairView>, d: Seq<char>)
    ensures
        -1 <= last_index_with(ps, d) < ps.len(),
    decreases ps.len(),
{
    if ps.len() > 0 && ps.last().display != d {
        lemma_last_index_range(ps.drop_last(), d);
    }
}

/// The last write wins: a display label contributed at least once is mapped
/// to exactly the command and provider of its last contribution, and a label
/// never contributed is absent from the map.
pub proof fn lemma_last_write_wins(ps: Seq<PairView>, d: Seq<char>)
    ensures
        last_index_with(ps, d) >= 0 ==> exists|k: int|
            0 <= k < built_entries(ps).len() && #[trigger] built_entries(ps)[k] == entry_of(
                ps[last_index_with(ps, d)],
            ) && built_entries(ps)[k].display == d,
        last_index_with(ps, d) < 0 ==> forall|k: int|
            0 <= k < built_entries(ps).len() ==> (#[trigger] built_entries(ps)[k]).display != d,
    decreases ps.len(),
{
    if ps.len() > 0 {
        let p = ps.last();
        let rest = ps.drop_last();
        let es = built_entries(rest);
        let f = find_display(es, p.display);
        lemma_find_display(es, p.display);
        lemma_last_write_wins(rest, d);
        if p.display == d {
            assert(ps[last_index_with(ps, d)] == p);
            if f < es.len() {
                assert(built_entries(ps)[f] == entry_of(p));
            } else {
                assert(built_entries(ps)[es.len() as int] == entry_of(p));
            }
        } else {
            assert(last_index_with(ps, d) == last_index_with(rest, d));
            if last_index_with(rest, d) >= 0 {
                let t = last_index_with(rest, d);
                lemma_last_index_range(rest, d);
                assert(0 <= t < rest.len());
                assert(rest[t] == ps[t]);
                let k = choose|k: int|
                    0 <= k < es.len() && #[trigger] es[k] == entry_of(rest[t]) && es[k].display
                        == d;
                assert(es[k].display == d);
                if f < es.len() {
                    assert(es[f].display == p.display);
                    assert(k != f);
                    assert(built_entries(ps)[k] == es[k]);
                } else {
                    assert(built_entries(ps)[k] == es[k]);
                }
            } else {
                assert forall|k: int|
                    0 <= k < built_entries(ps).len() implies (#[trigger] built_entries(
                    ps,
                )[k]).display != d by {
                    if f < es.len() {
                        if k != f {
                            assert(built_entries(ps)[k] == es[k]);
                        }
                    } else {
                        if k < es.len() {
                            assert(built_entries(ps)[k] == es[k]);
                        }
                    }
                }
            }
        }
    }
}

/// The display label `"{name}: {command}"` of one advertised command.
pub fn make_label(name: &String, command: &String) -> (r: String)
    ensures
        r@ == label_of(name@, command@),
{
    let mut r = name.clone();
    push_str(&mut r, ": ");
    push_str(&mut r, command.as_str());
    r
}

/// The first index whose entry carries this display label, or the length when
/// no entry does, as `find_display` states it.
pub fn find_entry(entries: &Vec<CommandEntry>, display: &String) -> (r: usize)
    ensures
        r == find_display(entry_views(entries@), display@),
{
    let ghost esv = entry_views(entries@);
    let mut k: usize = 0;
    while k < entries.len()
        invariant
            k <= entries@.len(),
            esv == entry_views(entries@),
            forall|t: int| 0 <= t < k ==> esv[t].display != display@,
        decreases entries@.len() - k,
    {
        if entries[k].display.eq(display) {
            proof {
                lemma_find_display(esv, display@);
                let f = find_display(esv, display@);
                assert(esv.len() == entries@.len());
                assert(esv[k as int] == entries@[k as int]@);
                assert(esv[k as int].display == display@);
                if 0 <= f < k {
                    assert(esv[f].display != display@);
                    assert(esv[f].display == display@);
                }
                if f > k {
                    assert(esv[k as int].display != display@);
                }
            }
            return k;
        }
        k = k + 1;
    }
    proof {
        lemma_find_display(esv, display@);
        let f = find_display(esv, display@);
        if f < esv.len() {
            assert(esv[f].display != display@);
        }
    }
    entries.len()
}

/// Builds the command map from the providers' advertised commands: one entry
/// per distinct display label, the last contribution winning on a duplicate.
pub fn build_entries(providers: &Vec<Provider>) -> (r: Vec<CommandEntry>)
    ensures
        entry_views(r@) == built_entries(pairs_of(providers@)),
        unique_displays(entry_views(r@)),
{
    let mut entries: Vec<CommandEntry> = Vec::new();
    let mut pi: usize = 0;
    proof {
        assert(entry_views(entries@) =~= built_entries(pairs_of(providers@.take(0))));
    }
    while pi < providers.len()
        invariant
            pi <= providers@.len(),
            entry_views(entries@) == built_entries(pairs_of(providers@.take(pi as int))),
        decreases providers@.len() - pi,
    {
        let p = &providers[pi];
        let ghost before = pairs_of(providers@.take(pi as int));
        proof {
            assert(before + provider_pairs(*p).take(0) =~= before);
        }
        let mut ci: usize = 0;
        while ci < p.commands.len()
            invariant
                ci <= p.commands@.len(),
                *p == providers@[pi as int],
                pi < providers@.len(),
                before == pairs_of(providers@.take(pi as int)),
                entry_views(entries@) == built_entries(before + provider_pairs(*p).take(ci as int)),
            decreases p.commands@.len() - ci,
        {
            let display = make_label(&p.name, &p.commands[ci]);
            let ghost sofar = before + provider_pairs(*p).take(ci as int);
            let ghost pair = provider_pairs(*p)[ci as int];
            proof {
                assert(pair.display == display@);
                assert((before + provider_pairs(*p).take(ci + 1)).drop_last() =~= sofar);
                assert((before + provider_pairs(*p).take(ci + 1)).last() == pair);
                assert(built_entries(before + provider_pairs(*p).take(ci + 1)) == upsert(
                    built_entries(sofar),
                    pair,
                ));
                lemma_find_display(entry_views(entries@), display@);
            }
            let idx = find_entry(&entries, &display);
            let entry = CommandEntry {
                display,
                command: p.commands[ci].clone(),
                server_id: p.server_id,
            };
            let ghost prev = entries@;
            if idx < entries.len() {
                entries.set(idx, entry);
                proof {
                    assert(entry_views(entries@) =~~= entry_views(prev).update(
                        idx as int,
                        entry_of(pair),
                    ));
                }
            } else {
                entries.push(entry);
                proof {
                    assert(entry_views(entries@) =~~= entry_views(prev).push(entry_of(pair)));
                }
            }
            ci = ci + 1;
        }
        proof {
            assert(provider_pairs(*p).take(p.commands@.len() as int) =~= provider_pairs(*p));
            assert(providers@.take(pi + 1).drop_last() =~= providers@.take(pi as int));
            assert(providers@.take(pi + 1).last() == providers@[pi as int]);
            assert(pairs_of(providers@.take(pi + 1)) == before + provider_pairs(*p));
        }
        pi = pi + 1;
    }
    proof {
        assert(providers@.take(providers@.len() as int) =~= providers@);
        lemma_built_unique(pairs_of(providers@));
    }
    entries
}

/// Whether the candidate list mirrors the command map: one candidate per
/// entry, in entry order, carrying the entry's index as its stable id and the
/// entry's display label as its string.
pub open spec fn candidates_match_entries(cs: Seq<Candidate>, es: Seq<EntryView>) -> bool {
    &&& cs.len() == es.len()
    &&& forall|i: int|
        0 <= i < cs.len() ==> (#[trigger] cs[i]).id == i && cs[i].string@ == es[i].display
}

/// The candidate list mirroring the command map.
pub fn build_candidates(entries: &Vec<CommandEntry>) -> (r: Vec<Candidate>)
    ensures
        candidates_match_entries(r@, entry_views(entries@)),
{
    let mut r: Vec<Candidate> = Vec::new();
    let mut i: usize = 0;
    while i < entries.len()
        invariant
            i <= entries@.len(),
            r@.len() == i,
            forall|t: int|
                0 <= t < i ==> (#[trigger] r@[t]).id == t && r@[t].string@ == entries@[t]@.display,
        decreases entries@.len() - i,
    {
        let c = Candidate { id: i, string: entries[i].display.clone() };
        r.push(c);
        i = i + 1;
    }
    r
}

} // verus!
