//! The frontier store: the crawl's staging area.  It maps each
//! discovered paper id to its record and an accumulated citation
//! signal, and remembers every id that has already been expanded so
//! that expansion stays a one-shot, destructive transition.

use vstd::prelude::*;
use vstd::pervasive::unreached;
use crate::graph::Edge;
use crate::graph::EdgeView;
use crate::graph::contains_stub;
use crate::graph::union_unique;
use crate::paper::Paper;
use crate::paper::PaperView;
use crate::paper::ProtoPaper;
use crate::paper::StubView;
use crate::paper::real_id;
use crate::threshold::Connectivity;
use crate::threshold::threshold_spec;

verus! {

/// Mathematical image of a [`FrontierEntry`].
pub struct EntryView {
    pub signal: u64,
    pub paper: PaperView,
}

/// Mathematical image of a [`FrontierStore`].
pub struct StoreView {
    pub entries: Seq<EntryView>,
    pub expanded: Seq<Seq<char>>,
}

/// A staged paper with its accumulated citation signal.
pub struct FrontierEntry {
    pub citation_signal: u64,
    pub paper: Paper,
}

/// The staging area.  `entries` holds the live, not yet expanded
/// candidates in discovery order; `expanded` the ids that have already
/// been through expansion and may never be staged again.
pub struct FrontierStore {
    pub entries: Vec<FrontierEntry>,
    pub expanded: Vec<String>,
}

impl View for FrontierEntry {
    type V = EntryView;

    open spec fn view(&self) -> EntryView {
        EntryView { signal: self.citation_signal, paper: self.paper@ }
    }
}

impl View for FrontierStore {
    type V = StoreView;

    open spec fn view(&self) -> StoreView {
        StoreView {
            entries: self.entries@.map_values(|e: FrontierEntry| e@),
            expanded: self.expanded@.map_values(|s: String| s@),
        }
    }
}

/// Index of the entry carrying `id`, or -1 when none does.
pub open spec fn entry_index(s: Seq<EntryView>, id: Seq<char>) -> int
    decreases s.len(),
{
    if s.len() == 0 {
        -1
    } else if s[0].paper.id == id {
        0
    } else {
        let rest = entry_index(s.drop_first(), id);
        if rest < 0 {
            -1
        } else {
            rest + 1
        }
    }
}

/// Whether some live entry carries `id`.
pub open spec fn has_entry(s: Seq<EntryView>, id: Seq<char>) -> bool {
    entry_index(s, id) >= 0
}

/// The signal of the entry carrying `id` (meaningful only when one does).
pub open spec fn signal_of(s: Seq<EntryView>, id: Seq<char>) -> u64 {
    s[entry_index(s, id)].signal
}

/// `entry_index` finds the first live entry with the id, and misses
/// only when no entry has it.
pub proof fn lemma_entry_index(s: Seq<EntryView>, id: Seq<char>)
    ensures
        entry_index(s, id) >= 0 ==> entry_index(s, id) < s.len() && s[entry_index(s, id)].paper.id
            == id,
        entry_index(s, id) < 0 ==> forall|i: int| 0 <= i < s.len() ==> s[i].paper.id != id,
        forall|i: int| 0 <= i < entry_index(s, id) ==> s[i].paper.id != id,
    decreases s.len(),
{
    if s.len() > 0 && s[0].paper.id != id {
        let rest = s.drop_first();
        lemma_entry_index(rest, id);
        if entry_index(rest, id) < 0 {
            assert forall|i: int| 0 <= i < s.len() implies s[i].paper.id != id by {
                if i > 0 {
                    assert(rest[i - 1] == s[i]);
                }
            }
        } else {
            assert forall|i: int| 0 <= i < entry_index(s, id) implies s[i].paper.id != id by {
                if i > 0 {
                    assert(rest[i - 1] == s[i]);
                }
            }
        }
    }
}

/// Staging touches only the live entries: the expanded set is exactly
/// preserved.
proof fn lemma_stage_all_expanded(s: StoreView, papers: Seq<PaperView>)
    ensures
        stage_all(s, papers).expanded == s.expanded,
    decreases papers.len(),
{
    if papers.len() > 0 {
        lemma_stage_all_expanded(s, papers.drop_last());
    }
}

/// The index where a given position's id is found is that position,
/// provided no earlier position has the same id.
proof fn lemma_entry_index_of(s: Seq<EntryView>, i: int)
    requires
        0 <= i < s.len(),
        forall|j: int| 0 <= j < i ==> s[j].paper.id != s[i].paper.id,
    ensures
        entry_index(s, s[i].paper.id) == i,
    decreases s.len(),
{
    lemma_entry_index(s, s[i].paper.id);
    let k = entry_index(s, s[i].paper.id);
    if k < 0 {
    } else {
        if k < i {
        } else if k > i {
        }
    }
}

/// Live entries are keyed by id (no duplicates) and every signal is at
/// least one.
pub open spec fn entries_wf(s: Seq<EntryView>) -> bool {
    &&& forall|i: int, j: int|
        0 <= i < j < s.len() ==> s[i].paper.id != s[j].paper.id
    &&& forall|i: int| 0 <= i < s.len() ==> s[i].signal >= 1
}

/// The store's invariant: well-formed entries, none of which carries an
/// id that has already been expanded.
pub open spec fn store_wf(s: StoreView) -> bool {
    &&& entries_wf(s.entries)
    &&& forall|i: int|
        0 <= i < s.entries.len() ==> !s.expanded.contains(#[trigger] s.entries[i].paper.id)
}

/// Staging one freshly fetched record.  An id that was already expanded
/// is refused outright; a live id keeps its accumulated signal and only
/// has its record refreshed; a new id enters with signal 1.
pub open spec fn stage_one(s: StoreView, p: PaperView) -> StoreView {
    if s.expanded.contains(p.id) {
        s
    } else {
        let k = entry_index(s.entries, p.id);
        if k >= 0 {
            StoreView {
                entries: s.entries.update(k, EntryView { signal: s.entries[k].signal, paper: p }),
                expanded: s.expanded,
            }
        } else {
            StoreView {
                entries: s.entries.push(EntryView { signal: 1, paper: p }),
                expanded: s.expanded,
            }
        }
    }
}

/// Staging a whole batch, in fetch order.
pub open spec fn stage_all(s: StoreView, papers: Seq<PaperView>) -> StoreView
    decreases papers.len(),
{
    if papers.len() == 0 {
        s
    } else {
        stage_one(stage_all(s, papers.drop_last()), papers.last())
    }
}

/// A signal increment; it saturates at the machine bound instead of
/// wrapping.
pub open spec fn sat_inc(n: u64) -> u64 {
    if n < u64::MAX {
        (n + 1) as u64
    } else {
        n
    }
}

/// One citation-signal increment for the live entry carrying `id`, if
/// any; entries already expanded (hence removed) receive nothing.
pub open spec fn bump_id(s: Seq<EntryView>, id: Seq<char>) -> Seq<EntryView> {
    let k = entry_index(s, id);
    if k >= 0 {
        s.update(k, EntryView { signal: sat_inc(s[k].signal), paper: s[k].paper })
    } else {
        s
    }
}

/// Increments from one record's reference list: one per reference stub
/// with a present, non-empty id, in list order.
pub open spec fn bump_refs(s: Seq<EntryView>, refs: Seq<StubView>) -> Seq<EntryView>
    decreases refs.len(),
{
    if refs.len() == 0 {
        s
    } else {
        let prev = bump_refs(s, refs.drop_last());
        if real_id(refs.last()) {
            match refs.last().id {
                Some(id) => bump_id(prev, id),
                None => prev,
            }
        } else {
            prev
        }
    }
}

/// Increments from a whole batch, record by record in fetch order.
pub open spec fn bump_papers(s: Seq<EntryView>, papers: Seq<PaperView>) -> Seq<EntryView>
    decreases papers.len(),
{
    if papers.len() == 0 {
        s
    } else {
        bump_refs(bump_papers(s, papers.drop_last()), papers.last().references)
    }
}

/// A full accumulation round: stage the batch, then credit every
/// reference occurrence across it.
pub open spec fn accumulate_spec(s: StoreView, papers: Seq<PaperView>) -> StoreView {
    let staged = stage_all(s, papers);
    StoreView { entries: bump_papers(staged.entries, papers), expanded: s.expanded }
}

impl FrontierStore {
    /// An empty store: nothing staged, nothing expanded.
    pub fn new() -> (r: FrontierStore)
        ensures
            r@.entries == Seq::<EntryView>::empty(),
            r@.expanded == Seq::<Seq<char>>::empty(),
            store_wf(r@),
    {
        let r = FrontierStore { entries: Vec::new(), expanded: Vec::new() };
        proof {
            assert(r@.entries =~= Seq::<EntryView>::empty());
            assert(r@.expanded =~= Seq::<Seq<char>>::empty());
        }
        r
    }

    fn is_expanded(&self, id: &String) -> (r: bool)
        ensures
            r == self@.expanded.contains(id@),
    {
        let ghost views = self@.expanded;
        let mut i: usize = 0;
        while i < self.expanded.len()
            invariant
                i <= self.expanded.len(),
                views == self@.expanded,
                forall|j: int| 0 <= j < i ==> views[j] != id@,
            decreases self.expanded.len() - i,
        {
            if self.expanded[i].eq(id) {
                assert(views[i as int] == id@);
                return true;
            }
            i = i + 1;
        }
        false
    }

    fn find_index(&self, id: &String) -> (r: Option<usize>)
        ensures
            match r {
                Some(k) => k < self@.entries.len() && k == entry_index(self@.entries, id@),
                None => entry_index(self@.entries, id@) < 0,
            },
    {
        let ghost views = self@.entries;
        let mut i: usize = 0;
        while i < self.entries.len()
            invariant
                i <= self.entries.len(),
                views == self@.entries,
                forall|j: int| 0 <= j < i ==> views[j].paper.id != id@,
            decreases self.entries.len() - i,
        {
            if self.entries[i].paper.id.eq(id) {
                proof {
                    lemma_entry_index_of(views, i as int);
                }
                return Some(i);
            }
            i = i + 1;
        }
        proof {
            lemma_entry_index(views, id@);
        }
        None
    }

    /// Stages one record, as [`stage_one`] describes.
    fn stage_record(&mut self, p: Paper)
        requires
            store_wf(old(self)@),
        ensures
            final(self)@ == stage_one(old(self)@, p@),
            store_wf(final(self)@),
    {
        if self.is_expanded(&p.id) {
            return ;
        }
        proof {
            lemma_entry_index(self@.entries, p@.id);
        }
        match self.find_index(&p.id) {
            Some(k) => {
                let signal = self.entries[k].citation_signal;
                self.entries.set(k, FrontierEntry { citation_signal: signal, paper: p });
                proof {
                    let olds = old(self)@.entries;
                    assert(self@.entries =~= olds.update(
                        entry_index(olds, p@.id),
                        EntryView { signal: olds[entry_index(olds, p@.id)].signal, paper: p@ },
                    ));
                    assert forall|i: int| 0 <= i < self@.entries.len() implies !self@.expanded.contains(
                        #[trigger] self@.entries[i].paper.id,
                    ) by {
                        assert(self@.entries[i].paper.id == olds[i].paper.id);
                    }
                }
            },
            None => {
                self.entries.push(FrontierEntry { citation_signal: 1, paper: p });
                proof {
                    let olds = old(self)@.entries;
                    assert(self@.entries =~= olds.push(EntryView { signal: 1, paper: p@ }));
                }
            },
        }
    }

    /// Seeds the store with the first fetched batch: one entry per
    /// record with signal 1; a repeated id does not lower an existing
    /// signal.
    pub fn seed(&mut self, papers: &Vec<Paper>)
        requires
            store_wf(old(self)@),
        ensures
            final(self)@ == stage_all(old(self)@, papers@.map_values(|p: Paper| p@)),
            store_wf(final(self)@),
    {
        self.stage_batch(papers);
    }

    fn stage_batch(&mut self, papers: &Vec<Paper>)
        requires
            store_wf(old(self)@),
        ensures
            final(self)@ == stage_all(old(self)@, papers@.map_values(|p: Paper| p@)),
            store_wf(final(self)@),
    {
        let ghost pviews = papers@.map_values(|p: Paper| p@);
        let mut i: usize = 0;
        while i < papers.len()
            invariant
                i <= papers.len(),
                pviews == papers@.map_values(|p: Paper| p@),
                self@ == stage_all(old(self)@, pviews.take(i as int)),
                store_wf(self@),
            decreases papers.len() - i,
        {
            proof {
                assert(pviews.take(i + 1).drop_last() =~= pviews.take(i as int));
                assert(pviews.take(i + 1).last() == pviews[i as int]);
            }
            self.stage_record(papers[i].clone());
            i = i + 1;
        }
        proof {
            assert(pviews.take(papers@.len() as int) =~= pviews);
        }
    }

    /// One citation-signal increment, as [`bump_id`] describes.
    fn bump_signal(&mut self, id: &String)
        requires
            store_wf(old(self)@),
        ensures
            final(self)@.entries == bump_id(old(self)@.entries, id@),
            final(self)@.expanded == old(self)@.expanded,
            store_wf(final(self)@),
    {
        proof {
            lemma_entry_index(self@.entries, id@);
        }
        match self.find_index(id) {
            Some(k) => {
                let signal = self.entries[k].citation_signal;
                let bumped: u64 = if signal < u64::MAX {
                    signal + 1
                } else {
                    signal
                };
                let paper = self.entries[k].paper.clone();
                self.entries.set(k, FrontierEntry { citation_signal: bumped, paper });
                proof {
                    let olds = old(self)@.entries;
                    assert(self@.entries =~= olds.update(
                        k as int,
                        EntryView { signal: sat_inc(olds[k as int].signal), paper: olds[k as int].paper },
                    ));
                    assert forall|i: int| 0 <= i < self@.entries.len() implies !self@.expanded.contains(
                        #[trigger] self@.entries[i].paper.id,
                    ) by {
                        assert(self@.entries[i].paper.id == olds[i].paper.id);
                    }
                }
            },
            None => {},
        }
    }

    /// Accumulates one round's freshly fetched records: stages every
    /// record not yet seen (and not already expanded), then raises the
    /// signal of a live entry once for each reference occurrence of its
    /// id anywhere across the batch.
    pub fn accumulate(&mut self, papers: &Vec<Paper>)
        requires
            store_wf(old(self)@),
        ensures
            final(self)@ == accumulate_spec(old(self)@, papers@.map_values(|p: Paper| p@)),
            store_wf(final(self)@),
    {
        let ghost pviews = papers@.map_values(|p: Paper| p@);
        self.stage_batch(papers);
        proof {
            lemma_stage_all_expanded(old(self)@, pviews);
        }
        let ghost staged = self@.entries;
        let mut i: usize = 0;
        while i < papers.len()
            invariant
                i <= papers.len(),
                pviews == papers@.map_values(|p: Paper| p@),
                self@.entries == bump_papers(staged, pviews.take(i as int)),
                self@.expanded == old(self)@.expanded,
                store_wf(self@),
            decreases papers.len() - i,
        {
            proof {
                assert(pviews.take(i + 1).drop_last() =~= pviews.take(i as int));
                assert(pviews.take(i + 1).last() == pviews[i as int]);
            }
            let ghost before_refs = self@.entries;
            let ghost refs = pviews[i as int].references;
            let paper = &papers[i];
            let mut j: usize = 0;
            while j < paper.references.len()
                invariant
                    j <= paper.references.len(),
                    refs == paper.references@.map_values(|q: ProtoPaper| q@),
                    self@.entries == bump_refs(before_refs, refs.take(j as int)),
                    self@.expanded == old(self)@.expanded,
                    store_wf(self@),
                decreases paper.references.len() - j,
            {
                proof {
                    assert(refs.take(j + 1).drop_last() =~= refs.take(j as int));
                    assert(refs.take(j + 1).last() == refs[j as int]);
                }
                match &paper.references[j].id {
                    Some(rid) => {
                        if !rid.as_str().is_empty() {
                            self.bump_signal(rid);
                        }
                    },
                    None => {},
                }
                j = j + 1;
            }
            proof {
                assert(refs.take(paper.references@.len() as int) =~= refs);
            }
            i = i + 1;
        }
        proof {
            assert(pviews.take(papers@.len() as int) =~= pviews);
        }
    }
}

/// An entry clears a round's bar when its signal has reached the
/// threshold.
pub open spec fn is_selected(e: EntryView, c: Connectivity, round: nat) -> bool {
    threshold_spec(c, round) <= e.signal
}

/// The entries a round selects for expansion, in store order.
pub open spec fn selected_of(s: Seq<EntryView>, c: Connectivity, round: nat) -> Seq<EntryView>
    decreases s.len(),
{
    if s.len() == 0 {
        s
    } else {
        let rest = selected_of(s.drop_last(), c, round);
        if is_selected(s.last(), c, round) {
            rest.push(s.last())
        } else {
            rest
        }
    }
}

/// The entries a round leaves staged, in store order.
pub open spec fn remaining_of(s: Seq<EntryView>, c: Connectivity, round: nat) -> Seq<EntryView>
    decreases s.len(),
{
    if s.len() == 0 {
        s
    } else {
        let rest = remaining_of(s.drop_last(), c, round);
        if is_selected(s.last(), c, round) {
            rest
        } else {
            rest.push(s.last())
        }
    }
}

/// The ids of a run of entries, in order.
pub open spec fn ids_of(sel: Seq<EntryView>) -> Seq<Seq<char>> {
    sel.map_values(|e: EntryView| e.paper.id)
}

/// The referencer-to-referencee pairs of one expanded record: what a
/// round commits as graph edges.
pub open spec fn edge_pairs(from: Seq<char>, refs: Seq<StubView>) -> Seq<EdgeView>
    decreases refs.len(),
{
    if refs.len() == 0 {
        Seq::empty()
    } else {
        let rest = edge_pairs(from, refs.drop_last());
        match refs.last().id {
            Some(to) => rest.push(EdgeView { from_id: from, to_id: to }),
            None => rest,
        }
    }
}

/// The present, non-empty reference ids of one record: what is fetched
/// next.
pub open spec fn fetch_ids(refs: Seq<StubView>) -> Seq<Seq<char>>
    decreases refs.len(),
{
    if refs.len() == 0 {
        Seq::empty()
    } else {
        let rest = fetch_ids(refs.drop_last());
        if real_id(refs.last()) {
            match refs.last().id {
                Some(id) => rest.push(id),
                None => rest,
            }
        } else {
            rest
        }
    }
}

/// The full reference-stub lists of a selection, entry by entry:
/// everything a round commits as graph nodes, id-less stubs included.
pub open spec fn nodes_of(sel: Seq<EntryView>) -> Seq<StubView>
    decreases sel.len(),
{
    if sel.len() == 0 {
        Seq::empty()
    } else {
        nodes_of(sel.drop_last()) + sel.last().paper.references
    }
}

/// All edges of a selection, entry by entry.
pub open spec fn edges_of(sel: Seq<EntryView>) -> Seq<EdgeView>
    decreases sel.len(),
{
    if sel.len() == 0 {
        Seq::empty()
    } else {
        edges_of(sel.drop_last()) + edge_pairs(sel.last().paper.id, sel.last().paper.references)
    }
}

/// All ids to fetch for a selection, entry by entry.
pub open spec fn fetch_of(sel: Seq<EntryView>) -> Seq<Seq<char>>
    decreases sel.len(),
{
    if sel.len() == 0 {
        Seq::empty()
    } else {
        fetch_of(sel.drop_last()) + fetch_ids(sel.last().paper.references)
    }
}

/// Everything a selection puts into the selected run comes from the
/// store and clears the bar; everything left in the remaining run comes
/// from the store and does not.
pub proof fn lemma_partition_members(s: Seq<EntryView>, c: Connectivity, round: nat)
    ensures
        forall|e: EntryView|
            #[trigger] selected_of(s, c, round).contains(e) ==> s.contains(e) && is_selected(
                e,
                c,
                round,
            ),
        forall|e: EntryView|
            #[trigger] remaining_of(s, c, round).contains(e) ==> s.contains(e) && !is_selected(
                e,
                c,
                round,
            ),
        forall|e: EntryView|
            s.contains(e) && is_selected(e, c, round) ==> #[trigger] selected_of(
                s,
                c,
                round,
            ).contains(e),
    decreases s.len(),
{
    if s.len() > 0 {
        let rest = s.drop_last();
        lemma_partition_members(rest, c, round);
        assert forall|e: EntryView| #[trigger]
            selected_of(s, c, round).contains(e) implies s.contains(e) && is_selected(
            e,
            c,
            round,
        ) by {
            let out = selected_of(s, c, round);
            let sub = selected_of(rest, c, round);
            let j = choose|j: int| 0 <= j < out.len() && out[j] == e;
            if is_selected(s.last(), c, round) && j == out.len() - 1 {
                assert(e == s.last());
                assert(s[s.len() - 1] == e);
            } else {
                if is_selected(s.last(), c, round) {
                    assert(out == sub.push(s.last()));
                    assert(out[j] == sub[j]);
                } else {
                    assert(out == sub);
                }
                assert(sub.contains(e));
                assert(rest.contains(e));
                let i = choose|i: int| 0 <= i < rest.len() && rest[i] == e;
                assert(s[i] == e);
            }
        }
        assert forall|e: EntryView| #[trigger]
            remaining_of(s, c, round).contains(e) implies s.contains(e) && !is_selected(
            e,
            c,
            round,
        ) by {
            let out = remaining_of(s, c, round);
            let sub = remaining_of(rest, c, round);
            let j = choose|j: int| 0 <= j < out.len() && out[j] == e;
            if !is_selected(s.last(), c, round) && j == out.len() - 1 {
                assert(e == s.last());
                assert(s[s.len() - 1] == e);
            } else {
                if !is_selected(s.last(), c, round) {
                    assert(out == sub.push(s.last()));
                    assert(out[j] == sub[j]);
                } else {
                    assert(out == sub);
                }
                assert(sub.contains(e));
                assert(rest.contains(e));
                let i = choose|i: int| 0 <= i < rest.len() && rest[i] == e;
                assert(s[i] == e);
            }
        }
        assert forall|e: EntryView| s.contains(e) && is_selected(e, c, round) implies #[trigger]
            selected_of(s, c, round).contains(e) by {
            let i = choose|i: int| 0 <= i < s.len() && s[i] == e;
            if i < s.len() - 1 {
                assert(rest[i] == e);
                assert(rest.contains(e));
                let sub = selected_of(rest, c, round);
                assert(sub.contains(e));
                let j = choose|j: int| 0 <= j < sub.len() && sub[j] == e;
                if is_selected(s.last(), c, round) {
                    assert(sub.push(s.last())[j] == e);
                }
            } else {
                let sub = selected_of(rest, c, round);
                assert(sub.push(s.last())[sub.len() as int] == e);
            }
        }
    }
}

/// A bar beyond the largest possible signal selects nothing: every
/// signal is a machine word, so no entry can clear it.  The bar only
/// grows with the round, so no later round selects anything either.
pub proof fn lemma_unreachable_bar_selects_nothing(s: Seq<EntryView>, c: Connectivity, round: nat)
    requires
        threshold_spec(c, round) > u64::MAX,
    ensures
        selected_of(s, c, round).len() == 0,
    decreases s.len(),
{
    if s.len() > 0 {
        lemma_unreachable_bar_selects_nothing(s.drop_last(), c, round);
    }
}

/// What one round's selection hands on: the reference stubs to commit
/// as nodes, the citation pairs to commit as edges, and the ids to
/// fetch for the next round.
pub struct Expansion {
    pub nodes: Vec<ProtoPaper>,
    pub edges: Vec<Edge>,
    pub to_fetch: Vec<String>,
}

impl Clone for FrontierEntry {
    fn clone(&self) -> (r: Self)
        ensures
            r@ == self@,
            r.paper.id == self.paper.id,
    {
        FrontierEntry { citation_signal: self.citation_signal, paper: self.paper.clone() }
    }
}

proof fn lemma_entries_wf_drop_last(s: Seq<EntryView>)
    requires
        entries_wf(s),
        s.len() > 0,
    ensures
        entries_wf(s.drop_last()),
{
    let rest = s.drop_last();
    assert forall|i: int, j: int| 0 <= i < j < rest.len() implies rest[i].paper.id
        != rest[j].paper.id by {
        assert(rest[i] == s[i]);
        assert(rest[j] == s[j]);
    }
    assert forall|i: int| 0 <= i < rest.len() implies rest[i].signal >= 1 by {
        assert(rest[i] == s[i]);
    }
}

/// What a round leaves staged is still well formed: ids stay pairwise
/// distinct and signals at least one.
proof fn lemma_remaining_wf(s: Seq<EntryView>, c: Connectivity, round: nat)
    requires
        entries_wf(s),
    ensures
        entries_wf(remaining_of(s, c, round)),
    decreases s.len(),
{
    if s.len() > 0 {
        let rest = s.drop_last();
        lemma_entries_wf_drop_last(s);
        lemma_remaining_wf(rest, c, round);
        lemma_partition_members(rest, c, round);
        if !is_selected(s.last(), c, round) {
            let sub = remaining_of(rest, c, round);
            let out = sub.push(s.last());
            assert forall|i: int, j: int| 0 <= i < j < out.len() implies out[i].paper.id
                != out[j].paper.id by {
                if j < sub.len() {
                    assert(out[i] == sub[i]);
                    assert(out[j] == sub[j]);
                } else {
                    assert(out[j] == s.last());
                    assert(out[i] == sub[i]);
                    assert(sub.contains(sub[i]));
                    assert(rest.contains(sub[i]));
                    let m = choose|m: int| 0 <= m < rest.len() && rest[m] == sub[i];
                    assert(s[m] == sub[i]);
                    assert(s[s.len() - 1] == s.last());
                }
            }
            assert forall|i: int| 0 <= i < out.len() implies out[i].signal >= 1 by {
                if i < sub.len() {
                    assert(out[i] == sub[i]);
                    assert(sub.contains(sub[i]));
                    assert(rest.contains(sub[i]));
                    let m = choose|m: int| 0 <= m < rest.len() && rest[m] == sub[i];
                } else {
                    assert(out[i] == s.last());
                    assert(s[s.len() - 1] == s.last());
                }
            }
        }
    }
}

impl FrontierStore {
    /// Selects this round's entries for expansion and removes them from
    /// the store for good: an expanded id can never be staged or
    /// selected again.  Returns the full reference-stub lists to commit
    /// as nodes (id-less stubs included), the citation pairs to commit
    /// as edges, and the non-empty reference ids to fetch next.
    pub fn select_for_expansion(&mut self, round: u64, connectivity: &Connectivity) -> (x:
        Expansion)
        requires
            store_wf(old(self)@),
            connectivity.wf(),
            threshold_spec(*connectivity, round as nat) <= u64::MAX,
        ensures
            final(self)@.entries == remaining_of(old(self)@.entries, *connectivity, round as nat),
            final(self)@.expanded == old(self)@.expanded + ids_of(
                selected_of(old(self)@.entries, *connectivity, round as nat),
            ),
            x.nodes@.map_values(|p: ProtoPaper| p@) == nodes_of(
                selected_of(old(self)@.entries, *connectivity, round as nat),
            ),
            x.edges@.map_values(|e: Edge| e@) == edges_of(
                selected_of(old(self)@.entries, *connectivity, round as nat),
            ),
            x.to_fetch@.map_values(|s: String| s@) == fetch_of(
                selected_of(old(self)@.entries, *connectivity, round as nat),
            ),
            store_wf(final(self)@),
    {
        let ghost c = *connectivity;
        let ghost r = round as nat;
        let ghost olds = self@.entries;
        let bar = match connectivity.threshold(round) {
            Some(t) => t,
            None => unreached(),
        };
        let mut kept: Vec<FrontierEntry> = Vec::new();
        let mut picked: Vec<FrontierEntry> = Vec::new();
        let mut i: usize = 0;
        while i < self.entries.len()
            invariant
                i <= self.entries.len(),
                olds == self@.entries,
                bar == threshold_spec(c, r),
                kept@.map_values(|e: FrontierEntry| e@) == remaining_of(olds.take(i as int), c, r),
                picked@.map_values(|e: FrontierEntry| e@) == selected_of(olds.take(i as int), c, r),
            decreases self.entries.len() - i,
        {
            proof {
                assert(olds.take(i + 1).drop_last() =~= olds.take(i as int));
                assert(olds.take(i + 1).last() == olds[i as int]);
            }
            let entry = self.entries[i].clone();
            if entry.citation_signal >= bar {
                let ghost before = picked@.map_values(|e: FrontierEntry| e@);
                picked.push(entry);
                proof {
                    assert(picked@.map_values(|e: FrontierEntry| e@) =~= before.push(
                        olds[i as int],
                    ));
                }
            } else {
                let ghost before = kept@.map_values(|e: FrontierEntry| e@);
                kept.push(entry);
                proof {
                    assert(kept@.map_values(|e: FrontierEntry| e@) =~= before.push(
                        olds[i as int],
                    ));
                }
            }
            i = i + 1;
        }
        proof {
            assert(olds.take(self.entries@.len() as int) =~= olds);
        }
        self.entries = kept;
        let ghost sel = selected_of(olds, c, r);
        let ghost old_expanded = old(self)@.expanded;
        let mut nodes: Vec<ProtoPaper> = Vec::new();
        let mut edges: Vec<Edge> = Vec::new();
        let mut to_fetch: Vec<String> = Vec::new();
        let mut k: usize = 0;
        while k < picked.len()
            invariant
                k <= picked.len(),
                sel == picked@.map_values(|e: FrontierEntry| e@),
                self@.entries == remaining_of(olds, c, r),
                self@.expanded == old_expanded + ids_of(sel.take(k as int)),
                nodes@.map_values(|p: ProtoPaper| p@) == nodes_of(sel.take(k as int)),
                edges@.map_values(|e: Edge| e@) == edges_of(sel.take(k as int)),
                to_fetch@.map_values(|s: String| s@) == fetch_of(sel.take(k as int)),
            decreases picked.len() - k,
        {
            proof {
                assert(sel.take(k + 1).drop_last() =~= sel.take(k as int));
                assert(sel.take(k + 1).last() == sel[k as int]);
            }
            let from_id = picked[k].paper.id.clone();
            proof {
                let before = self@.expanded;
                assert(ids_of(sel.take(k + 1)) =~= ids_of(sel.take(k as int)).push(
                    sel[k as int].paper.id,
                ));
            }
            let ghost expanded_before = self@.expanded;
            self.expanded.push(from_id.clone());
            proof {
                assert(self@.expanded =~= expanded_before.push(sel[k as int].paper.id));
                assert(self@.expanded =~= old_expanded + ids_of(sel.take(k + 1)));
            }
            let ghost refs = sel[k as int].paper.references;
            let paper = &picked[k].paper;
            let mut j: usize = 0;
            while j < paper.references.len()
                invariant
                    j <= paper.references.len(),
                    refs == paper.references@.map_values(|q: ProtoPaper| q@),
                    from_id@ == sel[k as int].paper.id,
                    k < sel.len(),
                    nodes@.map_values(|p: ProtoPaper| p@) == nodes_of(sel.take(k as int))
                        + refs.take(j as int),
                    edges@.map_values(|e: Edge| e@) == edges_of(sel.take(k as int)) + edge_pairs(
                        sel[k as int].paper.id,
                        refs.take(j as int),
                    ),
                    to_fetch@.map_values(|s: String| s@) == fetch_of(sel.take(k as int))
                        + fetch_ids(refs.take(j as int)),
                decreases paper.references.len() - j,
            {
                proof {
                    assert(refs.take(j + 1).drop_last() =~= refs.take(j as int));
                    assert(refs.take(j + 1).last() == refs[j as int]);
                }
                let stub = &paper.references[j];
                let ghost nodes_before = nodes@.map_values(|p: ProtoPaper| p@);
                nodes.push(stub.clone());
                proof {
                    assert(nodes@.map_values(|p: ProtoPaper| p@) =~= nodes_before.push(
                        refs[j as int],
                    ));
                    assert(refs.take(j + 1) =~= refs.take(j as int).push(refs[j as int]));
                }
                match &stub.id {
                    Some(rid) => {
                        let ghost edges_before = edges@.map_values(|e: Edge| e@);
                        edges.push(Edge { from_id: from_id.clone(), to_id: rid.clone() });
                        proof {
                            assert(edges@.map_values(|e: Edge| e@) =~= edges_before.push(
                                EdgeView {
                                    from_id: sel[k as int].paper.id,
                                    to_id: refs[j as int].id->0,
                                },
                            ));
                        }
                        if !rid.as_str().is_empty() {
                            let ghost fetch_before = to_fetch@.map_values(|s: String| s@);
                            to_fetch.push(rid.clone());
                            proof {
                                assert(to_fetch@.map_values(|s: String| s@) =~= fetch_before.push(
                                    refs[j as int].id->0,
                                ));
                            }
                        }
                    },
                    None => {},
                }
                j = j + 1;
            }
            proof {
                assert(refs.take(paper.references@.len() as int) =~= refs);
            }
            k = k + 1;
        }
        proof {
            assert(sel.take(picked@.len() as int) =~= sel);
            lemma_remaining_wf(olds, c, r);
            lemma_partition_members(olds, c, r);
            let fin = self@;
            assert forall|i2: int| 0 <= i2 < fin.entries.len() implies !fin.expanded.contains(
                #[trigger] fin.entries[i2].paper.id,
            ) by {
                let e = fin.entries[i2];
                assert(fin.entries.contains(e));
                assert(olds.contains(e) && !is_selected(e, c, r));
                let m = choose|m: int| 0 <= m < olds.len() && olds[m] == e;
                if fin.expanded.contains(e.paper.id) {
                    let q = choose|q: int|
                        0 <= q < fin.expanded.len() && fin.expanded[q] == e.paper.id;
                    if q < old_expanded.len() {
                        assert(old_expanded[q] == e.paper.id);
                        assert(old_expanded.contains(e.paper.id));
                        assert(store_wf(old(self)@));
                    } else {
                        let w = q - old_expanded.len();
                        assert(ids_of(sel)[w] == e.paper.id);
                        assert(sel[w].paper.id == e.paper.id);
                        assert(sel.contains(sel[w]));
                        assert(olds.contains(sel[w]) && is_selected(sel[w], c, r));
                        let m2 = choose|m2: int| 0 <= m2 < olds.len() && olds[m2] == sel[w];
                        assert(olds[m2].paper.id == olds[m].paper.id);
                        if m2 != m {
                            assert(false);
                        } else {
                            assert(olds[m] == e && olds[m] == sel[w]);
                            assert(false);
                        }
                    }
                }
            }
        }
        Expansion { nodes, edges, to_fetch }
    }
}

impl FrontierStore {
    /// Selects a round's entries, or refuses the round outright when
    /// the bar itself exceeds the largest possible signal: nothing
    /// could clear such a bar, so refusing equals selecting nothing,
    /// and the store is untouched.
    pub fn try_select(&mut self, round: u64, connectivity: &Connectivity) -> (r: Option<Expansion>)
        requires
            store_wf(old(self)@),
            connectivity.wf(),
        ensures
            match r {
                Some(x) => {
                    &&& threshold_spec(*connectivity, round as nat) <= u64::MAX
                    &&& final(self)@.entries == remaining_of(
                        old(self)@.entries,
                        *connectivity,
                        round as nat,
                    )
                    &&& final(self)@.expanded == old(self)@.expanded + ids_of(
                        selected_of(old(self)@.entries, *connectivity, round as nat),
                    )
                    &&& x.nodes@.map_values(|p: ProtoPaper| p@) == nodes_of(
                        selected_of(old(self)@.entries, *connectivity, round as nat),
                    )
                    &&& x.edges@.map_values(|e: Edge| e@) == edges_of(
                        selected_of(old(self)@.entries, *connectivity, round as nat),
                    )
                    &&& x.to_fetch@.map_values(|s: String| s@) == fetch_of(
                        selected_of(old(self)@.entries, *connectivity, round as nat),
                    )
                    &&& store_wf(final(self)@)
                },
                None => {
                    &&& threshold_spec(*connectivity, round as nat) > u64::MAX
                    &&& *final(self) == *old(self)
                },
            },
    {
        match connectivity.threshold(round) {
            Some(_) => Some(self.select_for_expansion(round, connectivity)),
            None => None,
        }
    }
}

/// Expansion is one-shot.  If a round selects `id`, then no later
/// selection of the same crawl can pick it again: the first selection
/// marks `id` expanded, every store operation only grows the expanded
/// record (the premise), and a well-formed store never stages an
/// expanded id.
pub proof fn lemma_expansion_one_shot(
    s1: StoreView,
    c1: Connectivity,
    r1: nat,
    s2: StoreView,
    c2: Connectivity,
    r2: nat,
    id: Seq<char>,
)
    requires
        store_wf(s2),
        ids_of(selected_of(s1.entries, c1, r1)).contains(id),
        forall|x: Seq<char>|
            (s1.expanded + ids_of(selected_of(s1.entries, c1, r1))).contains(x)
                ==> s2.expanded.contains(x),
    ensures
        !ids_of(selected_of(s2.entries, c2, r2)).contains(id),
{
    let sel1 = selected_of(s1.entries, c1, r1);
    let pre = s1.expanded + ids_of(sel1);
    let w = choose|w: int| 0 <= w < ids_of(sel1).len() && ids_of(sel1)[w] == id;
    assert(pre[s1.expanded.len() + w] == id);
    assert(pre.contains(id));
    assert(s2.expanded.contains(id));
    if ids_of(selected_of(s2.entries, c2, r2)).contains(id) {
        let sel2 = selected_of(s2.entries, c2, r2);
        let v = choose|v: int| 0 <= v < ids_of(sel2).len() && ids_of(sel2)[v] == id;
        assert(sel2[v].paper.id == id);
        assert(sel2.contains(sel2[v]));
        lemma_partition_members(s2.entries, c2, r2);
        assert(s2.entries.contains(sel2[v]));
        let m = choose|m: int| 0 <= m < s2.entries.len() && s2.entries[m] == sel2[v];
        assert(!s2.expanded.contains(s2.entries[m].paper.id));
        assert(false);
    }
}

/// Occurrences of `id` among one reference list's countable stubs.
pub open spec fn refs_citing(refs: Seq<StubView>, id: Seq<char>) -> nat
    decreases refs.len(),
{
    if refs.len() == 0 {
        0
    } else {
        refs_citing(refs.drop_last(), id) + if real_id(refs.last()) && refs.last().id == Some(id) {
            1nat
        } else {
            0nat
        }
    }
}

/// Occurrences of `id` among the reference lists of a whole batch.
pub open spec fn papers_citing(papers: Seq<PaperView>, id: Seq<char>) -> nat
    decreases papers.len(),
{
    if papers.len() == 0 {
        0
    } else {
        papers_citing(papers.drop_last(), id) + refs_citing(papers.last().references, id)
    }
}

proof fn lemma_entry_index_update(s: Seq<EntryView>, k: int, e: EntryView, id: Seq<char>)
    requires
        0 <= k < s.len(),
        s[k].paper.id == e.paper.id,
    ensures
        entry_index(s.update(k, e), id) == entry_index(s, id),
    decreases s.len(),
{
    let s2 = s.update(k, e);
    if k == 0 {
        assert(s2[0].paper.id == s[0].paper.id);
        if s[0].paper.id == id {
        } else {
            assert(s2.drop_first() =~= s.drop_first());
        }
    } else {
        assert(s2[0] == s[0]);
        if s[0].paper.id == id {
        } else {
            assert(s2.drop_first() =~= s.drop_first().update(k - 1, e));
            lemma_entry_index_update(s.drop_first(), k - 1, e, id);
        }
    }
}

proof fn lemma_entry_index_push(s: Seq<EntryView>, e: EntryView, id: Seq<char>)
    requires
        entry_index(s, id) >= 0,
    ensures
        entry_index(s.push(e), id) == entry_index(s, id),
    decreases s.len(),
{
    if s.len() > 0 {
        if s[0].paper.id == id {
            assert(s.push(e)[0] == s[0]);
        } else {
            assert(s.push(e)[0] == s[0]);
            assert(s.push(e).drop_first() =~= s.drop_first().push(e));
            lemma_entry_index_push(s.drop_first(), e, id);
        }
    }
}

proof fn lemma_stage_one_signal(s: StoreView, p: PaperView, id: Seq<char>)
    requires
        has_entry(s.entries, id),
    ensures
        has_entry(stage_one(s, p).entries, id),
        signal_of(stage_one(s, p).entries, id) == signal_of(s.entries, id),
{
    lemma_entry_index(s.entries, id);
    if s.expanded.contains(p.id) {
    } else {
        let k = entry_index(s.entries, p.id);
        lemma_entry_index(s.entries, p.id);
        if k >= 0 {
            let e2 = EntryView { signal: s.entries[k].signal, paper: p };
            lemma_entry_index_update(s.entries, k, e2, id);
            let m = entry_index(s.entries, id);
            if m == k {
                assert(s.entries[k].paper.id == id);
            }
        } else {
            lemma_entry_index_push(s.entries, EntryView { signal: 1, paper: p }, id);
        }
    }
}

proof fn lemma_stage_all_signal(s: StoreView, papers: Seq<PaperView>, id: Seq<char>)
    requires
        has_entry(s.entries, id),
    ensures
        has_entry(stage_all(s, papers).entries, id),
        signal_of(stage_all(s, papers).entries, id) == signal_of(s.entries, id),
    decreases papers.len(),
{
    if papers.len() > 0 {
        lemma_stage_all_signal(s, papers.drop_last(), id);
        lemma_stage_one_signal(stage_all(s, papers.drop_last()), papers.last(), id);
    }
}

proof fn lemma_bump_id_signal(s: Seq<EntryView>, bid: Seq<char>, id: Seq<char>)
    requires
        has_entry(s, id),
    ensures
        has_entry(bump_id(s, bid), id),
        signal_of(bump_id(s, bid), id) == if bid == id {
            sat_inc(signal_of(s, id))
        } else {
            signal_of(s, id)
        },
{
    lemma_entry_index(s, bid);
    lemma_entry_index(s, id);
    let k = entry_index(s, bid);
    if k >= 0 {
        let e2 = EntryView { signal: sat_inc(s[k].signal), paper: s[k].paper };
        lemma_entry_index_update(s, k, e2, id);
        let m = entry_index(s, id);
        if bid == id {
            assert(m == k);
        } else {
            assert(s[k].paper.id == bid);
            assert(s[m].paper.id == id);
            assert(m != k);
        }
    }
}

proof fn lemma_bump_refs_signal(s: Seq<EntryView>, refs: Seq<StubView>, id: Seq<char>)
    requires
        has_entry(s, id),
        signal_of(s, id) + refs_citing(refs, id) <= u64::MAX,
    ensures
        has_entry(bump_refs(s, refs), id),
        signal_of(bump_refs(s, refs), id) == signal_of(s, id) + refs_citing(refs, id),
    decreases refs.len(),
{
    if refs.len() > 0 {
        let rest = refs.drop_last();
        lemma_bump_refs_signal(s, rest, id);
        let prev = bump_refs(s, rest);
        if real_id(refs.last()) {
            match refs.last().id {
                Some(bid) => {
                    lemma_bump_id_signal(prev, bid, id);
                },
                None => {},
            }
        }
    }
}

proof fn lemma_bump_papers_signal(s: Seq<EntryView>, papers: Seq<PaperView>, id: Seq<char>)
    requires
        has_entry(s, id),
        signal_of(s, id) + papers_citing(papers, id) <= u64::MAX,
    ensures
        has_entry(bump_papers(s, papers), id),
        signal_of(bump_papers(s, papers), id) == signal_of(s, id) + papers_citing(papers, id),
    decreases papers.len(),
{
    if papers.len() > 0 {
        let rest = papers.drop_last();
        lemma_bump_papers_signal(s, rest, id);
        lemma_bump_refs_signal(bump_papers(s, rest), papers.last().references, id);
    }
}

/// Accumulating a round's records credits a staged paper exactly once
/// per reference occurrence of its id anywhere across the batch, and
/// leaves every other staged signal untouched (its occurrence count is
/// zero).
pub proof fn lemma_accumulate_signal(s: StoreView, papers: Seq<PaperView>, id: Seq<char>)
    requires
        has_entry(s.entries, id),
        signal_of(s.entries, id) + papers_citing(papers, id) <= u64::MAX,
    ensures
        has_entry(accumulate_spec(s, papers).entries, id),
        signal_of(accumulate_spec(s, papers).entries, id) == signal_of(s.entries, id)
            + papers_citing(papers, id),
{
    lemma_stage_all_signal(s, papers, id);
    lemma_bump_papers_signal(stage_all(s, papers).entries, papers, id);
}

/// The stub form of a fully resolved record.
pub open spec fn stub_of(p: PaperView) -> StubView {
    StubView { id: Some(p.id), title: p.title, url: Some(p.url) }
}

/// The staged records as deduplicated paper stubs: what the very first
/// seed batch contributes to the committed node set.
pub fn from_staging(staging: &FrontierStore) -> (r: Vec<ProtoPaper>)
    ensures
        r@.map_values(|p: ProtoPaper| p@) == union_unique(
            Seq::<StubView>::empty(),
            staging@.entries.map_values(|e: EntryView| stub_of(e.paper)),
        ),
{
    let ghost stubs = staging@.entries.map_values(|e: EntryView| stub_of(e.paper));
    let mut r: Vec<ProtoPaper> = Vec::new();
    proof {
        assert(r@.map_values(|p: ProtoPaper| p@) =~= Seq::<StubView>::empty());
    }
    let mut i: usize = 0;
    while i < staging.entries.len()
        invariant
            i <= staging.entries.len(),
            stubs == staging@.entries.map_values(|e: EntryView| stub_of(e.paper)),
            r@.map_values(|p: ProtoPaper| p@) == union_unique(
                Seq::<StubView>::empty(),
                stubs.take(i as int),
            ),
        decreases staging.entries.len() - i,
    {
        proof {
            assert(stubs.take(i + 1).drop_last() =~= stubs.take(i as int));
            assert(stubs.take(i + 1).last() == stubs[i as int]);
        }
        let stub = ProtoPaper::from(staging.entries[i].paper.clone());
        proof {
            assert(stub@ == stubs[i as int]);
        }
        if !contains_stub(&r, &stub) {
            let ghost before = r@.map_values(|p: ProtoPaper| p@);
            r.push(stub);
            proof {
                assert(r@.map_values(|p: ProtoPaper| p@) =~= before.push(stubs[i as int]));
            }
        }
        i = i + 1;
    }
    proof {
        assert(stubs.take(staging.entries@.len() as int) =~= stubs);
    }
    r
}

} // verus!
