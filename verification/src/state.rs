use vstd::prelude::*;

use crate::episode::Episode;
use crate::episode::EpisodeView;
use crate::text::str_eq;

verus! {

/// Maximum number of episode records kept per podcast after reconciliation;
/// older entries are dropped once the cap is exceeded.
pub const RETENTION_CAP: usize = 100;

/// One podcast's download history: the podcast's identifier and the
/// episodes already downloaded, most recent first.
pub struct StateEntry {
    pub podcast_id: String,
    pub episodes: Vec<Episode>,
}

/// The mathematical content of a `StateEntry`.
pub ghost struct StateEntryView {
    pub podcast_id: Seq<char>,
    pub episodes: Seq<EpisodeView>,
}

impl View for StateEntry {
    type V = StateEntryView;

    open spec fn view(&self) -> StateEntryView {
        StateEntryView { podcast_id: self.podcast_id@, episodes: self.episodes.deep_view() }
    }
}

impl DeepView for StateEntry {
    type V = StateEntryView;

    open spec fn deep_view(&self) -> StateEntryView {
        self.view()
    }
}

/// The mapping described by a sequence of entries; when two entries share
/// an identifier, the earlier one wins.
pub open spec fn entries_map(s: Seq<StateEntryView>) -> Map<Seq<char>, Seq<EpisodeView>>
    decreases s.len(),
{
    if s.len() == 0 {
        Map::empty()
    } else {
        entries_map(s.drop_first()).insert(s[0].podcast_id, s[0].episodes)
    }
}

/// Some entry of `s` carries the identifier `id`.
pub open spec fn has_id(s: Seq<StateEntryView>, id: Seq<char>) -> bool {
    exists|i: int| 0 <= i < s.len() && s[i].podcast_id == id
}

/// No two entries of `s` share an identifier.
pub open spec fn unique_ids(s: Seq<StateEntryView>) -> bool {
    forall|i: int, j: int|
        0 <= i < j < s.len() ==> s[i].podcast_id != s[j].podcast_id
}

/// The domain of `entries_map(s)` is exactly the set of identifiers in `s`.
pub proof fn lemma_entries_map_dom(s: Seq<StateEntryView>, id: Seq<char>)
    ensures
        entries_map(s).dom().contains(id) <==> has_id(s, id),
    decreases s.len(),
{
    if s.len() == 0 {
    } else {
        lemma_entries_map_dom(s.drop_first(), id);
        if entries_map(s).dom().contains(id) {
            if id == s[0].podcast_id {
                assert(has_id(s, id)) by {
                    assert(s[0].podcast_id == id);
                }
            } else {
                let i = choose|i: int|
                    0 <= i < s.drop_first().len() && s.drop_first()[i].podcast_id == id;
                assert(s[i + 1].podcast_id == id);
            }
        }
        if has_id(s, id) {
            let i = choose|i: int| 0 <= i < s.len() && s[i].podcast_id == id;
            if i > 0 {
                assert(s.drop_first()[i - 1].podcast_id == id);
                assert(has_id(s.drop_first(), id));
            }
        }
    }
}

/// In a sequence with unique identifiers, the map sends each entry's
/// identifier to that entry's episodes.
pub proof fn lemma_entries_map_index(s: Seq<StateEntryView>, i: int)
    requires
        unique_ids(s),
        0 <= i < s.len(),
    ensures
        entries_map(s).dom().contains(s[i].podcast_id),
        entries_map(s)[s[i].podcast_id] == s[i].episodes,
    decreases s.len(),
{
    if i == 0 {
    } else {
        assert(unique_ids(s.drop_first())) by {
            assert(forall|p: int, q: int|
                0 <= p < q < s.drop_first().len() ==> s.drop_first()[p] == s[p + 1]
                    && s.drop_first()[q] == s[q + 1]);
        }
        lemma_entries_map_index(s.drop_first(), i - 1);
        assert(s.drop_first()[i - 1] == s[i]);
        assert(s[0].podcast_id != s[i].podcast_id);
    }
}

impl Clone for StateEntry {
    fn clone(&self) -> (r: Self)
        ensures
            r.deep_view() == self.deep_view(),
    {
        let episodes = self.episodes.clone();
        proof {
            assert forall|k: int| 0 <= k < self.episodes.len() implies episodes[k]
                == self.episodes[k] by {
            }
            assert(episodes.deep_view() =~= self.episodes.deep_view());
        }
        StateEntry { podcast_id: self.podcast_id.clone(), episodes }
    }
}

/// Entries before and after one in the middle: the map ignores the middle
/// entry everywhere but at its own identifier, where the middle entry
/// counts only when nothing before it has the same identifier.
proof fn lemma_entries_map_mid(c: Seq<StateEntryView>, e: StateEntryView, b: Seq<StateEntryView>)
    ensures
        forall|id: Seq<char>|
            id != e.podcast_id ==> (#[trigger] entries_map(c + seq![e] + b).dom().contains(id)
                <==> entries_map(c + b).dom().contains(id)),
        forall|id: Seq<char>|
            id != e.podcast_id && entries_map(c + b).dom().contains(id)
                ==> #[trigger] entries_map(c + seq![e] + b)[id] == entries_map(c + b)[id],
        !has_id(c, e.podcast_id) ==> entries_map(c + seq![e] + b).dom().contains(e.podcast_id)
            && entries_map(c + seq![e] + b)[e.podcast_id] == e.episodes,
    decreases c.len(),
{
    let lhs = entries_map(c + seq![e] + b);
    let rhs = entries_map(c + b);
    if c.len() == 0 {
        assert(c + seq![e] + b =~= seq![e] + b);
        assert((seq![e] + b)[0] == e);
        assert((seq![e] + b).drop_first() =~= b);
        assert(c + b =~= b);
        assert(lhs == entries_map(b).insert(e.podcast_id, e.episodes));
        assert(rhs == entries_map(b));
    } else {
        let c0 = c[0];
        lemma_entries_map_mid(c.drop_first(), e, b);
        let lhs_in = entries_map(c.drop_first() + seq![e] + b);
        let rhs_in = entries_map(c.drop_first() + b);
        assert((c + seq![e] + b)[0] == c0);
        assert((c + seq![e] + b).drop_first() =~= c.drop_first() + seq![e] + b);
        assert((c + b)[0] == c0);
        assert((c + b).drop_first() =~= c.drop_first() + b);
        assert(lhs == lhs_in.insert(c0.podcast_id, c0.episodes));
        assert(rhs == rhs_in.insert(c0.podcast_id, c0.episodes));
        assert forall|id: Seq<char>| id != e.podcast_id implies (lhs.dom().contains(id)
            <==> rhs.dom().contains(id)) by {
            assert(lhs_in.dom().contains(id) <==> rhs_in.dom().contains(id));
        }
        assert forall|id: Seq<char>|
            id != e.podcast_id && rhs.dom().contains(id) implies lhs[id] == rhs[id] by {
            if id != c0.podcast_id {
                assert(rhs_in.dom().contains(id));
                assert(lhs_in[id] == rhs_in[id]);
            }
        }
        if !has_id(c, e.podcast_id) {
            assert(c0.podcast_id != e.podcast_id) by {
                assert(c[0].podcast_id == c0.podcast_id);
            }
            assert(!has_id(c.drop_first(), e.podcast_id)) by {
                if has_id(c.drop_first(), e.podcast_id) {
                    let i = choose|i: int|
                        0 <= i < c.drop_first().len() && c.drop_first()[i].podcast_id
                            == e.podcast_id;
                    assert(c[i + 1].podcast_id == e.podcast_id);
                }
            }
            assert(lhs_in.dom().contains(e.podcast_id));
            assert(lhs.dom().contains(e.podcast_id));
            assert(lhs[e.podcast_id] == lhs_in[e.podcast_id]);
        }
    }
}

/// An entry whose identifier already occurs earlier does not change the
/// map: the earlier entry wins.
proof fn lemma_entries_map_dup_absorbed(
    a: Seq<StateEntryView>,
    e: StateEntryView,
    b: Seq<StateEntryView>,
)
    requires
        has_id(a, e.podcast_id),
    ensures
        entries_map(a + seq![e] + b) == entries_map(a + b),
    decreases a.len(),
{
    let a0 = a[0];
    assert((a + seq![e] + b)[0] == a0);
    assert((a + seq![e] + b).drop_first() =~= a.drop_first() + seq![e] + b);
    assert((a + b)[0] == a0);
    assert((a + b).drop_first() =~= a.drop_first() + b);
    if has_id(a.drop_first(), e.podcast_id) {
        lemma_entries_map_dup_absorbed(a.drop_first(), e, b);
    } else {
        assert(a0.podcast_id == e.podcast_id) by {
            let i = choose|i: int| 0 <= i < a.len() && a[i].podcast_id == e.podcast_id;
            if i > 0 {
                assert(a.drop_first()[i - 1].podcast_id == e.podcast_id);
            }
        }
        lemma_entries_map_mid(a.drop_first(), e, b);
        let lhs_in = entries_map(a.drop_first() + seq![e] + b);
        let rhs_in = entries_map(a.drop_first() + b);
        let lhs = lhs_in.insert(a0.podcast_id, a0.episodes);
        let rhs = rhs_in.insert(a0.podcast_id, a0.episodes);
        assert forall|id: Seq<char>| lhs.dom().contains(id) implies rhs.dom().contains(id) by {
            if id != a0.podcast_id {
                assert(lhs_in.dom().contains(id));
                assert(rhs_in.dom().contains(id));
            }
        }
        assert forall|id: Seq<char>| rhs.dom().contains(id) implies lhs.dom().contains(id) by {
            if id != a0.podcast_id {
                assert(rhs_in.dom().contains(id));
                assert(lhs_in.dom().contains(id));
            }
        }
        assert forall|id: Seq<char>| rhs.dom().contains(id) implies lhs[id] == rhs[id] by {
            if id != a0.podcast_id {
                assert(rhs_in.dom().contains(id));
                assert(lhs_in[id] == rhs_in[id]);
            }
        }
        assert(lhs =~= rhs);
    }
}

/// Whether some entry of `v` carries `id`, by linear search.
fn has_entry(v: &Vec<StateEntry>, id: &String) -> (r: bool)
    ensures
        r == has_id(v.deep_view(), id@),
{
    let ghost s = v.deep_view();
    let mut i: usize = 0;
    while i < v.len()
        invariant
            i <= v.len(),
            s == v.deep_view(),
            s.len() == v.len(),
            forall|k: int| 0 <= k < i ==> s[k].podcast_id != id@,
        decreases v.len() - i,
    {
        if str_eq(v[i].podcast_id.as_str(), id.as_str()) {
            proof {
                assert(s[i as int].podcast_id == id@);
            }
            return true;
        }
        i += 1;
    }
    false
}

/// The podcast download state: for each podcast, the episodes already
/// downloaded, most recent first. Viewed as a mapping from podcast
/// identifier to episode history.
pub struct StateMap {
    entries: Vec<StateEntry>,
}

impl View for StateMap {
    type V = Map<Seq<char>, Seq<EpisodeView>>;

    closed spec fn view(&self) -> Map<Seq<char>, Seq<EpisodeView>> {
        entries_map(self.entries.deep_view())
    }
}

impl StateMap {
    /// Internal well-formedness: entries carry pairwise distinct podcast
    /// identifiers. Every constructor establishes it.
    pub closed spec fn wf(&self) -> bool {
        unique_ids(self.entries.deep_view())
    }

    /// The empty state.
    pub fn new() -> (s: StateMap)
        ensures
            s.wf(),
            s@ == Map::<Seq<char>, Seq<EpisodeView>>::empty(),
    {
        StateMap { entries: Vec::new() }
    }

    /// The state described by a list of entries; when two entries name the
    /// same podcast, the earlier one wins.
    pub fn from_entries(entries: Vec<StateEntry>) -> (s: StateMap)
        ensures
            s.wf(),
            s@ == entries_map(entries.deep_view()),
    {
        let ghost orig = entries.deep_view();
        let mut kept: Vec<StateEntry> = Vec::new();
        proof {
            assert(kept.deep_view() + orig.skip(0) =~= orig);
        }
        let mut i: usize = 0;
        while i < entries.len()
            invariant
                i <= entries.len(),
                orig == entries.deep_view(),
                orig.len() == entries.len(),
                unique_ids(kept.deep_view()),
                entries_map(kept.deep_view() + orig.skip(i as int)) == entries_map(orig),
            decreases entries.len() - i,
        {
            let ghost k = kept.deep_view();
            let ghost e = orig[i as int];
            proof {
                assert(orig.skip(i as int)[0] == e);
                assert(orig.skip(i as int).drop_first() =~= orig.skip(i as int + 1));
                assert(orig.skip(i as int) =~= seq![e] + orig.skip(i as int + 1));
            }
            if has_entry(&kept, &entries[i].podcast_id) {
                proof {
                    assert(k + orig.skip(i as int) =~= k + seq![e] + orig.skip(i as int + 1));
                    lemma_entries_map_dup_absorbed(k, e, orig.skip(i as int + 1));
                }
            } else {
                kept.push(entries[i].clone());
                proof {
                    assert(kept.deep_view() =~= k.push(e));
                    assert(unique_ids(kept.deep_view())) by {
                        assert(forall|p: int|
                            0 <= p < k.len() ==> kept.deep_view()[p] == k[p]);
                        assert(kept.deep_view()[k.len() as int] == e);
                        assert(forall|p: int|
                            0 <= p < k.len() ==> k[p].podcast_id != e.podcast_id);
                    }
                    assert(kept.deep_view() + orig.skip(i as int + 1) =~= k + orig.skip(
                        i as int,
                    ));
                }
            }
            i += 1;
        }
        proof {
            assert(kept.deep_view() + orig.skip(i as int) =~= kept.deep_view());
        }
        StateMap { entries: kept }
    }

    /// The episodes recorded for `podcast_id`, if any.
    pub fn get<'a>(&'a self, podcast_id: &String) -> (r: Option<&'a Vec<Episode>>)
        requires
            self.wf(),
        ensures
            match r {
                Some(eps) => self@.dom().contains(podcast_id@) && eps.deep_view()
                    == self@[podcast_id@],
                None => !self@.dom().contains(podcast_id@),
            },
    {
        let ghost s = self.entries.deep_view();
        let mut i: usize = 0;
        while i < self.entries.len()
            invariant
                i <= self.entries.len(),
                s == self.entries.deep_view(),
                s.len() == self.entries.len(),
                unique_ids(s),
                forall|k: int| 0 <= k < i ==> s[k].podcast_id != podcast_id@,
            decreases self.entries.len() - i,
        {
            if str_eq(self.entries[i].podcast_id.as_str(), podcast_id.as_str()) {
                proof {
                    lemma_entries_map_index(s, i as int);
                }
                return Some(&self.entries[i].episodes);
            }
            i += 1;
        }
        proof {
            assert(!has_id(s, podcast_id@));
            lemma_entries_map_dom(s, podcast_id@);
        }
        None
    }

    /// The entries, one per podcast, in the order they are held; they
    /// describe exactly this state's mapping.
    pub fn entries<'a>(&'a self) -> (r: &'a Vec<StateEntry>)
        ensures
            entries_map(r.deep_view()) == self@,
            self.wf() ==> unique_ids(r.deep_view()),
    {
        &self.entries
    }
}

/// A reconciled history: the new episodes followed by the old ones,
/// truncated to the retention cap.
pub open spec fn merge_history(new_eps: Seq<EpisodeView>, old_eps: Seq<EpisodeView>) -> Seq<
    EpisodeView,
> {
    let all = new_eps + old_eps;
    if all.len() <= RETENTION_CAP {
        all
    } else {
        all.take(RETENTION_CAP as int)
    }
}

/// The episodes `prev` records for `id`, or none.
pub open spec fn previous_episodes(
    prev: Map<Seq<char>, Seq<EpisodeView>>,
    id: Seq<char>,
) -> Seq<EpisodeView> {
    if prev.dom().contains(id) {
        prev[id]
    } else {
        Seq::empty()
    }
}

/// The reconciled state: every podcast with new episodes maps to the new
/// episodes followed by its previous ones, truncated to the retention cap;
/// every other podcast keeps its previous entry unchanged.
pub open spec fn reconciled(
    new: Map<Seq<char>, Seq<EpisodeView>>,
    prev: Map<Seq<char>, Seq<EpisodeView>>,
) -> Map<Seq<char>, Seq<EpisodeView>> {
    Map::new(
        |id: Seq<char>| new.dom().contains(id) || prev.dom().contains(id),
        |id: Seq<char>|
            if new.dom().contains(id) {
                merge_history(new[id], previous_episodes(prev, id))
            } else {
                prev[id]
            },
    )
}

/// The entries of the reconciled state that come from `nd`, in order.
spec fn merged_entries(
    nd: Seq<StateEntryView>,
    prev: Map<Seq<char>, Seq<EpisodeView>>,
) -> Seq<StateEntryView> {
    Seq::new(
        nd.len(),
        |k: int|
            StateEntryView {
                podcast_id: nd[k].podcast_id,
                episodes: merge_history(
                    nd[k].episodes,
                    previous_episodes(prev, nd[k].podcast_id),
                ),
            },
    )
}

/// The previous entries whose podcast got no new episodes, in order.
spec fn untouched_entries(
    pd: Seq<StateEntryView>,
    new: Map<Seq<char>, Seq<EpisodeView>>,
) -> Seq<StateEntryView>
    decreases pd.len(),
{
    if pd.len() == 0 {
        Seq::empty()
    } else {
        let rest = untouched_entries(pd.drop_first(), new);
        if new.dom().contains(pd[0].podcast_id) {
            rest
        } else {
            seq![pd[0]] + rest
        }
    }
}

proof fn lemma_untouched_push(
    pd: Seq<StateEntryView>,
    e: StateEntryView,
    new: Map<Seq<char>, Seq<EpisodeView>>,
)
    ensures
        untouched_entries(pd.push(e), new) == untouched_entries(pd, new) + (if new.dom().contains(
            e.podcast_id,
        ) {
            Seq::<StateEntryView>::empty()
        } else {
            seq![e]
        }),
    decreases pd.len(),
{
    let tail = if new.dom().contains(e.podcast_id) {
        Seq::<StateEntryView>::empty()
    } else {
        seq![e]
    };
    if pd.len() == 0 {
        assert(pd.push(e)[0] == e);
        assert(pd.push(e).drop_first() =~= Seq::<StateEntryView>::empty());
        assert(untouched_entries(Seq::<StateEntryView>::empty(), new) == Seq::<
            StateEntryView,
        >::empty());
        assert(untouched_entries(pd, new) == Seq::<StateEntryView>::empty());
        assert(untouched_entries(pd.push(e), new) =~= untouched_entries(pd, new) + tail);
    } else {
        lemma_untouched_push(pd.drop_first(), e, new);
        assert(pd.push(e)[0] == pd[0]);
        assert(pd.push(e).drop_first() =~= pd.drop_first().push(e));
        if new.dom().contains(pd[0].podcast_id) {
        } else {
            assert(seq![pd[0]] + (untouched_entries(pd.drop_first(), new) + tail) =~= (
            seq![pd[0]] + untouched_entries(pd.drop_first(), new)) + tail);
        }
    }
}

/// What the untouched entries are: exactly the previous entries whose
/// identifier the new state does not mention, unchanged and still unique.
proof fn lemma_untouched_props(pd: Seq<StateEntryView>, new: Map<Seq<char>, Seq<EpisodeView>>)
    requires
        unique_ids(pd),
    ensures
        unique_ids(untouched_entries(pd, new)),
        forall|k: int|
            0 <= k < untouched_entries(pd, new).len() ==> !new.dom().contains(
                #[trigger] untouched_entries(pd, new)[k].podcast_id,
            ),
        forall|k: int|
            #![trigger untouched_entries(pd, new)[k]]
            0 <= k < untouched_entries(pd, new).len() ==> exists|i: int|
                0 <= i < pd.len() && #[trigger] pd[i] == untouched_entries(pd, new)[k],
        forall|id: Seq<char>|
            #[trigger] has_id(untouched_entries(pd, new), id) <==> (has_id(pd, id)
                && !new.dom().contains(id)),
    decreases pd.len(),
{
    let u = untouched_entries(pd, new);
    if pd.len() == 0 {
        assert forall|id: Seq<char>| #[trigger] has_id(u, id) implies (has_id(pd, id)
            && !new.dom().contains(id)) by {}
    } else {
        assert(unique_ids(pd.drop_first())) by {
            assert(forall|p: int|
                0 <= p < pd.drop_first().len() ==> pd.drop_first()[p] == pd[p + 1]);
        }
        lemma_untouched_props(pd.drop_first(), new);
        let rest = untouched_entries(pd.drop_first(), new);
        if new.dom().contains(pd[0].podcast_id) {
            assert(u == rest);
            assert forall|k: int| #![trigger u[k]] 0 <= k < u.len() implies exists|i: int|
                0 <= i < pd.len() && #[trigger] pd[i] == u[k] by {
                let i = choose|i: int|
                    0 <= i < pd.drop_first().len() && pd.drop_first()[i] == rest[k];
                assert(pd[i + 1] == u[k]);
            }
            assert forall|id: Seq<char>| has_id(pd, id) && !new.dom().contains(id) implies
                #[trigger] has_id(u, id) by {
                let i = choose|i: int| 0 <= i < pd.len() && pd[i].podcast_id == id;
                assert(i > 0);
                assert(pd.drop_first()[i - 1].podcast_id == id);
                assert(has_id(pd.drop_first(), id));
            }
            assert forall|id: Seq<char>| #[trigger] has_id(u, id) implies (has_id(pd, id)
                && !new.dom().contains(id)) by {
                assert(has_id(pd.drop_first(), id));
                let i = choose|i: int|
                    0 <= i < pd.drop_first().len() && pd.drop_first()[i].podcast_id == id;
                assert(pd[i + 1].podcast_id == id);
            }
        } else {
            assert(u == seq![pd[0]] + rest);
            assert(u[0] == pd[0]);
            assert(forall|k: int| 1 <= k < u.len() ==> u[k] == rest[k - 1]);
            assert(unique_ids(u)) by {
                assert forall|p: int, q: int|
                    0 <= p < q < u.len() implies u[p].podcast_id != u[q].podcast_id by {
                    if p == 0 {
                        assert(has_id(pd.drop_first(), u[q].podcast_id)) by {
                            assert(has_id(rest, u[q].podcast_id)) by {
                                assert(rest[q - 1].podcast_id == u[q].podcast_id);
                            }
                        }
                        let i = choose|i: int|
                            0 <= i < pd.drop_first().len() && pd.drop_first()[i].podcast_id
                                == u[q].podcast_id;
                        assert(pd[i + 1].podcast_id == u[q].podcast_id);
                        assert(pd[0].podcast_id != pd[i + 1].podcast_id);
                    } else {
                        assert(rest[p - 1].podcast_id != rest[q - 1].podcast_id);
                    }
                }
            }
            assert forall|k: int| #![trigger u[k]] 0 <= k < u.len() implies exists|i: int|
                0 <= i < pd.len() && #[trigger] pd[i] == u[k] by {
                if k == 0 {
                    assert(pd[0] == u[0]);
                } else {
                    let i = choose|i: int|
                        0 <= i < pd.drop_first().len() && pd.drop_first()[i] == rest[k - 1];
                    assert(pd[i + 1] == u[k]);
                }
            }
            assert forall|id: Seq<char>| has_id(pd, id) && !new.dom().contains(id) implies
                #[trigger] has_id(u, id) by {
                let i = choose|i: int| 0 <= i < pd.len() && pd[i].podcast_id == id;
                if i == 0 {
                    assert(u[0].podcast_id == id);
                } else {
                    assert(pd.drop_first()[i - 1].podcast_id == id);
                    assert(has_id(pd.drop_first(), id));
                    assert(has_id(rest, id));
                    let k = choose|k: int| 0 <= k < rest.len() && rest[k].podcast_id == id;
                    assert(u[k + 1].podcast_id == id);
                }
            }
            assert forall|id: Seq<char>| #[trigger] has_id(u, id) implies (has_id(pd, id)
                && !new.dom().contains(id)) by {
                let k = choose|k: int| 0 <= k < u.len() && u[k].podcast_id == id;
                if k == 0 {
                    assert(pd[0].podcast_id == id);
                } else {
                    assert(rest[k - 1].podcast_id == id);
                    assert(has_id(rest, id));
                    let i = choose|i: int|
                        0 <= i < pd.drop_first().len() && pd.drop_first()[i].podcast_id == id;
                    assert(pd[i + 1].podcast_id == id);
                }
            }
        }
    }
}

/// The merged and untouched entries together carry unique identifiers and
/// describe exactly the reconciled state.
proof fn lemma_reconciled_entries(nd: Seq<StateEntryView>, pd: Seq<StateEntryView>)
    requires
        unique_ids(nd),
        unique_ids(pd),
    ensures
        unique_ids(
            merged_entries(nd, entries_map(pd)) + untouched_entries(pd, entries_map(nd)),
        ),
        entries_map(merged_entries(nd, entries_map(pd)) + untouched_entries(pd, entries_map(nd)))
            == reconciled(entries_map(nd), entries_map(pd)),
{
    let newm = entries_map(nd);
    let prevm = entries_map(pd);
    let m = merged_entries(nd, prevm);
    let u = untouched_entries(pd, newm);
    let res = m + u;
    let goal = reconciled(newm, prevm);
    lemma_untouched_props(pd, newm);
    assert(forall|k: int| 0 <= k < m.len() ==> #[trigger] res[k] == m[k]);
    assert(forall|k: int| 0 <= k < u.len() ==> #[trigger] res[m.len() + k] == u[k]);
    assert forall|p: int, q: int|
        0 <= p < q < res.len() implies res[p].podcast_id != res[q].podcast_id by {
        if q < m.len() {
            assert(nd[p].podcast_id != nd[q].podcast_id);
        } else if p >= m.len() {
            assert(u[p - m.len()].podcast_id != u[q - m.len()].podcast_id);
        } else {
            lemma_entries_map_index(nd, p);
            assert(newm.dom().contains(nd[p].podcast_id));
            assert(!newm.dom().contains(u[q - m.len()].podcast_id));
        }
    }
    assert(unique_ids(res));
    assert forall|id: Seq<char>| #[trigger] entries_map(res).dom().contains(id) implies
        goal.dom().contains(id) && entries_map(res)[id] == goal[id] by {
        lemma_entries_map_dom(res, id);
        let k = choose|k: int| 0 <= k < res.len() && res[k].podcast_id == id;
        lemma_entries_map_index(res, k);
        if k < m.len() {
            lemma_entries_map_index(nd, k);
            assert(newm[id] == nd[k].episodes);
            assert(res[k].episodes == merge_history(nd[k].episodes, previous_episodes(prevm, id)));
        } else {
            let kk = k - m.len();
            assert(res[k] == u[kk]);
            assert(!newm.dom().contains(id));
            let i = choose|i: int| 0 <= i < pd.len() && #[trigger] pd[i] == u[kk];
            lemma_entries_map_index(pd, i);
            assert(prevm[id] == pd[i].episodes);
        }
    }
    assert forall|id: Seq<char>| #[trigger] goal.dom().contains(id) implies entries_map(
        res,
    ).dom().contains(id) by {
        if newm.dom().contains(id) {
            lemma_entries_map_dom(nd, id);
            let k = choose|k: int| 0 <= k < nd.len() && nd[k].podcast_id == id;
            assert(res[k].podcast_id == id);
            assert(has_id(res, id));
        } else {
            lemma_entries_map_dom(pd, id);
            assert(has_id(u, id));
            let kk = choose|kk: int| 0 <= kk < u.len() && u[kk].podcast_id == id;
            assert(res[m.len() + kk].podcast_id == id);
            assert(has_id(res, id));
        }
        lemma_entries_map_dom(res, id);
    }
    assert(entries_map(res) =~= goal);
}

/// A faithful copy of an episode list: the views are equal.
fn clone_episodes(eps: &Vec<Episode>) -> (r: Vec<Episode>)
    ensures
        r.deep_view() == eps.deep_view(),
{
    let r = eps.clone();
    proof {
        assert forall|k: int| 0 <= k < eps.len() implies r[k] == eps[k] by {}
        assert(r.deep_view() =~= eps.deep_view());
    }
    r
}

/// Merges freshly downloaded episodes into the previous state: a podcast
/// with new episodes maps to the new episodes followed by its previous
/// ones, truncated to the retention cap; a podcast without new episodes
/// keeps its previous entry unchanged.
pub fn compute_updated_state(new_state: StateMap, previous_state: StateMap) -> (r: StateMap)
    requires
        new_state.wf(),
        previous_state.wf(),
    ensures
        r.wf(),
        r@ == reconciled(new_state@, previous_state@),
{
    let ghost nd = new_state.entries.deep_view();
    let ghost pd = previous_state.entries.deep_view();
    let ghost newm = new_state@;
    let ghost prevm = previous_state@;
    let mut merged: Vec<StateEntry> = Vec::new();
    proof {
        assert(merged.deep_view() =~= merged_entries(nd, prevm).take(0));
    }
    let mut i: usize = 0;
    while i < new_state.entries.len()
        invariant
            i <= new_state.entries.len(),
            nd == new_state.entries.deep_view(),
            nd.len() == new_state.entries.len(),
            prevm == previous_state@,
            previous_state.wf(),
            merged.deep_view() == merged_entries(nd, prevm).take(i as int),
        decreases new_state.entries.len() - i,
    {
        let entry = &new_state.entries[i];
        let ghost target = merged_entries(nd, prevm)[i as int];
        let mut eps = clone_episodes(&entry.episodes);
        match previous_state.get(&entry.podcast_id) {
            Some(old_eps) => {
                let mut tail = clone_episodes(old_eps);
                let ghost tail_view = tail.deep_view();
                eps.append(&mut tail);
                proof {
                    assert(eps.deep_view() =~= nd[i as int].episodes + tail_view);
                }
            },
            None => {
                proof {
                    assert(eps.deep_view() =~= nd[i as int].episodes + Seq::<
                        EpisodeView,
                    >::empty());
                }
            },
        }
        proof {
            assert(eps.deep_view() == nd[i as int].episodes + previous_episodes(
                prevm,
                nd[i as int].podcast_id,
            ));
        }
        if eps.len() > RETENTION_CAP {
            let ghost before = eps.deep_view();
            eps.truncate(RETENTION_CAP);
            proof {
                assert(eps.deep_view() =~= before.take(RETENTION_CAP as int));
            }
        }
        proof {
            assert(eps.deep_view() == target.episodes);
        }
        let ghost before_push = merged.deep_view();
        merged.push(StateEntry { podcast_id: entry.podcast_id.clone(), episodes: eps });
        proof {
            assert(merged.deep_view() =~= before_push.push(target));
            assert(merged_entries(nd, prevm).take(i as int + 1) =~= merged_entries(
                nd,
                prevm,
            ).take(i as int).push(target));
        }
        i += 1;
    }
    proof {
        assert(merged_entries(nd, prevm).take(nd.len() as int) =~= merged_entries(nd, prevm));
        assert(untouched_entries(pd.take(0), newm) == Seq::<StateEntryView>::empty()) by {
            assert(pd.take(0) =~= Seq::<StateEntryView>::empty());
        }
        assert(merged.deep_view() =~= merged_entries(nd, prevm) + untouched_entries(
            pd.take(0),
            newm,
        ));
    }
    let mut j: usize = 0;
    while j < previous_state.entries.len()
        invariant
            j <= previous_state.entries.len(),
            pd == previous_state.entries.deep_view(),
            pd.len() == previous_state.entries.len(),
            newm == new_state@,
            new_state.wf(),
            merged.deep_view() == merged_entries(nd, prevm) + untouched_entries(
                pd.take(j as int),
                newm,
            ),
        decreases previous_state.entries.len() - j,
    {
        let entry = &previous_state.entries[j];
        let ghost before = merged.deep_view();
        match new_state.get(&entry.podcast_id) {
            Some(_) => {
            },
            None => {
                merged.push(entry.clone());
                proof {
                    assert(merged.deep_view() =~= before.push(pd[j as int]));
                }
            },
        }
        proof {
            assert(pd.take(j as int + 1) =~= pd.take(j as int).push(pd[j as int]));
            lemma_untouched_push(pd.take(j as int), pd[j as int], newm);
            if newm.dom().contains(pd[j as int].podcast_id) {
                assert(untouched_entries(pd.take(j as int + 1), newm) =~= untouched_entries(
                    pd.take(j as int),
                    newm,
                ) + Seq::<StateEntryView>::empty());
                assert(untouched_entries(pd.take(j as int + 1), newm) =~= untouched_entries(
                    pd.take(j as int),
                    newm,
                ));
            } else {
                assert(merged.deep_view() =~= (merged_entries(nd, prevm) + untouched_entries(
                    pd.take(j as int),
                    newm,
                )) + seq![pd[j as int]]);
                assert(merged.deep_view() =~= merged_entries(nd, prevm) + (untouched_entries(
                    pd.take(j as int),
                    newm,
                ) + seq![pd[j as int]]));
            }
        }
        j += 1;
    }
    proof {
        assert(pd.take(pd.len() as int) =~= pd);
        lemma_reconciled_entries(nd, pd);
    }
    StateMap { entries: merged }
}

/// The identifiers already recorded for `id` in `prev`.
pub open spec fn seen_ids(prev: Map<Seq<char>, Seq<EpisodeView>>, id: Seq<char>) -> Seq<
    Seq<char>,
> {
    previous_episodes(prev, id).map_values(|e: EpisodeView| e.id)
}

/// Marks one podcast's new feed episodes as downloaded without downloading
/// them: the feed episodes not yet recorded are merged into that podcast's
/// history under the retention cap; every other podcast is unchanged.
pub fn catchup(previous_state: StateMap, podcast_id: &String, feed_episodes: Vec<Episode>) -> (r:
    StateMap)
    requires
        previous_state.wf(),
    ensures
        r.wf(),
        r@ == reconciled(
            Map::<Seq<char>, Seq<EpisodeView>>::empty().insert(
                podcast_id@,
                crate::dedup::filter_new_spec(
                    feed_episodes.deep_view(),
                    seen_ids(previous_state@, podcast_id@),
                ),
            ),
            previous_state@,
        ),
{
    let ghost fe = feed_episodes.deep_view();
    let ghost sids = seen_ids(previous_state@, podcast_id@);
    let seen: Vec<String> = match previous_state.get(podcast_id) {
        Some(eps) => crate::dedup::episode_ids(eps),
        None => Vec::new(),
    };
    proof {
        assert(seen.deep_view() =~= sids);
    }
    let fresh = crate::dedup::filter_new(feed_episodes, &seen);
    proof {
        assert(fresh.deep_view() == crate::dedup::filter_new_spec(fe, sids));
    }
    let entry = StateEntry { podcast_id: podcast_id.clone(), episodes: fresh };
    let ghost ev = entry@;
    let entries_vec = vec![entry];
    proof {
        assert(entries_vec.deep_view() =~= seq![ev]);
    }
    let new_state = StateMap::from_entries(entries_vec);
    proof {
        let s = seq![ev];
        assert(s[0] == ev);
        assert(s.drop_first() =~= Seq::<StateEntryView>::empty());
        assert(entries_map(Seq::<StateEntryView>::empty()) == Map::<
            Seq<char>,
            Seq<EpisodeView>,
        >::empty());
        assert(new_state@ == Map::<Seq<char>, Seq<EpisodeView>>::empty().insert(
            podcast_id@,
            crate::dedup::filter_new_spec(fe, sids),
        ));
    }
    compute_updated_state(new_state, previous_state)
}

/// Reconciliation is length-bounded: when every previous entry respects
/// the retention cap, so does every entry of the reconciled state. (A
/// previous entry above the cap for a podcast with no new episodes is kept
/// unchanged, so the bound cannot hold without this premise.)
pub proof fn lemma_reconcile_length_bounded(
    new: Map<Seq<char>, Seq<EpisodeView>>,
    prev: Map<Seq<char>, Seq<EpisodeView>>,
)
    requires
        forall|id: Seq<char>|
            prev.dom().contains(id) ==> #[trigger] prev[id].len() <= RETENTION_CAP,
    ensures
        forall|id: Seq<char>|
            reconciled(new, prev).dom().contains(id) ==> #[trigger] reconciled(new, prev)[id].len()
                <= RETENTION_CAP,
{
}

/// Reconciliation preserves untouched podcasts: a podcast absent from the
/// new results keeps its previous entry unchanged.
pub proof fn lemma_reconcile_preserves_untouched(
    new: Map<Seq<char>, Seq<EpisodeView>>,
    prev: Map<Seq<char>, Seq<EpisodeView>>,
    id: Seq<char>,
)
    requires
        prev.dom().contains(id),
        !new.dom().contains(id),
    ensures
        reconciled(new, prev).dom().contains(id),
        reconciled(new, prev)[id] == prev[id],
{
}

} // verus!
