use vstd::prelude::*;

use crate::episode::Episode;
use crate::episode::EpisodeView;
use crate::text::str_eq;

verus! {

/// The episodes whose identifier is not in `seen`, in input order.
pub open spec fn filter_new_spec(eps: Seq<EpisodeView>, seen: Seq<Seq<char>>) -> Seq<EpisodeView>
    decreases eps.len(),
{
    if eps.len() == 0 {
        Seq::empty()
    } else {
        let rest = filter_new_spec(eps.drop_first(), seen);
        if seen.contains(eps[0].id) {
            rest
        } else {
            seq![eps[0]] + rest
        }
    }
}

/// Whether the identifier list `seen` holds `id`, by linear search.
pub fn contains_id(seen: &Vec<String>, id: &String) -> (r: bool)
    ensures
        r == seen.deep_view().contains(id@),
{
    let ghost s = seen.deep_view();
    let mut j: usize = 0;
    while j < seen.len()
        invariant
            j <= seen.len(),
            s == seen.deep_view(),
            s.len() == seen.len(),
            forall|k: int| 0 <= k < j ==> s[k] != id@,
        decreases seen.len() - j,
    {
        if str_eq(seen[j].as_str(), id.as_str()) {
            proof {
                assert(s.contains(id@)) by {
                    assert(s[j as int] == id@);
                }
            }
            return true;
        }
        j += 1;
    }
    false
}

proof fn lemma_filter_new_push(eps: Seq<EpisodeView>, e: EpisodeView, seen: Seq<Seq<char>>)
    ensures
        filter_new_spec(eps.push(e), seen) == filter_new_spec(eps, seen) + (if seen.contains(
            e.id,
        ) {
            Seq::<EpisodeView>::empty()
        } else {
            seq![e]
        }),
    decreases eps.len(),
{
    let tail = if seen.contains(e.id) {
        Seq::<EpisodeView>::empty()
    } else {
        seq![e]
    };
    if eps.len() == 0 {
        assert(eps.push(e)[0] == e);
        assert(eps.push(e).drop_first() =~= Seq::<EpisodeView>::empty());
        assert(filter_new_spec(Seq::<EpisodeView>::empty(), seen) == Seq::<EpisodeView>::empty());
        assert(filter_new_spec(eps, seen) == Seq::<EpisodeView>::empty());
        if seen.contains(e.id) {
            assert(filter_new_spec(eps.push(e), seen) =~= filter_new_spec(eps, seen) + tail);
        } else {
            assert(filter_new_spec(eps.push(e), seen) == seq![e] + Seq::<EpisodeView>::empty());
            assert(filter_new_spec(eps.push(e), seen) =~= filter_new_spec(eps, seen) + tail);
        }
    } else {
        lemma_filter_new_push(eps.drop_first(), e, seen);
        assert(eps.push(e)[0] == eps[0]);
        assert(eps.push(e).drop_first() =~= eps.drop_first().push(e));
        if seen.contains(eps[0].id) {
            assert(filter_new_spec(eps.push(e), seen) == filter_new_spec(
                eps.drop_first().push(e),
                seen,
            ));
        } else {
            assert(filter_new_spec(eps.push(e), seen) == seq![eps[0]] + filter_new_spec(
                eps.drop_first().push(e),
                seen,
            ));
            assert(seq![eps[0]] + (filter_new_spec(eps.drop_first(), seen) + tail) =~= (
            seq![eps[0]] + filter_new_spec(eps.drop_first(), seen)) + tail);
        }
    }
}

/// The candidates that are not yet in `already_seen`, in input order.
/// An episode is new exactly when its identifier is absent from the list of
/// already-seen identifiers. Pure: no input is changed.
pub fn filter_new(candidates: Vec<Episode>, already_seen: &Vec<String>) -> (r: Vec<Episode>)
    ensures
        r.deep_view() == filter_new_spec(candidates.deep_view(), already_seen.deep_view()),
{
    let ghost cs = candidates.deep_view();
    let ghost seen = already_seen.deep_view();
    let mut out: Vec<Episode> = Vec::new();
    proof {
        assert(cs.take(0) =~= Seq::<EpisodeView>::empty());
    }
    let mut i: usize = 0;
    while i < candidates.len()
        invariant
            i <= candidates.len(),
            cs == candidates.deep_view(),
            seen == already_seen.deep_view(),
            cs.len() == candidates.len(),
            out.deep_view() == filter_new_spec(cs.take(i as int), seen),
        decreases candidates.len() - i,
    {
        let ghost before = out.deep_view();
        if !contains_id(already_seen, &candidates[i].id) {
            out.push(candidates[i].clone());
            proof {
                assert(out.deep_view() =~= before + seq![cs[i as int]]);
            }
        }
        proof {
            assert(cs.take(i as int + 1) =~= cs.take(i as int).push(cs[i as int]));
            lemma_filter_new_push(cs.take(i as int), cs[i as int], seen);
            if seen.contains(cs[i as int].id) {
                assert(out.deep_view() =~= before + Seq::<EpisodeView>::empty());
            }
        }
        i += 1;
    }
    proof {
        assert(cs.take(i as int) =~= cs);
    }
    out
}

/// The identifiers of `eps`, in order; the seen-set for the dedup filter.
pub fn episode_ids(eps: &Vec<Episode>) -> (r: Vec<String>)
    ensures
        r.deep_view() == eps.deep_view().map_values(|e: EpisodeView| e.id),
{
    let ghost target = eps.deep_view().map_values(|e: EpisodeView| e.id);
    let mut out: Vec<String> = Vec::new();
    let mut i: usize = 0;
    while i < eps.len()
        invariant
            i <= eps.len(),
            target == eps.deep_view().map_values(|e: EpisodeView| e.id),
            target.len() == eps.len(),
            out.deep_view() == target.take(i as int),
        decreases eps.len() - i,
    {
        let ghost before = out.deep_view();
        out.push(eps[i].id.clone());
        proof {
            assert(out.deep_view() =~= before.push(target[i as int]));
            assert(target.take(i as int + 1) =~= target.take(i as int).push(target[i as int]));
        }
        i += 1;
    }
    proof {
        assert(target.take(i as int) =~= target);
    }
    out
}

/// `a` can be obtained from `b` by deleting elements, keeping relative
/// order.
pub open spec fn is_subsequence_of(a: Seq<EpisodeView>, b: Seq<EpisodeView>) -> bool
    decreases a.len() + b.len(),
{
    if a.len() == 0 {
        true
    } else if b.len() == 0 {
        false
    } else {
        (a[0] == b[0] && is_subsequence_of(a.drop_first(), b.drop_first())) || is_subsequence_of(
            a,
            b.drop_first(),
        )
    }
}

/// The dedup filter's output is a subsequence of its input (so it keeps
/// relative order), and no episode it keeps has an identifier from the
/// seen-set.
pub proof fn lemma_filter_new_subsequence(eps: Seq<EpisodeView>, seen: Seq<Seq<char>>)
    ensures
        is_subsequence_of(filter_new_spec(eps, seen), eps),
        forall|i: int|
            0 <= i < filter_new_spec(eps, seen).len() ==> !seen.contains(
                filter_new_spec(eps, seen)[i].id,
            ),
    decreases eps.len(),
{
    if eps.len() == 0 {
    } else {
        lemma_filter_new_subsequence(eps.drop_first(), seen);
        let rest = filter_new_spec(eps.drop_first(), seen);
        if seen.contains(eps[0].id) {
            assert(filter_new_spec(eps, seen) == rest);
            if rest.len() > 0 {
                assert(is_subsequence_of(rest, eps));
            }
        } else {
            let whole = seq![eps[0]] + rest;
            assert(filter_new_spec(eps, seen) == whole);
            assert(whole[0] == eps[0]);
            assert(whole.drop_first() =~= rest);
            assert(is_subsequence_of(whole, eps));
            assert forall|i: int| 0 <= i < whole.len() implies !seen.contains(whole[i].id) by {
                if i > 0 {
                    assert(whole[i] == rest[i - 1]);
                }
            }
        }
    }
}

/// Running the dedup filter twice with the same seen-set on the same
/// candidates yields the same result as running it once.
pub proof fn lemma_filter_new_idempotent(eps: Seq<EpisodeView>, seen: Seq<Seq<char>>)
    ensures
        filter_new_spec(filter_new_spec(eps, seen), seen) == filter_new_spec(eps, seen),
    decreases eps.len(),
{
    if eps.len() == 0 {
    } else {
        lemma_filter_new_idempotent(eps.drop_first(), seen);
        let rest = filter_new_spec(eps.drop_first(), seen);
        if seen.contains(eps[0].id) {
        } else {
            let whole = seq![eps[0]] + rest;
            assert(whole[0] == eps[0]);
            assert(whole.drop_first() =~= rest);
            assert(filter_new_spec(whole, seen) == seq![eps[0]] + filter_new_spec(rest, seen));
        }
    }
}

} // verus!
