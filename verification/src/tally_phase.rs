//! Tally phase: reduce the round's reveal set to one canonical observation.
//!
//! Each reveal is decoded independently; malformed reveals are skipped.  The
//! surviving observations are ranked by magnitude and the lower median is
//! selected: the element of rank `(n - 1) / 2`, which is the true middle for
//! odd `n` and the lower of the two central candidates for even `n`.  Ties
//! keep the original reveal order (ranking is by magnitude, then by position
//! in the reveal set).
use crate::decimal::render_mag_e7;
use crate::observation::obs_of;
use crate::observation::decode_observation;
use crate::observation::encode_observation;
use crate::observation::mag_in_range;
use crate::observation::EarthquakeInfo;
use crate::observation::ObsView;
use crate::wire::encoded_wire_of;
use vstd::prelude::*;
use vstd::relations::sorted_by;
use vstd::relations::total_ordering;
use vstd::seq_lib::lemma_sorted_unique;
use vstd::string::StringExecFns;

verus! {

/// The tally phase's failure: no reveal could be decoded.
#[derive(Debug, PartialEq, Eq)]
pub enum TallyError {
    NoConsensus,
}

impl TallyError {
    /// The failure text reported to the host.
    pub fn message(&self) -> (r: String)
        ensures
            r@ == "No consensus among revealed results"@,
    {
        String::from_str("No consensus among revealed results")
    }
}

/// Ranking keys: a magnitude paired with its observation's position.  The
/// position makes the order total, so equal magnitudes keep reveal order.
pub open spec fn key_le() -> spec_fn((i64, int), (i64, int)) -> bool {
    |a: (i64, int), b: (i64, int)| a.0 < b.0 || (a.0 == b.0 && a.1 <= b.1)
}

/// The ranking keys of a sequence of observations.
pub open spec fn key_seq(s: Seq<ObsView>) -> Seq<(i64, int)> {
    Seq::new(s.len(), |i: int| (s[i].magnitude_e7, i))
}

/// Position in `s` of the observation of lower-median rank.
pub open spec fn lower_median_index(s: Seq<ObsView>) -> int {
    key_seq(s).sort_by(key_le())[(s.len() - 1) as int / 2].1
}

/// The observation of lower-median magnitude rank in `s`.
pub open spec fn median_of(s: Seq<ObsView>) -> ObsView {
    s[lower_median_index(s)]
}

/// Views of a sequence of observations.
pub open spec fn views_of(s: Seq<EarthquakeInfo>) -> Seq<ObsView> {
    s.map_values(|o: EarthquakeInfo| o@)
}

/// Views of a reveal set's byte blobs.
pub open spec fn reveal_views(rs: Seq<Vec<u8>>) -> Seq<Seq<u8>> {
    rs.map_values(|v: Vec<u8>| v@)
}

/// The decoder as a function value, for use with `filter_map`.
pub open spec fn obs_of_fn() -> spec_fn(Seq<u8>) -> Option<ObsView> {
    |b: Seq<u8>| obs_of(b)
}

/// The observations of the decodable reveals, in reveal order.
pub open spec fn decode_seq(rs: Seq<Seq<u8>>) -> Seq<ObsView> {
    rs.filter_map(obs_of_fn())
}

/// The round's outcome as a function of the reveal set: `None` when no
/// reveal decodes, otherwise the wire bytes of the lower-median observation.
pub open spec fn tally_result(rs: Seq<Seq<u8>>) -> Option<Seq<u8>> {
    let d = decode_seq(rs);
    if d.len() == 0 {
        None
    } else {
        let med = median_of(d);
        Some(encoded_wire_of(render_mag_e7(med.magnitude_e7 as int), med.location, med.time))
    }
}

proof fn lemma_key_le_total()
    ensures
        total_ordering(key_le()),
{
    let r = key_le();
    assert forall|x: (i64, int)| #[trigger] r(x, x) by {}
    assert forall|x: (i64, int), y: (i64, int)| #[trigger] r(x, y) && #[trigger] r(y, x) implies x
        == y by {}
    assert forall|x: (i64, int), y: (i64, int), z: (i64, int)|
        #[trigger] r(x, y) && #[trigger] r(y, z) implies r(x, z) by {}
    assert forall|x: (i64, int), y: (i64, int)| !(#[trigger] r(x, y)) implies #[trigger] r(
        y,
        x,
    ) by {}
}

/// The view of an executable ranking key.
pub open spec fn key_view(p: (i64, usize)) -> (i64, int) {
    (p.0, p.1 as int)
}

/// Views of a vector of executable ranking keys.
pub open spec fn key_views(ks: Seq<(i64, usize)>) -> Seq<(i64, int)> {
    ks.map_values(|p: (i64, usize)| key_view(p))
}

/// Every element of the sorted key sequence is a position of `s` paired
/// with that position's magnitude.
proof fn lemma_sorted_keys_props(s: Seq<ObsView>)
    ensures
        key_seq(s).sort_by(key_le()).len() == s.len(),
        forall|j: int|
            #![trigger key_seq(s).sort_by(key_le())[j]]
            0 <= j < s.len() ==> 0 <= key_seq(s).sort_by(key_le())[j].1 < s.len() && key_seq(
                s,
            ).sort_by(key_le())[j].0 == s[key_seq(s).sort_by(key_le())[j].1].magnitude_e7,
{
    broadcast use vstd::seq_lib::group_to_multiset_ensures;

    lemma_key_le_total();
    key_seq(s).lemma_sort_by_ensures(key_le());
    let t = key_seq(s).sort_by(key_le());
    assert(key_seq(s).to_multiset().len() == key_seq(s).len());
    assert(t.len() == s.len());
    assert forall|j: int|
        #![trigger key_seq(s).sort_by(key_le())[j]]
        0 <= j < s.len() implies 0 <= key_seq(s).sort_by(key_le())[j].1 < s.len() && key_seq(
        s,
    ).sort_by(key_le())[j].0 == s[key_seq(s).sort_by(key_le())[j].1].magnitude_e7 by {
        assert(t.contains(t[j]));
        assert(t.to_multiset().count(t[j]) > 0);
        assert(key_seq(s).to_multiset().count(t[j]) > 0);
        assert(key_seq(s).contains(t[j]));
        let i = choose|i: int| 0 <= i < key_seq(s).len() && key_seq(s)[i] == t[j];
        assert(t[j] == (s[i].magnitude_e7, i));
    }
}

/// Sorts the keys by magnitude, then original position.
fn sort_keys(keys: Vec<(i64, usize)>) -> (r: Vec<(i64, usize)>)
    ensures
        key_views(r@) == key_views(keys@).sort_by(key_le()),
{
    broadcast use vstd::seq_lib::group_to_multiset_ensures;

    let ghost kv = key_views(keys@);
    let mut sorted: Vec<(i64, usize)> = Vec::new();
    let mut i: usize = 0;
    proof {
        lemma_key_le_total();
        assert(key_views(keys@.take(0)) =~= Seq::<(i64, int)>::empty());
        assert(key_views(sorted@).to_multiset() =~= key_views(keys@.take(0)).to_multiset());
    }
    while i < keys.len()
        invariant
            i <= keys@.len(),
            sorted@.len() == i,
            sorted_by(key_views(sorted@), key_le()),
            key_views(sorted@).to_multiset() == key_views(keys@.take(i as int)).to_multiset(),
        decreases keys@.len() - i,
    {
        let k = keys[i];
        let mut p: usize = 0;
        while p < sorted.len() && (sorted[p].0 < k.0 || (sorted[p].0 == k.0 && sorted[p].1 <= k.1))
            invariant
                p <= sorted@.len(),
                forall|q: int|
                    0 <= q < p ==> key_le()(key_view(#[trigger] sorted@[q]), key_view(k)),
            decreases sorted@.len() - p,
        {
            p = p + 1;
        }
        let ghost old_sorted = sorted@;
        sorted.insert(p, k);
        proof {
            let sv = key_views(old_sorted);
            let nv = key_views(sorted@);
            assert(nv =~= sv.insert(p as int, key_view(k)));
            sv.insert_ensures(p as int, key_view(k));
            if (p as int) < sv.len() {
                assert(!key_le()(key_view(old_sorted[p as int]), key_view(k)));
                assert(key_le()(key_view(k), key_view(old_sorted[p as int])));
            }
            assert forall|a: int, b: int| 0 <= a < b < nv.len() implies #[trigger] key_le()(
                nv[a],
                nv[b],
            ) by {
                if a < p && b < p {
                    assert(nv[a] == sv[a] && nv[b] == sv[b]);
                } else if a < p && b == p {
                    assert(nv[a] == sv[a] && nv[b] == key_view(k));
                } else if a < p && b > p {
                    assert(nv[a] == sv[a] && nv[b] == sv[b - 1]);
                } else if a == p && b > p {
                    assert(nv[a] == key_view(k) && nv[b] == sv[b - 1]);
                    assert(key_le()(key_view(k), sv[p as int]));
                    if b - 1 > p {
                        assert(key_le()(sv[p as int], sv[b - 1]));
                    }
                } else {
                    assert(a > p && b > p);
                    assert(nv[a] == sv[a - 1] && nv[b] == sv[b - 1]);
                }
            }
            assert(nv.to_multiset() =~= sv.to_multiset().insert(key_view(k))) by {
                vstd::seq_lib::to_multiset_insert(sv, p as int, key_view(k));
            }
            assert(key_views(keys@.take(i as int + 1)) =~= key_views(keys@.take(i as int)).push(
                key_view(k),
            ));
            vstd::seq_lib::to_multiset_build(key_views(keys@.take(i as int)), key_view(k));
        }
        i = i + 1;
    }
    proof {
        assert(keys@.take(keys@.len() as int) =~= keys@);
        kv.lemma_sort_by_ensures(key_le());
        lemma_sorted_unique(key_views(sorted@), kv.sort_by(key_le()), key_le());
    }
    sorted
}

/// Selects the observation of lower-median magnitude rank and hands it
/// back, consuming the collection.
pub fn select_median(obs: Vec<EarthquakeInfo>) -> (r: EarthquakeInfo)
    requires
        obs@.len() >= 1,
    ensures
        r@ == median_of(views_of(obs@)),
{
    let ghost sv = views_of(obs@);
    let n = obs.len();
    let mut keys: Vec<(i64, usize)> = Vec::new();
    let mut i: usize = 0;
    while i < n
        invariant
            i <= n,
            obs@.len() == n,
            keys@.len() == i,
            forall|j: int| 0 <= j < i ==> #[trigger] keys@[j] == (obs@[j].magnitude_e7, j as usize),
        decreases n - i,
    {
        let m = obs[i].magnitude_e7;
        keys.push((m, i));
        i = i + 1;
    }
    proof {
        assert(key_views(keys@) =~= key_seq(sv));
    }
    let sorted = sort_keys(keys);
    proof {
        lemma_sorted_keys_props(sv);
    }
    let mid = (n - 1) / 2;
    let idx = sorted[mid].1;
    proof {
        assert(key_views(sorted@)[mid as int] == key_seq(sv).sort_by(key_le())[mid as int]);
        assert(idx as int == lower_median_index(sv));
    }
    let mut obs = obs;
    let r = obs.remove(idx);
    proof {
        assert(r@ == sv[idx as int]);
    }
    r
}

/// Reduces a round's reveal set to the wire bytes of its lower-median
/// observation, or reports that no reveal was decodable.
pub fn tally_phase(reveals: &Vec<Vec<u8>>) -> (r: Result<Vec<u8>, TallyError>)
    ensures
        (match r {
            Ok(bytes) => tally_result(reveal_views(reveals@)) == Some(bytes@) && obs_of(bytes@)
                == Some(median_of(decode_seq(reveal_views(reveals@)))),
            Err(e) => tally_result(reveal_views(reveals@)) is None && e == TallyError::NoConsensus,
        }),
{
    let ghost rv = reveal_views(reveals@);
    let mut valid: Vec<EarthquakeInfo> = Vec::new();
    let mut i: usize = 0;
    proof {
        assert(views_of(valid@) =~= decode_seq(rv.take(0)));
    }
    while i < reveals.len()
        invariant
            i <= reveals@.len(),
            rv == reveal_views(reveals@),
            views_of(valid@) == decode_seq(rv.take(i as int)),
        decreases reveals@.len() - i,
    {
        let ghost old_valid = valid@;
        match decode_observation(&reveals[i]) {
            Some(o) => {
                valid.push(o);
                proof {
                    assert(views_of(valid@) =~= views_of(old_valid) + seq![o@]);
                }
            },
            None => {},
        }
        proof {
            rv.lemma_filter_map_take_succ(obs_of_fn(), i as int);
            assert(rv[i as int] == reveals@[i as int]@);
        }
        i = i + 1;
    }
    proof {
        assert(rv.take(rv.len() as int) =~= rv);
    }
    if valid.len() == 0 {
        proof {
            assert(decode_seq(rv).len() == 0);
        }
        Err(TallyError::NoConsensus)
    } else {
        let ghost d = decode_seq(rv);
        proof {
            lemma_sorted_keys_props(d);
            assert(0 <= lower_median_index(d) < d.len());
            assert(d.contains(median_of(d)));
            rv.lemma_filter_map_contains(obs_of_fn(), median_of(d));
            let b = choose|b: Seq<u8>| #[trigger] rv.contains(b) && obs_of_fn()(b) == Some(
                median_of(d),
            );
            crate::observation::lemma_obs_of_wf(b);
            assert(mag_in_range(median_of(d).magnitude_e7));
        }
        let med = select_median(valid);
        let bytes = encode_observation(&med);
        Ok(bytes)
    }
}

/// Law: the round's result depends only on the valid subset of the
/// reveals; malformed entries never affect which observation is chosen.
pub proof fn lemma_result_depends_on_valid_subset(a: Seq<Seq<u8>>, b: Seq<Seq<u8>>)
    requires
        decode_seq(a) == decode_seq(b),
    ensures
        tally_result(a) == tally_result(b),
{
}

/// Law: a reveal set with no decodable entry always yields the
/// no-consensus outcome.
pub proof fn lemma_empty_valid_subset_no_consensus(rs: Seq<Seq<u8>>)
    requires
        decode_seq(rs).len() == 0,
    ensures
        tally_result(rs) is None,
{
}

/// No two observations share a magnitude.
pub open spec fn distinct_mags(s: Seq<ObsView>) -> bool {
    forall|i: int, j: int|
        #![trigger s[i], s[j]]
        0 <= i < j < s.len() ==> s[i].magnitude_e7 != s[j].magnitude_e7
}

/// Observations of magnitude below `m`, as a predicate.
pub open spec fn mag_lt_fn(m: i64) -> spec_fn(ObsView) -> bool {
    |o: ObsView| o.magnitude_e7 < m
}

spec fn key_lt_fn(m: i64) -> spec_fn((i64, int)) -> bool {
    |p: (i64, int)| p.0 < m
}

spec fn key_eq_fn(m: i64) -> spec_fn((i64, int)) -> bool {
    |p: (i64, int)| p.0 == m
}

/// Filtering commutes with passing to the multiset of a sequence.
proof fn lemma_filter_to_multiset<A>(u: Seq<A>, p: spec_fn(A) -> bool)
    ensures
        u.filter(p).to_multiset() =~= u.to_multiset().filter(p),
    decreases u.len(),
{
    broadcast use vstd::seq_lib::group_to_multiset_ensures;
    broadcast use vstd::multiset::group_multiset_axioms;

    reveal(Seq::filter);
    if u.len() == 0 {
        assert(u.filter(p) == u);
        assert forall|v: A| u.to_multiset().filter(p).count(v) == u.filter(p).to_multiset().count(
            v,
        ) by {
            assert(!u.contains(v));
            assert(u.to_multiset().count(v) == 0);
        }
    } else {
        let dl = u.drop_last();
        let last = u.last();
        lemma_filter_to_multiset(dl, p);
        assert(dl.push(last) =~= u);
        vstd::seq_lib::to_multiset_build(dl, last);
        if p(last) {
            vstd::seq_lib::to_multiset_build(dl.filter(p), last);
            assert forall|v: A| u.to_multiset().filter(p).count(v) == u.filter(p).to_multiset()
                .count(v) by {
                if v == last {
                } else {
                }
            }
        } else {
            assert forall|v: A| u.to_multiset().filter(p).count(v) == u.filter(p).to_multiset()
                .count(v) by {
                if v == last {
                } else {
                }
            }
        }
    }
}

/// Counting small magnitudes in the observations or in their ranking keys
/// gives the same number.
proof fn lemma_obs_key_filter_len(s: Seq<ObsView>, m: i64)
    ensures
        s.filter(mag_lt_fn(m)).len() == key_seq(s).filter(key_lt_fn(m)).len(),
    decreases s.len(),
{
    reveal(Seq::filter);
    if s.len() > 0 {
        let dl = s.drop_last();
        lemma_obs_key_filter_len(dl, m);
        assert(key_seq(s).drop_last() =~= key_seq(dl));
        assert(key_seq(s).last() == (s.last().magnitude_e7, s.len() - 1));
        assert(mag_lt_fn(m)(s.last()) <==> key_lt_fn(m)(key_seq(s).last()));
    }
}

/// With pairwise distinct magnitudes, at most one ranking key carries any
/// given magnitude.
proof fn lemma_distinct_key_filter_le1(s: Seq<ObsView>, m: i64)
    requires
        distinct_mags(s),
    ensures
        key_seq(s).filter(key_eq_fn(m)).len() <= 1,
    decreases s.len(),
{
    reveal(Seq::filter);
    if s.len() > 0 {
        let dl = s.drop_last();
        assert(distinct_mags(dl));
        lemma_distinct_key_filter_le1(dl, m);
        assert(key_seq(s).drop_last() =~= key_seq(dl));
        assert(key_seq(s).last() == (s.last().magnitude_e7, s.len() - 1));
        if s.last().magnitude_e7 == m {
            assert(key_seq(dl).all(|x: (i64, int)| !key_eq_fn(m)(x))) by {
                assert forall|x: (i64, int)| key_seq(dl).contains(x) implies !key_eq_fn(m)(x) by {
                    let j = choose|j: int| 0 <= j < key_seq(dl).len() && key_seq(dl)[j] == x;
                    assert(s[j].magnitude_e7 != s[s.len() - 1].magnitude_e7);
                }
            }
            key_seq(dl).lemma_all_neg_filter_empty(key_eq_fn(m));
        }
    }
}

/// A predicate that holds exactly on the first `k` positions is satisfied
/// by exactly `k` elements.
proof fn lemma_filter_prefix_len<A>(u: Seq<A>, p: spec_fn(A) -> bool, k: int)
    requires
        0 <= k <= u.len(),
        forall|j: int| 0 <= j < u.len() ==> (p(#[trigger] u[j]) <==> j < k),
    ensures
        u.filter(p).len() == k,
    decreases u.len(),
{
    reveal(Seq::filter);
    if u.len() > 0 {
        let dl = u.drop_last();
        if k == u.len() {
            lemma_filter_prefix_len(dl, p, k - 1);
        } else {
            lemma_filter_prefix_len(dl, p, k);
        }
    }
}

/// With pairwise distinct magnitudes, sorted keys at distinct positions
/// carry distinct magnitudes.
proof fn lemma_sorted_keys_distinct(s: Seq<ObsView>, j: int, k: int)
    requires
        distinct_mags(s),
        0 <= j < k < key_seq(s).sort_by(key_le()).len(),
    ensures
        key_seq(s).sort_by(key_le())[j].0 != key_seq(s).sort_by(key_le())[k].0,
{
    broadcast use vstd::seq_lib::group_to_multiset_ensures;
    broadcast use vstd::multiset::group_multiset_axioms;

    lemma_key_le_total();
    key_seq(s).lemma_sort_by_ensures(key_le());
    let t = key_seq(s).sort_by(key_le());
    let m = t[k].0;
    if t[j].0 == m {
        let front = t.take(j + 1);
        let back = t.skip(j + 1);
        assert(t =~= front + back);
        Seq::filter_distributes_over_add(front, back, key_eq_fn(m));
        assert(front[j] == t[j] && key_eq_fn(m)(front[j]));
        front.lemma_filter_contains(key_eq_fn(m), j);
        assert(front.filter(key_eq_fn(m)).len() >= 1);
        assert(back[k - j - 1] == t[k] && key_eq_fn(m)(back[k - j - 1]));
        back.lemma_filter_contains(key_eq_fn(m), k - j - 1);
        assert(back.filter(key_eq_fn(m)).len() >= 1);
        assert(t.filter(key_eq_fn(m)).len() >= 2);
        lemma_filter_to_multiset(t, key_eq_fn(m));
        lemma_filter_to_multiset(key_seq(s), key_eq_fn(m));
        assert(t.filter(key_eq_fn(m)).to_multiset().len() == t.filter(key_eq_fn(m)).len());
        assert(key_seq(s).filter(key_eq_fn(m)).to_multiset().len() == key_seq(s).filter(
            key_eq_fn(m),
        ).len());
        assert(t.to_multiset().filter(key_eq_fn(m)) == key_seq(s).to_multiset().filter(
            key_eq_fn(m),
        ));
        assert(key_seq(s).filter(key_eq_fn(m)).len() >= 2);
        lemma_distinct_key_filter_le1(s, m);
        assert(false);
    }
}

/// Law: with pairwise distinct magnitudes the selected observation's
/// magnitude is the true statistical median: exactly `(n - 1) / 2`
/// observations are smaller, the true middle for odd `n` and the lower of
/// the two central candidates for even `n`.
pub proof fn lemma_median_rank(s: Seq<ObsView>)
    requires
        s.len() >= 1,
        distinct_mags(s),
    ensures
        s.contains(median_of(s)),
        s.filter(mag_lt_fn(median_of(s).magnitude_e7)).len() == (s.len() - 1) as int / 2,
{
    broadcast use vstd::seq_lib::group_to_multiset_ensures;
    broadcast use vstd::multiset::group_multiset_axioms;

    lemma_key_le_total();
    lemma_sorted_keys_props(s);
    key_seq(s).lemma_sort_by_ensures(key_le());
    let t = key_seq(s).sort_by(key_le());
    let k = (s.len() - 1) as int / 2;
    let m = t[k].0;
    assert(median_of(s) == s[t[k].1]);
    assert(median_of(s).magnitude_e7 == m);
    assert(s.contains(median_of(s)));
    assert forall|j: int| 0 <= j < t.len() implies (key_lt_fn(m)(#[trigger] t[j]) <==> j < k) by {
        if j < k {
            assert(key_le()(t[j], t[k]));
            if t[j].0 == m {
                lemma_sorted_keys_distinct(s, j, k);
            }
        } else if j > k {
            assert(key_le()(t[k], t[j]));
        }
    }
    lemma_filter_prefix_len(t, key_lt_fn(m), k);
    lemma_filter_to_multiset(t, key_lt_fn(m));
    lemma_filter_to_multiset(key_seq(s), key_lt_fn(m));
    assert(t.filter(key_lt_fn(m)).to_multiset().len() == t.filter(key_lt_fn(m)).len());
    assert(key_seq(s).filter(key_lt_fn(m)).to_multiset().len() == key_seq(s).filter(
        key_lt_fn(m),
    ).len());
    assert(key_seq(s).filter(key_lt_fn(m)).len() == k);
    lemma_obs_key_filter_len(s, m);
}

} // verus!
