//! The provider-facing data shapes and the series normalizer: parsing,
//! ordering and truncation of (date, price-text) records.

use vstd::prelude::*;
use crate::dates::Date;
use crate::dates::date_key;

verus! {

/// Descriptive header of a fetched technical-analysis series, as the
/// provider reports it. Carried through unchanged; the core never reads
/// it.
#[derive(Clone, Debug)]
pub struct MetaData {
    pub symbol: String,
    pub indicator: String,
    pub last_refreshed: String,
    pub interval: String,
    pub time_period: u32,
    pub series_type: String,
    pub time_zone: String,
}

/// One daily record of the series: the provider represents the price as
/// decimal text, not as a native number.
#[derive(Clone, Debug)]
pub struct SmaData {
    pub sma: String,
}

/// A fetched series: header plus the unordered (date key, record)
/// pairs, in no particular order. The provider keys them by a mapping,
/// so the date keys are normally pairwise distinct; the normalizer
/// does not rely on that.
#[derive(Clone, Debug)]
pub struct TechnicalAnalysisResponse {
    pub meta_data: MetaData,
    pub technical_analysis: Vec<(String, SmaData)>,
}

/// One dated price observation. The price is in ten-thousandths of a
/// currency unit (see `crate::prices::PRICE_SCALE`).
#[derive(Clone, Copy, PartialEq, Eq, Structural, Debug)]
pub struct Observation {
    pub date: Date,
    pub price: u64,
}

/// The direction a normalized series is ordered in: `Descending` is
/// most-recent-first (the display order), `Ascending` oldest-first (the
/// feed order of the averager).
#[derive(Clone, Copy, PartialEq, Eq, Structural, Debug)]
pub enum SortOrder {
    Ascending,
    Descending,
}

/// Which field of a record failed to parse.
#[derive(Clone, Copy, PartialEq, Eq, Structural, Debug)]
pub enum ParseField {
    DateText,
    PriceText,
}

/// A record whose date key or price text is not well-formed; the whole
/// normalization fails with the offending record's key and raw text.
#[derive(Clone, Debug)]
pub struct ParseError {
    pub date: String,
    pub field: ParseField,
    pub raw_value: String,
}

/// The ordering key of an observation.
pub open spec fn obs_key(o: Observation) -> int {
    date_key(o.date)
}

/// Strictly most-recent-first: later positions hold strictly older
/// dates.
pub open spec fn sorted_desc_strict(s: Seq<Observation>) -> bool {
    forall|i: int, j: int| 0 <= i < j < s.len() ==> obs_key(s[i]) > obs_key(s[j])
}

/// Most-recent-first, ties allowed.
pub open spec fn sorted_desc_weak(s: Seq<Observation>) -> bool {
    forall|i: int, j: int| 0 <= i < j < s.len() ==> obs_key(s[i]) >= obs_key(s[j])
}

/// Strictly oldest-first.
pub open spec fn sorted_asc_strict(s: Seq<Observation>) -> bool {
    forall|i: int, j: int| 0 <= i < j < s.len() ==> obs_key(s[i]) < obs_key(s[j])
}

/// No two observations share a date.
pub open spec fn distinct_dates(s: Seq<Observation>) -> bool {
    forall|i: int, j: int| 0 <= i < j < s.len() ==> obs_key(s[i]) != obs_key(s[j])
}

/// Some observation in `s` carries date key `k`.
pub open spec fn date_in(s: Seq<Observation>, k: int) -> bool {
    exists|i: int| 0 <= i < s.len() && obs_key(s[i]) == k
}

pub open spec fn min_int(a: int, b: int) -> int {
    if a <= b {
        a
    } else {
        b
    }
}

/// Reordering a sequence cannot create or destroy repeated dates.
proof fn lemma_distinct_dates_multiset(a: Seq<Observation>, b: Seq<Observation>)
    requires
        a.to_multiset() == b.to_multiset(),
        distinct_dates(a),
    ensures
        distinct_dates(b),
{
    broadcast use vstd::seq_lib::group_to_multiset_ensures;
    broadcast use vstd::multiset::group_multiset_axioms;

    assert forall|i: int, j: int| 0 <= i < j < b.len() implies obs_key(b[i]) != obs_key(b[j]) by {
        if obs_key(b[i]) == obs_key(b[j]) {
            if b[i] == b[j] {
                let s0 = b.subrange(0, j);
                let s1 = b.subrange(j, b.len() as int);
                assert(b =~= s0 + s1);
                vstd::seq_lib::lemma_multiset_commutative(s0, s1);
                assert(s0[i] == b[i]);
                assert(s1[0] == b[j]);
                assert(s0.contains(b[i]));
                assert(s1.contains(b[i]));
                assert(b.to_multiset().count(b[i]) >= 2);
                assert(a.to_multiset().count(b[i]) >= 2);
                vstd::seq_lib::to_multiset_contains(a, b[i]);
                assert(a.contains(b[i]));
                let i1 = choose|k: int| 0 <= k < a.len() && a[k] == b[i];
                let rest = a.remove(i1);
                assert(rest.to_multiset() == a.to_multiset().remove(a[i1]));
                assert(rest.to_multiset().count(b[i]) >= 1);
                vstd::seq_lib::to_multiset_contains(rest, b[i]);
                assert(rest.contains(b[i]));
                let i2 = choose|k: int| 0 <= k < rest.len() && rest[k] == b[i];
                a.remove_ensures(i1);
                if i2 < i1 {
                    assert(a[i2] == b[i]);
                    assert(obs_key(a[i2]) == obs_key(a[i1]));
                    assert(false);
                } else {
                    assert(a[i2 + 1] == b[i]);
                    assert(obs_key(a[i2 + 1]) == obs_key(a[i1]));
                    assert(false);
                }
            } else {
                assert(b.contains(b[i]));
                assert(b.contains(b[j]));
                vstd::seq_lib::to_multiset_contains(b, b[i]);
                vstd::seq_lib::to_multiset_contains(b, b[j]);
                vstd::seq_lib::to_multiset_contains(a, b[i]);
                vstd::seq_lib::to_multiset_contains(a, b[j]);
                assert(a.contains(b[i]));
                assert(a.contains(b[j]));
                let i1 = choose|k: int| 0 <= k < a.len() && a[k] == b[i];
                let i2 = choose|k: int| 0 <= k < a.len() && a[k] == b[j];
                assert(i1 != i2);
                assert(false);
            }
        }
    }
}

/// A strictly ordered sequence is the only weakly ordered arrangement
/// of its contents.
proof fn lemma_sorted_multiset_unique(x: Seq<Observation>, y: Seq<Observation>)
    requires
        sorted_desc_strict(x),
        sorted_desc_weak(y),
        x.to_multiset() == y.to_multiset(),
    ensures
        x == y,
    decreases x.len(),
{
    broadcast use vstd::seq_lib::group_to_multiset_ensures;
    broadcast use vstd::multiset::group_multiset_axioms;

    vstd::seq_lib::to_multiset_len(x);
    vstd::seq_lib::to_multiset_len(y);
    assert(x.len() == y.len());
    if x.len() == 0 || y.len() == 0 {
        assert(x =~= y);
    } else {
        assert(y.contains(y[0]));
        vstd::seq_lib::to_multiset_contains(y, y[0]);
        vstd::seq_lib::to_multiset_contains(x, y[0]);
        assert(x.contains(y[0]));
        let i = choose|i: int| 0 <= i < x.len() && x[i] == y[0];
        assert(x.contains(x[0]));
        vstd::seq_lib::to_multiset_contains(x, x[0]);
        vstd::seq_lib::to_multiset_contains(y, x[0]);
        assert(y.contains(x[0]));
        let j = choose|j: int| 0 <= j < y.len() && y[j] == x[0];
        assert(obs_key(x[0]) == obs_key(y[j]) <= obs_key(y[0]));
        assert(obs_key(y[0]) == obs_key(x[i]) <= obs_key(x[0]));
        if i > 0 {
            assert(obs_key(x[i]) < obs_key(x[0]));
            assert(false);
        }
        assert(x[0] == y[0]);
        assert(x.remove(0) =~= x.drop_first());
        assert(y.remove(0) =~= y.drop_first());
        assert(x.drop_first().to_multiset() == x.to_multiset().remove(x[0]));
        assert(y.drop_first().to_multiset() == y.to_multiset().remove(y[0]));
        lemma_sorted_multiset_unique(x.drop_first(), y.drop_first());
        assert forall|k: int| 0 <= k < x.len() implies x[k] == y[k] by {
            if k > 0 {
                assert(x.drop_first()[k - 1] == x[k]);
                assert(y.drop_first()[k - 1] == y[k]);
            }
        }
        assert(x =~= y);
    }
}

/// Sorts most-recent-first by insertion; the contents are unchanged as
/// a multiset.
fn sort_by_date_desc(v: &mut Vec<Observation>)
    ensures
        sorted_desc_weak(final(v)@),
        final(v)@.to_multiset() == old(v)@.to_multiset(),
        final(v)@.len() == old(v)@.len(),
{
    let ghost orig = v@;
    let mut i: usize = 0;
    while i < v.len()
        invariant
            i <= v@.len(),
            v@.len() == orig.len(),
            sorted_desc_weak(v@.subrange(0, i as int)),
            v@.to_multiset() == orig.to_multiset(),
        decreases v@.len() - i,
    {
        let x = v[i];
        let key_x = x.date.key();
        let mut p: usize = 0;
        while p < i && v[p].date.key() >= key_x
            invariant
                p <= i < v@.len(),
                key_x == obs_key(v@[i as int]),
                forall|a: int| 0 <= a < p ==> obs_key(v@[a]) >= key_x,
            decreases i - p,
        {
            p = p + 1;
        }
        if p < i {
            let ghost before = v@;
            let moved = v.remove(i);
            v.insert(p, moved);
            proof {
                broadcast use vstd::seq_lib::group_to_multiset_ensures;
                broadcast use vstd::multiset::group_multiset_axioms;

                let removed = before.remove(i as int);
                before.remove_ensures(i as int);
                removed.insert_ensures(p as int, moved);
                assert(before.contains(moved));
                assert(removed.to_multiset() == before.to_multiset().remove(moved));
                assert(v@.to_multiset() == removed.to_multiset().insert(moved));
                assert(v@.to_multiset() =~= before.to_multiset());
                assert(v@ == removed.insert(p as int, moved));
                assert forall|k: int| 0 <= k <= i implies v@[k] == (if k < p {
                    before[k]
                } else if k == p {
                    moved
                } else {
                    before[k - 1]
                }) by {
                    if k < p {
                        assert(removed.insert(p as int, moved)[k] == removed[k]);
                        assert(removed[k] == before[k]);
                    } else if k == p {
                        assert(removed.insert(p as int, moved)[p as int] == moved);
                    } else {
                        assert(removed.insert(p as int, moved)[(k - 1) + 1] == removed[k - 1]);
                        assert(removed[k - 1] == before[k - 1]);
                    }
                }
                let pre = before.subrange(0, i as int);
                assert forall|a: int, b: int| 0 <= a <= b < i implies obs_key(before[a]) >= obs_key(
                    before[b],
                ) by {
                    assert(pre[a] == before[a]);
                    assert(pre[b] == before[b]);
                }
                assert(obs_key(before[p as int]) < key_x);
                assert(moved == before[i as int]);
                assert forall|a: int, b: int| 0 <= a < b <= i implies obs_key(v@[a]) >= obs_key(
                    v@[b],
                ) by {
                    if a == p {
                        assert(obs_key(v@[a]) == key_x);
                        assert(obs_key(v@[b]) == obs_key(before[b - 1]));
                        assert(obs_key(before[b - 1]) <= obs_key(before[p as int]));
                    } else if b == p {
                        assert(obs_key(v@[a]) == obs_key(before[a]));
                        assert(obs_key(before[a]) >= key_x);
                    }
                }
                assert forall|a: int, b: int|
                    0 <= a < b < i + 1 implies obs_key(#[trigger] v@.subrange(0, i + 1)[a])
                        >= obs_key(#[trigger] v@.subrange(0, i + 1)[b]) by {
                    assert(v@.subrange(0, i + 1)[a] == v@[a]);
                    assert(v@.subrange(0, i + 1)[b] == v@[b]);
                }
                assert(sorted_desc_weak(v@.subrange(0, i + 1)));
            }
        } else {
            proof {
                assert forall|a: int, b: int| 0 <= a < b <= i implies obs_key(v@[a]) >= obs_key(
                    v@[b],
                ) by {
                    if b < i {
                        assert(obs_key(v@.subrange(0, i as int)[a]) >= obs_key(
                            v@.subrange(0, i as int)[b],
                        ));
                    }
                }
                assert(sorted_desc_weak(v@.subrange(0, i + 1)));
            }
        }
        i = i + 1;
    }
    proof {
        assert(v@.subrange(0, v@.len() as int) =~= v@);
    }
}

/// A new vector holding the same observations in reverse order.
fn reverse_observations(v: &Vec<Observation>) -> (r: Vec<Observation>)
    ensures
        r@ == v@.reverse(),
{
    let mut r: Vec<Observation> = Vec::new();
    let mut k: usize = v.len();
    while k > 0
        invariant
            k <= v@.len(),
            r@.len() == v@.len() - k,
            forall|m: int| 0 <= m < r@.len() ==> r@[m] == v@[v@.len() - 1 - m],
        decreases k,
    {
        k = k - 1;
        r.push(v[k]);
    }
    proof {
        assert(r@ =~= v@.reverse());
    }
    r
}

/// What normalization promises, stated of the most-recent-first view
/// `r` of its output: strictly ordered and deduplicated; every kept
/// observation comes from the input; at most `limit` are kept and none
/// is dropped except a repeated date or, once `limit` are kept, a date
/// strictly older than everything kept; a duplicate-free input loses
/// nothing but the truncation; an already-ordered input comes back as
/// its own prefix, unchanged.
pub open spec fn normalize_post_desc(
    input: Seq<Observation>,
    limit: int,
    r: Seq<Observation>,
) -> bool {
    &&& sorted_desc_strict(r)
    &&& r.len() <= limit
    &&& r.len() <= input.len()
    &&& forall|i: int| 0 <= i < r.len() ==> input.contains(#[trigger] r[i])
    &&& forall|j: int|
        0 <= j < input.len() ==> date_in(r, obs_key(#[trigger] input[j])) || (r.len() == limit
            && forall|i2: int| 0 <= i2 < r.len() ==> obs_key(input[j]) < obs_key(#[trigger] r[i2]))
    &&& (distinct_dates(input) ==> r.len() == min_int(limit, input.len() as int))
    &&& (sorted_desc_strict(input) ==> r == input.take(min_int(limit, input.len() as int)))
}

/// The most-recent-first view of a result delivered in the requested
/// order.
pub open spec fn desc_view(r: Seq<Observation>, order: SortOrder) -> Seq<Observation> {
    if order == SortOrder::Descending {
        r
    } else {
        r.reverse()
    }
}

/// The dropped-nothing-but-duplicates-and-truncation facts that hold
/// when the deduplicating scan over the sorted sequence `v` stops.
proof fn lemma_dedup_post(
    input: Seq<Observation>,
    v: Seq<Observation>,
    out: Seq<Observation>,
    limit: int,
    idx: int,
)
    requires
        sorted_desc_weak(v),
        v.to_multiset() == input.to_multiset(),
        v.len() == input.len(),
        distinct_dates(input) ==> distinct_dates(v),
        sorted_desc_strict(input) ==> v == input,
        0 <= idx <= v.len(),
        out.len() <= idx,
        out.len() <= limit,
        sorted_desc_strict(out),
        forall|i: int| 0 <= i < out.len() ==> v.contains(#[trigger] out[i]),
        out.len() > 0 ==> exists|j0: int| 0 <= j0 < idx && out[out.len() - 1] == v[j0],
        forall|j: int| 0 <= j < idx ==> date_in(out, obs_key(#[trigger] v[j])),
        distinct_dates(v) ==> out.len() == idx,
        sorted_desc_strict(v) ==> out == v.take(idx),
        idx == v.len() || out.len() == limit,
    ensures
        normalize_post_desc(input, limit, out),
{
    assert forall|i: int| 0 <= i < out.len() implies input.contains(#[trigger] out[i]) by {
        vstd::seq_lib::to_multiset_contains(v, out[i]);
        vstd::seq_lib::to_multiset_contains(input, out[i]);
    }
    assert forall|j: int| 0 <= j < input.len() implies date_in(
        out,
        obs_key(#[trigger] input[j]),
    ) || (out.len() == limit && forall|i2: int|
        0 <= i2 < out.len() ==> obs_key(input[j]) < obs_key(#[trigger] out[i2])) by {
        assert(input.contains(input[j])) by {
            assert(input[j] == input[j]);
        }
        vstd::seq_lib::to_multiset_contains(input, input[j]);
        vstd::seq_lib::to_multiset_contains(v, input[j]);
        assert(v.contains(input[j]));
        let jv = choose|jv: int| 0 <= jv < v.len() && v[jv] == input[j];
        if jv < idx {
            assert(date_in(out, obs_key(v[jv])));
        } else if out.len() == 0 {
            assert(out.len() == limit);
        } else {
            assert(out.len() == limit);
            let j0 = choose|j0: int| 0 <= j0 < idx && out[out.len() - 1] == v[j0];
            assert(j0 < jv);
            assert(obs_key(v[jv]) <= obs_key(v[j0]));
            if obs_key(v[jv]) == obs_key(out[out.len() - 1]) {
                assert(date_in(out, obs_key(input[j]))) by {
                    assert(obs_key(out[out.len() - 1]) == obs_key(input[j]));
                }
            } else {
                assert forall|i2: int| 0 <= i2 < out.len() implies obs_key(input[j]) < obs_key(
                    #[trigger] out[i2],
                ) by {
                    if i2 < out.len() - 1 {
                        assert(obs_key(out[i2]) > obs_key(out[out.len() - 1]));
                    }
                }
            }
        }
    }
    if sorted_desc_strict(input) {
        assert(out == v.take(idx));
        assert(out.len() == idx);
        assert(out =~= input.take(min_int(limit, input.len() as int)));
    }
}

/// Orders observations by date, most recent first, drops all but one
/// record of any repeated date, keeps the `limit` most recent dates
/// (all of them when fewer), and reverses the result when chronological
/// order was asked for. Truncation happens on the most-recent-first
/// view, so `limit` always selects the most recent dates.
#[verifier::rlimit(30)]
pub fn arrange(observations: Vec<Observation>, limit: usize, order: SortOrder) -> (r: Vec<
    Observation,
>)
    ensures
        normalize_post_desc(observations@, limit as int, desc_view(r@, order)),
        order == SortOrder::Ascending ==> sorted_asc_strict(r@),
{
    let ghost input = observations@;
    let mut v = observations;
    sort_by_date_desc(&mut v);
    proof {
        broadcast use vstd::seq_lib::group_to_multiset_ensures;

        if distinct_dates(input) {
            lemma_distinct_dates_multiset(input, v@);
        }
        if sorted_desc_strict(input) {
            lemma_sorted_multiset_unique(input, v@);
        }
    }
    let mut out: Vec<Observation> = Vec::new();
    let mut idx: usize = 0;
    while idx < v.len() && out.len() < limit
        invariant
            sorted_desc_weak(v@),
            v@.to_multiset() == input.to_multiset(),
            v@.len() == input.len(),
            distinct_dates(input) ==> distinct_dates(v@),
            sorted_desc_strict(input) ==> v@ == input,
            idx <= v@.len(),
            out@.len() <= idx,
            out@.len() <= limit,
            sorted_desc_strict(out@),
            forall|i: int| 0 <= i < out@.len() ==> v@.contains(#[trigger] out@[i]),
            out@.len() > 0 ==> exists|j0: int|
                0 <= j0 < idx && out@[out@.len() - 1] == v@[j0],
            forall|j: int| 0 <= j < idx ==> date_in(out@, obs_key(#[trigger] v@[j])),
            distinct_dates(v@) ==> out@.len() == idx,
            sorted_desc_strict(v@) ==> out@ == v@.take(idx as int),
        decreases v@.len() - idx,
    {
        let o = v[idx];
        let ghost old_out = out@;
        let push_it = if out.len() == 0 {
            true
        } else {
            out[out.len() - 1].date.key() > o.date.key()
        };
        if push_it {
            out.push(o);
            proof {
                assert(v@.contains(o)) by {
                    assert(v@[idx as int] == o);
                }
                assert forall|j: int| 0 <= j < idx + 1 implies date_in(
                    out@,
                    obs_key(#[trigger] v@[j]),
                ) by {
                    if j < idx {
                        let w = choose|w: int|
                            0 <= w < old_out.len() && obs_key(old_out[w]) == obs_key(v@[j]);
                        assert(out@[w] == old_out[w]);
                    } else {
                        assert(out@[out@.len() - 1] == o);
                    }
                }
                if sorted_desc_strict(v@) {
                    assert(out@ =~= v@.take(idx + 1));
                }
            }
        } else {
            proof {
                let j0 = choose|j0: int| 0 <= j0 < idx && old_out[old_out.len() - 1] == v@[j0];
                assert(obs_key(v@[idx as int]) <= obs_key(v@[j0]));
                assert(obs_key(old_out[old_out.len() - 1]) <= obs_key(v@[idx as int]));
                assert(obs_key(out@[out@.len() - 1]) == obs_key(v@[idx as int]));
                assert forall|j: int| 0 <= j < idx + 1 implies date_in(
                    out@,
                    obs_key(#[trigger] v@[j]),
                ) by {
                    if j == idx {
                        assert(obs_key(out@[out@.len() - 1]) == obs_key(v@[j]));
                    }
                }
                if distinct_dates(v@) {
                    assert(obs_key(v@[j0]) != obs_key(v@[idx as int]));
                    assert(false);
                }
                if sorted_desc_strict(v@) {
                    assert(obs_key(v@[j0]) > obs_key(v@[idx as int]));
                    assert(false);
                }
            }
        }
        idx = idx + 1;
    }
    proof {
        lemma_dedup_post(input, v@, out@, limit as int, idx as int);
    }
    match order {
        SortOrder::Descending => out,
        SortOrder::Ascending => {
            let r = reverse_observations(&out);
            proof {
                assert(r@.reverse() =~= out@);
                assert forall|i: int, j: int| 0 <= i < j < r@.len() implies obs_key(r@[i])
                    < obs_key(r@[j]) by {
                    assert(r@[i] == out@[out@.len() - 1 - i]);
                    assert(r@[j] == out@[out@.len() - 1 - j]);
                }
            }
            r
        },
    }
}

/// Both fields of a record are well-formed.
pub open spec fn record_ok(rec: (String, SmaData)) -> bool {
    crate::dates::is_date_text(rec.0@) && crate::prices::is_price_text(rec.1.sma@)
}

/// The observation a well-formed record denotes.
pub open spec fn obs_of(rec: (String, SmaData)) -> Observation {
    Observation {
        date: crate::dates::date_of_text(rec.0@),
        price: crate::prices::price_units(rec.1.sma@) as u64,
    }
}

/// All records parsed, in input order.
pub open spec fn parsed_obs(raw: Seq<(String, SmaData)>) -> Seq<Observation> {
    raw.map_values(|rec: (String, SmaData)| obs_of(rec))
}

/// The error reported for the first ill-formed record: its date key,
/// and the field that failed with its raw text.
pub open spec fn error_matches(raw: Seq<(String, SmaData)>, e: ParseError, i: int) -> bool {
    &&& 0 <= i < raw.len()
    &&& !record_ok(raw[i])
    &&& forall|j: int| 0 <= j < i ==> record_ok(#[trigger] raw[j])
    &&& e.date@ == raw[i].0@
    &&& if !crate::dates::is_date_text(raw[i].0@) {
        e.field == ParseField::DateText && e.raw_value@ == raw[i].0@
    } else {
        e.field == ParseField::PriceText && e.raw_value@ == raw[i].1.sma@
    }
}

/// Normalizes the fetched records: parses every date key and price
/// text (failing fast, with no partial series, on the first record
/// that does not parse), orders the observations most recent first,
/// drops repeated dates, keeps the `limit` most recent trading days,
/// and reverses into chronological order when asked. Pure: the input
/// is read, never changed.
pub fn normalize(raw: &Vec<(String, SmaData)>, limit: usize, order: SortOrder) -> (r: Result<
    Vec<Observation>,
    ParseError,
>)
    ensures
        r is Ok <==> (forall|i: int| 0 <= i < raw@.len() ==> record_ok(#[trigger] raw@[i])),
        r matches Ok(v) ==> normalize_post_desc(parsed_obs(raw@), limit as int, desc_view(v@, order)),
        order == SortOrder::Ascending ==> (r matches Ok(v) ==> sorted_asc_strict(v@)),
        r matches Err(e) ==> exists|i: int| error_matches(raw@, e, i),
{
    let mut obs: Vec<Observation> = Vec::new();
    let mut i: usize = 0;
    while i < raw.len()
        invariant
            i <= raw@.len(),
            obs@.len() == i,
            forall|k: int| 0 <= k < i ==> record_ok(#[trigger] raw@[k]),
            forall|k: int| 0 <= k < i ==> obs@[k] == obs_of(#[trigger] raw@[k]),
        decreases raw@.len() - i,
    {
        let date = match crate::dates::parse_date(raw[i].0.as_str()) {
            Some(d) => d,
            None => {
                let e = ParseError {
                    date: raw[i].0.clone(),
                    field: ParseField::DateText,
                    raw_value: raw[i].0.clone(),
                };
                proof {
                    assert(error_matches(raw@, e, i as int));
                }
                return Err(e);
            },
        };
        let price = match crate::prices::parse_price(raw[i].1.sma.as_str()) {
            Some(p) => p,
            None => {
                let e = ParseError {
                    date: raw[i].0.clone(),
                    field: ParseField::PriceText,
                    raw_value: raw[i].1.sma.clone(),
                };
                proof {
                    assert(error_matches(raw@, e, i as int));
                }
                return Err(e);
            },
        };
        obs.push(Observation { date, price });
        i = i + 1;
    }
    proof {
        assert(obs@ =~= parsed_obs(raw@));
    }
    Ok(arrange(obs, limit, order))
}

/// Normalization is idempotent: normalizing an already normalized
/// series again, with the same limit, returns it unchanged.
pub proof fn lemma_normalize_idempotent(
    input: Seq<Observation>,
    limit: int,
    r1: Seq<Observation>,
    r2: Seq<Observation>,
)
    requires
        normalize_post_desc(input, limit, r1),
        normalize_post_desc(r1, limit, r2),
    ensures
        r2 == r1,
{
    assert(r2 == r1.take(min_int(limit, r1.len() as int)));
    assert(r1.take(r1.len() as int) =~= r1);
}

} // verus!
