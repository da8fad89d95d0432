//! The sliding-window averager: a bounded FIFO of the most recent
//! prices, the exact arithmetic mean over a full window, and the
//! Up/Down signal of a price against that mean.

use vstd::prelude::*;
use crate::series::Observation;
use crate::dates::Date;

verus! {

/// A configuration the pipeline rejects before touching any data.
#[derive(Clone, Copy, PartialEq, Eq, Structural, Debug)]
pub enum ConfigurationError {
    ZeroWindowSize,
    ZeroLimit,
}

/// An exact arithmetic mean: the rational `sum / count` of `count`
/// prices. Kept as numerator and denominator so no precision is lost.
#[derive(Clone, Copy, PartialEq, Eq, Structural, Debug)]
pub struct Mean {
    pub sum: u128,
    pub count: usize,
}

/// The direction of a day's price against its moving average.
#[derive(Clone, Copy, PartialEq, Eq, Structural, Debug)]
pub enum Signal {
    Up,
    Down,
}

/// One output row: the observation just ingested and, once the window
/// was full at that moment, the mean of the window's contents.
#[derive(Clone, Copy, Debug)]
pub struct SmaPoint {
    pub date: Date,
    pub price: u64,
    pub average: Option<Mean>,
}

/// Sum of a price sequence, in insertion order.
pub open spec fn sum_seq(s: Seq<u64>) -> int
    decreases s.len(),
{
    if s.len() == 0 {
        0
    } else {
        sum_seq(s.drop_last()) + s.last()
    }
}

/// A sum of prices is bounded by the count of prices times the largest
/// price value.
pub proof fn lemma_sum_seq_bounds(s: Seq<u64>)
    ensures
        0 <= sum_seq(s) <= s.len() * (u64::MAX as int),
    decreases s.len(),
{
    if s.len() == 0 {
    } else {
        lemma_sum_seq_bounds(s.drop_last());
        assert((s.len() - 1) * (u64::MAX as int) + (u64::MAX as int) == s.len() * (
        u64::MAX as int)) by (nonlinear_arith);
    }
}

/// The window contents after one more price: appended at the back, the
/// oldest price evicted from the front first when the window already
/// holds `size` prices.
pub open spec fn push_evict(w: Seq<u64>, size: int, p: u64) -> Seq<u64> {
    if w.len() < size {
        w.push(p)
    } else {
        w.subrange(1, w.len() as int).push(p)
    }
}

/// A bounded FIFO window of the most recent prices, owned by one
/// traversal of one series.
pub struct Averager {
    window: Vec<u64>,
    window_size: usize,
}

impl Averager {
    /// The prices currently held, oldest first.
    pub closed spec fn window(&self) -> Seq<u64> {
        self.window@
    }

    /// The configured window size.
    pub closed spec fn size(&self) -> int {
        self.window_size as int
    }

    /// The window never outgrows its configured, positive size.
    pub open spec fn wf(&self) -> bool {
        1 <= self.size() && self.window().len() <= self.size()
    }

    /// Rejects a zero window size before any price can be fed; a
    /// positive size starts an empty, filling window.
    pub fn new(window_size: usize) -> (r: Result<Averager, ConfigurationError>)
        ensures
            r is Ok <==> window_size >= 1,
            window_size == 0 ==> r == Err::<Averager, ConfigurationError>(
                ConfigurationError::ZeroWindowSize,
            ),
            r matches Ok(a) ==> a.wf() && a.size() == window_size && a.window() == Seq::<
                u64,
            >::empty(),
    {
        if window_size == 0 {
            Err(ConfigurationError::ZeroWindowSize)
        } else {
            Ok(Averager { window: Vec::new(), window_size })
        }
    }

    /// Appends `price` to the window; when the window is already full
    /// the oldest price leaves first, so insertion order (FIFO) and the
    /// size bound are both preserved. Cannot fail.
    pub fn add_price(&mut self, price: u64)
        requires
            old(self).wf(),
        ensures
            final(self).wf(),
            final(self).size() == old(self).size(),
            final(self).window() == push_evict(old(self).window(), old(self).size(), price),
    {
        if self.window.len() == self.window_size {
            self.window.remove(0);
            assert(self.window@ == old(self).window().subrange(1, old(self).window().len() as int));
        }
        self.window.push(price);
    }

    /// The arithmetic mean of the window contents, exactly, as the
    /// rational `sum / count`: present precisely when the window holds
    /// `size` prices, absent while the window is still filling.
    pub fn current_average(&self) -> (r: Option<Mean>)
        requires
            self.wf(),
        ensures
            r is Some <==> self.window().len() == self.size(),
            r matches Some(m) ==> m.sum == sum_seq(self.window()) && m.count as int == self.size(),
    {
        if self.window.len() < self.window_size {
            None
        } else {
            let mut total: u128 = 0;
            let mut i: usize = 0;
            while i < self.window.len()
                invariant
                    i <= self.window@.len(),
                    total == sum_seq(self.window@.take(i as int)),
                decreases self.window@.len() - i,
            {
                proof {
                    lemma_sum_seq_bounds(self.window@.take(i as int));
                    assert((i as int) * (u64::MAX as int) + (u64::MAX as int) == (i as int + 1) * (
                    u64::MAX as int)) by (nonlinear_arith);
                    assert((i as int + 1) * (u64::MAX as int) <= 0x10000000000000000 * (
                    u64::MAX as int)) by (nonlinear_arith)
                        requires
                            i as int + 1 <= 0x10000000000000000,
                    ;
                    assert(self.window@.take(i + 1 as int).drop_last() =~= self.window@.take(
                        i as int,
                    ));
                }
                total = total + (self.window[i] as u128);
                i = i + 1;
            }
            proof {
                assert(self.window@.take(self.window@.len() as int) =~= self.window@);
            }
            Some(Mean { sum: total, count: self.window_size })
        }
    }
}

/// `Up` exactly when the price strictly exceeds the mean `sum / count`;
/// a price equal to the mean is `Down`. Stated over integers:
/// `price > sum / count` iff `price * count > sum`.
pub fn derive_signal(price: u64, mean: &Mean) -> (s: Signal)
    requires
        mean.count >= 1,
    ensures
        (s == Signal::Up) <==> price * mean.count > mean.sum,
        (s == Signal::Down) <==> price * mean.count <= mean.sum,
{
    proof {
        assert((price as int) * (mean.count as int) <= (u64::MAX as int) * (u64::MAX as int))
            by (nonlinear_arith)
            requires
                0 <= price as int <= u64::MAX as int,
                0 <= mean.count as int <= u64::MAX as int,
        ;
    }
    let lhs: u128 = (price as u128) * (mean.count as u128);
    if lhs > mean.sum {
        Signal::Up
    } else {
        Signal::Down
    }
}

/// The signal of one output row: present exactly when the row has an
/// average, `Up` exactly when the row's price strictly exceeds it.
pub fn signal_of_point(p: &SmaPoint) -> (s: Option<Signal>)
    requires
        p.average matches Some(m) ==> m.count >= 1,
    ensures
        s is Some <==> p.average is Some,
        p.average matches Some(m) ==> (s == Some(Signal::Up) <==> p.price * m.count > m.sum),
{
    match &p.average {
        Some(m) => Some(derive_signal(p.price, m)),
        None => None,
    }
}

/// The prices of a series, in series order.
pub open spec fn prices_of(s: Seq<Observation>) -> Seq<u64> {
    s.map_values(|o: Observation| o.price)
}

/// The window contents after the first `n` of the prices `p` have been
/// fed in order: the most recent `size` of them, oldest first.
pub open spec fn window_model(p: Seq<u64>, size: int, n: int) -> Seq<u64> {
    p.subrange(if n >= size { n - size } else { 0 }, n)
}

/// A full window depends only on the last `size` prices fed: two feeds
/// agreeing on their last `size` prices leave the same window, hence
/// the same sum and the same average.
pub proof fn lemma_window_depends_on_suffix(p1: Seq<u64>, p2: Seq<u64>, size: int)
    requires
        1 <= size,
        size <= p1.len(),
        size <= p2.len(),
        p1.subrange(p1.len() - size, p1.len() as int) == p2.subrange(
            p2.len() - size,
            p2.len() as int,
        ),
    ensures
        window_model(p1, size, p1.len() as int) == window_model(p2, size, p2.len() as int),
        sum_seq(window_model(p1, size, p1.len() as int)) == sum_seq(
            window_model(p2, size, p2.len() as int),
        ),
{
}

/// The shape of a correct output table for feeding `series` through a
/// window of `size`: one point per observation, carrying its date and
/// price; an average present exactly from the `size`-th observation
/// on; a present average the exact mean of the last `size` prices fed
/// up to and including that observation.
pub open spec fn sma_points_ok(series: Seq<Observation>, points: Seq<SmaPoint>, size: int) -> bool {
    &&& points.len() == series.len()
    &&& forall|i: int|
        0 <= i < series.len() ==> (#[trigger] points[i]).date == series[i].date && points[i].price
            == series[i].price
    &&& forall|i: int|
        0 <= i < series.len() ==> ((#[trigger] points[i]).average is Some <==> i + 1 >= size)
    &&& forall|i: int|
        0 <= i < series.len() && i + 1 >= size ==> ((#[trigger] points[i]).average matches Some(m)
            && m.count == size && m.sum == sum_seq(prices_of(series).subrange(i + 1 - size, i + 1)))
}

/// Feeds a chronologically ordered series through one fresh averager,
/// one observation at a time, and collects one `SmaPoint` per
/// observation (see `sma_points_ok`). Points from the filling phase
/// are kept, with no average, so a caller can tell "still filling"
/// from "no data at all".
pub fn compute_sma(series: &Vec<Observation>, window_size: usize) -> (r: Result<
    Vec<SmaPoint>,
    ConfigurationError,
>)
    ensures
        r is Ok <==> window_size >= 1,
        window_size == 0 ==> r == Err::<Vec<SmaPoint>, ConfigurationError>(
            ConfigurationError::ZeroWindowSize,
        ),
        r matches Ok(points) ==> sma_points_ok(series@, points@, window_size as int),
{
    let mut avg = match Averager::new(window_size) {
        Ok(a) => a,
        Err(e) => { return Err(e); },
    };
    let mut points: Vec<SmaPoint> = Vec::new();
    let mut i: usize = 0;
    while i < series.len()
        invariant
            i <= series@.len(),
            avg.wf(),
            avg.size() == window_size as int,
            window_size >= 1,
            avg.window() == window_model(prices_of(series@), window_size as int, i as int),
            points@.len() == i,
            forall|k: int|
                0 <= k < i ==> (#[trigger] points@[k]).date == series@[k].date && points@[k].price
                    == series@[k].price,
            forall|k: int|
                0 <= k < i ==> ((#[trigger] points@[k]).average is Some <==> k + 1 >= window_size),
            forall|k: int|
                0 <= k < i && k + 1 >= window_size ==> ((#[trigger] points@[k]).average matches Some(
                    m,
                ) && m.count == window_size && m.sum == sum_seq(
                    prices_of(series@).subrange(k + 1 - window_size, k + 1),
                )),
        decreases series@.len() - i,
    {
        let obs = series[i];
        avg.add_price(obs.price);
        proof {
            let p = prices_of(series@);
            let w = window_size as int;
            assert(p[i as int] == obs.price);
            assert(push_evict(window_model(p, w, i as int), w, obs.price) =~= window_model(
                p,
                w,
                i + 1,
            ));
        }
        let m = avg.current_average();
        proof {
            let p = prices_of(series@);
            let w = window_size as int;
            assert(avg.window().len() == if i + 1 >= w {
                w
            } else {
                i + 1
            });
        }
        points.push(SmaPoint { date: obs.date, price: obs.price, average: m });
        i = i + 1;
    }
    Ok(points)
}

} // verus!
