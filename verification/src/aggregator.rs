//! Series reduction: high / low / current statistics.
//!
//! A series is a chronologically ordered `Vec` of price samples. The
//! aggregator parses each sample's price text; samples whose text the
//! grammar rejects are silently skipped when the high and the low are
//! folded, but the *last* sample is held to a stricter rule: if its
//! price does not parse, the whole aggregation fails with
//! [`AggregationError::UnparsablePrice`]. An empty series yields the
//! sentinel extremes and a current price of zero.

use vstd::prelude::*;
use vstd::utf8::encode_utf8;

use crate::price::{lemma_parse_price_range, parse_price, Price, PRICE_LIMIT};

verus! {

/// One sample as delivered by the market-data source: a decimal price
/// text and a millisecond timestamp.
#[derive(Clone, Debug)]
pub struct PriceSample {
    pub price_usd: String,
    pub time: u64,
}

impl PriceSample {
    /// The UTF-8 bytes of the sample's price text.
    pub open spec fn price_bytes(&self) -> Seq<u8> {
        encode_utf8(self.price_usd@)
    }

    /// The sample's price value, if the grammar admits its text.
    pub open spec fn value(&self) -> Option<int> {
        parse_price(self.price_bytes())
    }
}

/// The one failure the aggregator recognises: the most recent sample's
/// price text does not parse.
#[derive(Clone, Copy, Debug, PartialEq, Eq, Structural)]
pub enum AggregationError {
    UnparsablePrice,
}

/// The reduced summary of one asset's series.
#[derive(Clone, Debug)]
pub struct Statistics {
    pub name: String,
    pub high: Price,
    pub low: Price,
    pub current: Price,
}

/// The folded maximum of the parseable prices of `s`, starting from the
/// negative sentinel.
pub open spec fn spec_high(s: Seq<PriceSample>) -> int
    decreases s.len(),
{
    if s.len() == 0 {
        -PRICE_LIMIT
    } else {
        let prev = spec_high(s.drop_last());
        match s.last().value() {
            Some(v) => if v > prev {
                v
            } else {
                prev
            },
            None => prev,
        }
    }
}

/// The folded minimum of the parseable prices of `s`, starting from the
/// positive sentinel.
pub open spec fn spec_low(s: Seq<PriceSample>) -> int
    decreases s.len(),
{
    if s.len() == 0 {
        PRICE_LIMIT as int
    } else {
        let prev = spec_low(s.drop_last());
        match s.last().value() {
            Some(v) => if v < prev {
                v
            } else {
                prev
            },
            None => prev,
        }
    }
}

/// The current price of `s`: the parsed price of the last sample, zero
/// for an empty series, and `None` when the last sample does not parse.
pub open spec fn spec_current(s: Seq<PriceSample>) -> Option<int> {
    if s.len() == 0 {
        Some(0)
    } else {
        s.last().value()
    }
}

/// What a correct reduction of `series` under `name` looks like: the
/// three summary prices are exactly the folded spec values.
pub open spec fn statistics_match(series: Seq<PriceSample>, name: Seq<char>, st: Statistics) -> bool {
    &&& st.name@ == name
    &&& st.high.units == spec_high(series)
    &&& st.low.units == spec_low(series)
    &&& spec_current(series) == Some(st.current.units as int)
    &&& st.high.wf()
    &&& st.low.wf()
    &&& st.current.wf()
}

/// Reduce a series to its statistics.
///
/// Samples whose price text does not parse are skipped by the high/low
/// fold; a last sample whose price text does not parse is a hard error.
pub fn compute_statistics(series: &Vec<PriceSample>, name: &str) -> (r: Result<
    Statistics,
    AggregationError,
>)
    ensures
        r is Ok <==> spec_current(series@) is Some,
        r matches Ok(st) ==> statistics_match(series@, name@, st),
        r is Err ==> r == Err::<Statistics, AggregationError>(AggregationError::UnparsablePrice),
{
    let mut high: i128 = -PRICE_LIMIT;
    let mut low: i128 = PRICE_LIMIT;
    let mut idx: usize = 0;
    proof {
        assert(series@.take(0) =~= Seq::<PriceSample>::empty());
    }
    while idx < series.len()
        invariant
            0 <= idx <= series@.len(),
            high == spec_high(series@.take(idx as int)),
            low == spec_low(series@.take(idx as int)),
            -PRICE_LIMIT <= high <= PRICE_LIMIT,
            -PRICE_LIMIT <= low <= PRICE_LIMIT,
        decreases series@.len() - idx,
    {
        let sample = &series[idx];
        proof {
            assert(series@.take(idx + 1).drop_last() =~= series@.take(idx as int));
            assert(series@.take(idx + 1).last() == series@[idx as int]);
        }
        match Price::parse(sample.price_usd.as_str()) {
            Some(p) => {
                if p.units > high {
                    high = p.units;
                }
                if p.units < low {
                    low = p.units;
                }
            },
            None => {},
        }
        idx = idx + 1;
    }
    proof {
        assert(series@.take(series@.len() as int) =~= series@);
    }
    let current: i128 = if series.len() == 0 {
        0
    } else {
        let last = &series[series.len() - 1];
        proof {
            assert(series@.last() == series@[series@.len() - 1]);
        }
        match Price::parse(last.price_usd.as_str()) {
            Some(p) => p.units,
            None => {
                return Err(AggregationError::UnparsablePrice);
            },
        }
    };
    Ok(
        Statistics {
            name: name.to_owned(),
            high: Price { units: high },
            low: Price { units: low },
            current: Price { units: current },
        },
    )
}


/// If no sample of `s` parses, the folded high stays at the negative
/// sentinel and the folded low at the positive one.
pub proof fn lemma_all_unparsed_sentinels(s: Seq<PriceSample>)
    requires
        forall|i: int| 0 <= i < s.len() ==> (#[trigger] s[i].value()) is None,
    ensures
        spec_high(s) == -PRICE_LIMIT,
        spec_low(s) == PRICE_LIMIT,
    decreases s.len(),
{
    if s.len() > 0 {
        let dl = s.drop_last();
        assert(forall|i: int| 0 <= i < dl.len() ==> dl[i] == s[i]);
        lemma_all_unparsed_sentinels(dl);
        assert(s.last() == s[s.len() - 1]);
    }
}

/// The folded high is the maximum of the parseable prices: it bounds
/// every parseable sample from above, and some parseable sample attains
/// it whenever there is one.
pub proof fn lemma_high_is_max(s: Seq<PriceSample>)
    ensures
        forall|i: int|
            0 <= i < s.len() ==> ((#[trigger] s[i].value()) matches Some(v) ==> v <= spec_high(s)),
        (exists|i: int| 0 <= i < s.len() && (#[trigger] s[i].value()) is Some) ==> exists|i: int|
            0 <= i < s.len() && (#[trigger] s[i].value()) == Some(spec_high(s)),
    decreases s.len(),
{
    if s.len() > 0 {
        let dl = s.drop_last();
        let prev = spec_high(dl);
        assert(forall|i: int| 0 <= i < dl.len() ==> dl[i] == s[i]);
        assert(s.last() == s[s.len() - 1]);
        lemma_high_is_max(dl);
        match s.last().value() {
            Some(v) => {
                lemma_parse_price_range(s.last().price_bytes());
                if exists|i: int| 0 <= i < dl.len() && (#[trigger] dl[i].value()) is Some {
                    let j = choose|j: int| 0 <= j < dl.len() && (#[trigger] dl[j].value()) is Some;
                    assert(exists|i: int|
                        0 <= i < dl.len() && (#[trigger] dl[i].value()) == Some(prev));
                    let k = choose|k: int|
                        0 <= k < dl.len() && (#[trigger] dl[k].value()) == Some(prev);
                    if v > prev {
                        assert(s[s.len() - 1].value() == Some(spec_high(s)));
                    } else {
                        assert(s[k].value() == Some(spec_high(s)));
                    }
                } else {
                    lemma_all_unparsed_sentinels(dl);
                    assert(v > prev);
                    assert(s[s.len() - 1].value() == Some(spec_high(s)));
                }
            },
            None => {
                if exists|i: int| 0 <= i < s.len() && (#[trigger] s[i].value()) is Some {
                    let j = choose|j: int| 0 <= j < s.len() && (#[trigger] s[j].value()) is Some;
                    assert(j < dl.len());
                    assert(dl[j].value() is Some);
                    let k = choose|k: int|
                        0 <= k < dl.len() && (#[trigger] dl[k].value()) == Some(prev);
                    assert(s[k].value() == Some(spec_high(s)));
                }
            },
        }
    }
}

/// The folded low is the minimum of the parseable prices: it bounds
/// every parseable sample from below, and some parseable sample attains
/// it whenever there is one.
pub proof fn lemma_low_is_min(s: Seq<PriceSample>)
    ensures
        forall|i: int|
            0 <= i < s.len() ==> ((#[trigger] s[i].value()) matches Some(v) ==> spec_low(s) <= v),
        (exists|i: int| 0 <= i < s.len() && (#[trigger] s[i].value()) is Some) ==> exists|i: int|
            0 <= i < s.len() && (#[trigger] s[i].value()) == Some(spec_low(s)),
    decreases s.len(),
{
    if s.len() > 0 {
        let dl = s.drop_last();
        let prev = spec_low(dl);
        assert(forall|i: int| 0 <= i < dl.len() ==> dl[i] == s[i]);
        assert(s.last() == s[s.len() - 1]);
        lemma_low_is_min(dl);
        match s.last().value() {
            Some(v) => {
                lemma_parse_price_range(s.last().price_bytes());
                if exists|i: int| 0 <= i < dl.len() && (#[trigger] dl[i].value()) is Some {
                    let j = choose|j: int| 0 <= j < dl.len() && (#[trigger] dl[j].value()) is Some;
                    assert(exists|i: int|
                        0 <= i < dl.len() && (#[trigger] dl[i].value()) == Some(prev));
                    let k = choose|k: int|
                        0 <= k < dl.len() && (#[trigger] dl[k].value()) == Some(prev);
                    if v < prev {
                        assert(s[s.len() - 1].value() == Some(spec_low(s)));
                    } else {
                        assert(s[k].value() == Some(spec_low(s)));
                    }
                } else {
                    lemma_all_unparsed_sentinels(dl);
                    assert(v < prev);
                    assert(s[s.len() - 1].value() == Some(spec_low(s)));
                }
            },
            None => {
                if exists|i: int| 0 <= i < s.len() && (#[trigger] s[i].value()) is Some {
                    let j = choose|j: int| 0 <= j < s.len() && (#[trigger] s[j].value()) is Some;
                    assert(j < dl.len());
                    assert(dl[j].value() is Some);
                    let k = choose|k: int|
                        0 <= k < dl.len() && (#[trigger] dl[k].value()) == Some(prev);
                    assert(s[k].value() == Some(spec_low(s)));
                }
            },
        }
    }
}

/// For any series with at least one parseable price, the folded low
/// never exceeds the folded high.
pub proof fn lemma_low_le_high(s: Seq<PriceSample>)
    requires
        exists|i: int| 0 <= i < s.len() && (#[trigger] s[i].value()) is Some,
    ensures
        spec_low(s) <= spec_high(s),
{
    lemma_high_is_max(s);
    lemma_low_is_min(s);
    let i = choose|i: int| 0 <= i < s.len() && (#[trigger] s[i].value()) is Some;
    match s[i].value() {
        Some(v) => {
            assert(spec_low(s) <= v);
            assert(v <= spec_high(s));
        },
        None => {},
    }
}


/// Aggregation is deterministic: two statistics records that both
/// reduce the same series under the same name agree on every field.
pub proof fn lemma_statistics_deterministic(
    series: Seq<PriceSample>,
    name: Seq<char>,
    a: Statistics,
    b: Statistics,
)
    requires
        statistics_match(series, name, a),
        statistics_match(series, name, b),
    ensures
        a.name@ == b.name@,
        a.high == b.high,
        a.low == b.low,
        a.current == b.current,
{
}

} // verus!
