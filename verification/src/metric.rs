//! Series of samples, and how they are held against the thresholds of their metrics.

use crate::config::{BinaryMetricDef, BinaryMetricRawDef, CmpType};
use crate::dict::Dict;
use crate::float::{is_nan, law_trichotomy, Float};
use crate::order::{ascending, law_ascending_exists, law_ascending_is_unique, lists};
use std::collections::BTreeMap;
use vstd::prelude::*;
use vstd::std_specs::cmp::OrdSpec;
use vstd::std_specs::iter::IteratorSpec;

verus! {

/// Whether a sample passes a threshold. A missing sample passes none.
pub open spec fn fulfils(op: CmpType, threshold: Float, sample: Option<Float>) -> bool {
    match (sample, op) {
        (None, _) => false,
        (Some(x), CmpType::Lt) => x.below(threshold),
        (Some(x), CmpType::Gt) => threshold.below(x),
        (Some(x), CmpType::Eq) => x.same(threshold),
    }
}

/// Whether a sample passes the threshold of a metric.
pub fn is_fulfilled(def: &BinaryMetricRawDef, sample: Option<Float>) -> (r: bool)
    ensures
        r == fulfils(def.op, def.threshold, sample),
{
    match sample {
        None => false,
        Some(x) => match def.op {
            CmpType::Lt => x.lt(def.threshold),
            CmpType::Gt => x.gt(def.threshold),
            CmpType::Eq => x.number_eq(def.threshold),
        },
    }
}

/// Whether a metric is fulfilled, by the second.
pub type MetricPoints = BTreeMap<u32, bool>;

/// The samples of a binary metric.
pub struct MetricData {
    pub target: String,
    pub points: MetricPoints,
}

/// The samples of a binary metric, as a mathematical value.
#[verifier::ext_equal]
pub struct Series {
    pub target: Seq<char>,
    pub points: Map<u32, bool>,
}

impl View for MetricData {
    type V = Series;

    open spec fn view(&self) -> Series {
        Series { target: self.target@, points: self.points@ }
    }
}

/// The series that a list of data stands for.
pub open spec fn series_view(data: Seq<MetricData>) -> Seq<Series> {
    data.map_values(|d: MetricData| d@)
}

/// A series as Graphite sends it.
pub struct GraphiteData {
    pub target: String,
    pub datapoints: Vec<(Option<Float>, u32)>,
}

/// What the samples say of a metric by the second; of two samples for one second the later counts.
pub open spec fn points_of(
    op: CmpType,
    threshold: Float,
    datapoints: Seq<(Option<Float>, u32)>,
) -> Map<u32, bool>
    decreases datapoints.len(),
{
    if datapoints.len() == 0 {
        Map::empty()
    } else {
        points_of(op, threshold, datapoints.drop_last()).insert(
            datapoints.last().1,
            fulfils(op, threshold, datapoints.last().0),
        )
    }
}

/// The series of the configured metrics among those that Graphite sent, in its order.
pub open spec fn series_of(
    raw_data: Seq<GraphiteData>,
    metrics: Map<Seq<char>, BinaryMetricDef>,
) -> Seq<Series>
    decreases raw_data.len(),
{
    if raw_data.len() == 0 {
        Seq::empty()
    } else {
        let rest = series_of(raw_data.drop_last(), metrics);
        let last = raw_data.last();
        if metrics.contains_key(last.target@) {
            let raw = metrics[last.target@].raw;
            rest.push(
                Series {
                    target: last.target@,
                    points: points_of(raw.op, raw.threshold, last.datapoints@),
                },
            )
        } else {
            rest
        }
    }
}

/// What the samples of a metric say by the second.
fn metric_points(def: &BinaryMetricRawDef, datapoints: &Vec<(Option<Float>, u32)>) -> (r:
    MetricPoints)
    ensures
        r@ == points_of(def.op, def.threshold, datapoints@),
{
    let mut points: MetricPoints = BTreeMap::new();
    let mut i: usize = 0;
    assert(datapoints@.take(0) =~= Seq::empty());
    while i < datapoints.len()
        invariant
            i <= datapoints.len(),
            points@ == points_of(def.op, def.threshold, datapoints@.take(i as int)),
        decreases datapoints.len() - i,
    {
        let (sample, second) = datapoints[i];
        points.insert(second, is_fulfilled(def, sample));
        assert(datapoints@.take(i as int + 1).drop_last() =~= datapoints@.take(i as int));
        i += 1;
    }
    assert(datapoints@.take(i as int) =~= datapoints@);
    points
}

/// Holds the samples that Graphite sent against the thresholds of their metrics. Series that
/// belong to no configured metric are left out.
pub fn collect_metrics(bin_metrics: &Dict<BinaryMetricDef>, raw_data: &Vec<GraphiteData>) -> (r: Vec<
    MetricData,
>)
    ensures
        series_view(r@) == series_of(raw_data@, bin_metrics@),
{
    let mut result: Vec<MetricData> = Vec::new();
    let mut i: usize = 0;
    assert(raw_data@.take(0) =~= Seq::empty());
    assert(series_view(result@) =~= Seq::empty());
    while i < raw_data.len()
        invariant
            i <= raw_data.len(),
            series_view(result@) == series_of(raw_data@.take(i as int), bin_metrics@),
        decreases raw_data.len() - i,
    {
        let element: &GraphiteData = &raw_data[i];
        let ghost before = result@;
        assert(raw_data@.take(i as int + 1).drop_last() =~= raw_data@.take(i as int));
        match bin_metrics.get(element.target.as_str()) {
            Some(metric) => {
                result.push(
                    MetricData {
                        target: element.target.clone(),
                        points: metric_points(&metric.raw, &element.datapoints),
                    },
                );
                assert(series_view(result@) =~= series_view(before).push(result@.last()@));
            },
            None => {},
        }
        i += 1;
    }
    assert(raw_data@.take(i as int) =~= raw_data@);
    result
}

/// The points in ascending order of their seconds.
pub open spec fn point_list(points: Map<u32, bool>) -> Seq<(u32, bool)> {
    ascending(points.dom()).map_values(|second: u32| (second, points[second]))
}

/// The points in ascending order of their seconds.
pub fn ordered_points(points: &MetricPoints) -> (r: Vec<(u32, bool)>)
    ensures
        lists(ascending(points@.dom()), points@.dom()),
        r@ == point_list(points@),
{
    let mut list: Vec<(u32, bool)> = Vec::new();
    let iter = points.iter();
    let ghost all = iter.remaining();
    let ghost seconds = all.map_values(|kv: (&u32, &bool)| *kv.0);
    assert forall|i: int, j: int| 0 <= i < j < all.len() implies *(#[trigger] all[i]).0 < *(
    #[trigger] all[j]).0 by {
        assert(seconds[i] == *all[i].0);
        assert(seconds[j] == *all[j].0);
        assert(seconds[i].cmp_spec(&seconds[j]) is Less);
    }
    for point in it: iter
        invariant
            it.seq() == all,
            list.len() == it.index(),
            forall|i: int| 0 <= i < list.len() ==> #[trigger] list[i] == (*all[i].0, *all[i].1),
    {
        list.push((*point.0, *point.1));
    }
    proof {
        let dom = points@.dom();
        assert forall|second: u32| #[trigger] dom.contains(second) <==> seconds.contains(second) by {
            if dom.contains(second) {
                assert(points@.contains_key(second));
                let i = all.index_of((&second, &points@[second]));
                assert(seconds[i] == second);
            }
            if seconds.contains(second) {
                let i = seconds.index_of(second);
                assert(points@.contains_key(*all[i].0));
            }
        }
        assert(lists(seconds, dom));
        law_ascending_is_unique(seconds, dom);
        assert forall|i: int| 0 <= i < list.len() implies #[trigger] list@[i] == point_list(
            points@,
        )[i] by {
            assert(points@[*all[i].0] == *all[i].1);
        }
        assert(list@ =~= point_list(points@));
    }
    list
}

/// Neither a missing sample nor one that is not a number passes any threshold, and none passes a
/// threshold that is not a number.
pub proof fn law_no_number_passes_nothing(op: CmpType, threshold: Float, sample: Option<Float>)
    requires
        sample is None || is_nan(sample->0.bits) || is_nan(threshold.bits),
    ensures
        !fulfils(op, threshold, sample),
{
}

/// A number passes a threshold under exactly one of the three comparisons.
pub proof fn law_one_comparison_passes(threshold: Float, sample: Float)
    requires
        !is_nan(threshold.bits),
        !is_nan(sample.bits),
    ensures
        ({
            let lt = fulfils(CmpType::Lt, threshold, Some(sample));
            let gt = fulfils(CmpType::Gt, threshold, Some(sample));
            let eq = fulfils(CmpType::Eq, threshold, Some(sample));
            (lt && !gt && !eq) || (!lt && gt && !eq) || (!lt && !gt && eq)
        }),
{
    law_trichotomy(sample, threshold);
}

/// There is a point for each second for which there is a sample, and for no other; the last
/// sample for the second decides.
pub proof fn law_last_sample_counts(
    op: CmpType,
    threshold: Float,
    datapoints: Seq<(Option<Float>, u32)>,
)
    ensures
        points_of(op, threshold, datapoints).dom().finite(),
        forall|second: u32| #[trigger]
            points_of(op, threshold, datapoints).contains_key(second) <==> exists|i: int|
                0 <= i < datapoints.len() && (#[trigger] datapoints[i]).1 == second,
        forall|i: int|
            0 <= i < datapoints.len() && (forall|j: int|
                i < j < datapoints.len() ==> (#[trigger] datapoints[j]).1 != datapoints[i].1)
                ==> points_of(op, threshold, datapoints)[(#[trigger] datapoints[i]).1] == fulfils(
                op,
                threshold,
                datapoints[i].0,
            ),
    decreases datapoints.len(),
{
    if datapoints.len() > 0 {
        let rest = datapoints.drop_last();
        let last = datapoints.len() - 1;
        let points = points_of(op, threshold, datapoints);
        law_last_sample_counts(op, threshold, rest);
        assert forall|second: u32| #[trigger] points.contains_key(second) <==> exists|i: int|
            0 <= i < datapoints.len() && (#[trigger] datapoints[i]).1 == second by {
            assert(datapoints[last].1 == datapoints.last().1);
            if points_of(op, threshold, rest).contains_key(second) {
                let i = choose|i: int| 0 <= i < rest.len() && (#[trigger] rest[i]).1 == second;
                assert(datapoints[i].1 == second);
            }
            if exists|i: int| 0 <= i < datapoints.len() && (#[trigger] datapoints[i]).1 == second {
                let i = choose|i: int|
                    0 <= i < datapoints.len() && (#[trigger] datapoints[i]).1 == second;
                if i < last {
                    assert(rest[i].1 == second);
                }
            }
        }
        assert forall|i: int|
            0 <= i < datapoints.len() && (forall|j: int|
                i < j < datapoints.len() ==> (#[trigger] datapoints[j]).1 != datapoints[i].1)
            implies points[(#[trigger] datapoints[i]).1] == fulfils(
            op,
            threshold,
            datapoints[i].0,
        ) by {
            if i < last {
                assert(datapoints[last].1 != datapoints[i].1);
                assert(rest[i] == datapoints[i]);
                assert forall|j: int| i < j < rest.len() implies (#[trigger] rest[j]).1 != rest[i].1 by {
                    assert(datapoints[j].1 != datapoints[i].1);
                }
            }
        }
    }
}

/// Only configured metrics have series.
pub proof fn law_series_are_configured(
    raw_data: Seq<GraphiteData>,
    metrics: Map<Seq<char>, BinaryMetricDef>,
)
    ensures
        series_of(raw_data, metrics).len() <= raw_data.len(),
        forall|i: int|
            0 <= i < series_of(raw_data, metrics).len() ==> metrics.contains_key(
                (#[trigger] series_of(raw_data, metrics)[i]).target,
            ) && series_of(raw_data, metrics)[i].points.dom().finite(),
    decreases raw_data.len(),
{
    if raw_data.len() > 0 {
        law_series_are_configured(raw_data.drop_last(), metrics);
        let last = raw_data.last();
        if metrics.contains_key(last.target@) {
            law_last_sample_counts(
                metrics[last.target@].raw.op,
                metrics[last.target@].raw.threshold,
                last.datapoints@,
            );
        }
    }
}

/// Where Graphite sends series of configured metrics only, each of them is kept, in its place.
pub proof fn law_configured_series_are_kept(
    raw_data: Seq<GraphiteData>,
    metrics: Map<Seq<char>, BinaryMetricDef>,
)
    requires
        forall|i: int|
            0 <= i < raw_data.len() ==> metrics.contains_key((#[trigger] raw_data[i]).target@),
    ensures
        series_of(raw_data, metrics).len() == raw_data.len(),
        forall|i: int|
            0 <= i < raw_data.len() ==> (#[trigger] series_of(raw_data, metrics)[i]).target
                == raw_data[i].target@ && series_of(raw_data, metrics)[i].points == points_of(
                metrics[raw_data[i].target@].raw.op,
                metrics[raw_data[i].target@].raw.threshold,
                raw_data[i].datapoints@,
            ),
    decreases raw_data.len(),
{
    if raw_data.len() > 0 {
        let rest = raw_data.drop_last();
        assert(metrics.contains_key(raw_data[raw_data.len() - 1].target@));
        assert forall|i: int| 0 <= i < rest.len() implies metrics.contains_key(
            (#[trigger] rest[i]).target@,
        ) by {
            assert(rest[i] == raw_data[i]);
        }
        law_configured_series_are_kept(rest, metrics);
    }
}

/// A sample below a threshold is below each greater one, and a sample above a threshold is above
/// each lesser one.
pub proof fn law_thresholds_are_monotone(lesser: Float, greater: Float, sample: Option<Float>)
    requires
        lesser.below(greater),
    ensures
        fulfils(CmpType::Lt, lesser, sample) ==> fulfils(CmpType::Lt, greater, sample),
        fulfils(CmpType::Gt, greater, sample) ==> fulfils(CmpType::Gt, lesser, sample),
        fulfils(CmpType::Eq, lesser, sample) ==> fulfils(CmpType::Lt, greater, sample),
        fulfils(CmpType::Eq, greater, sample) ==> fulfils(CmpType::Gt, lesser, sample),
{
}

/// The places of the configured metrics among the series that Graphite sent.
pub open spec fn kept(raw_data: Seq<GraphiteData>, metrics: Map<Seq<char>, BinaryMetricDef>) -> Seq<
    int,
>
    decreases raw_data.len(),
{
    if raw_data.len() == 0 {
        Seq::empty()
    } else if metrics.contains_key(raw_data.last().target@) {
        kept(raw_data.drop_last(), metrics).push(raw_data.len() - 1)
    } else {
        kept(raw_data.drop_last(), metrics)
    }
}

/// Of what Graphite sent, the series of the configured metrics are kept, each of them, in their
/// order, under their names and with their own samples.
pub proof fn law_kept(raw_data: Seq<GraphiteData>, metrics: Map<Seq<char>, BinaryMetricDef>)
    ensures
        ({
            let at = kept(raw_data, metrics);
            let series = series_of(raw_data, metrics);
            &&& forall|i: int, j: int| 0 <= i < j < at.len() ==> at[i] < at[j]
            &&& forall|k: int| 0 <= k < at.len() ==> 0 <= #[trigger] at[k] < raw_data.len()
            &&& forall|i: int|
                0 <= i < raw_data.len() ==> (metrics.contains_key((#[trigger] raw_data[i]).target@)
                    <==> at.contains(i))
            &&& at.len() == series.len()
            &&& forall|k: int|
                0 <= k < at.len() ==> (#[trigger] series[k]).target == raw_data[at[k]].target@
                    && series[k].points == points_of(
                    metrics[raw_data[at[k]].target@].raw.op,
                    metrics[raw_data[at[k]].target@].raw.threshold,
                    raw_data[at[k]].datapoints@,
                )
        }),
    decreases raw_data.len(),
{
    if raw_data.len() > 0 {
        let rest = raw_data.drop_last();
        let at = kept(raw_data, metrics);
        let earlier = kept(rest, metrics);
        law_kept(rest, metrics);
        let last = raw_data.len() - 1;
        assert forall|i: int| 0 <= i < raw_data.len() implies (metrics.contains_key(
            (#[trigger] raw_data[i]).target@,
        ) <==> at.contains(i)) by {
            if i < last {
                assert(rest[i] == raw_data[i]);
                if earlier.contains(i) {
                    let k = earlier.index_of(i);
                    assert(at[k] == i);
                }
                if at.contains(i) {
                    let k = at.index_of(i);
                    assert(earlier[k] == i);
                }
            } else {
                if metrics.contains_key(raw_data[last].target@) {
                    assert(at[earlier.len() as int] == last);
                } else if at.contains(last) {
                    let k = at.index_of(last);
                    assert(earlier[k] == last);
                }
            }
        }
    }
}

/// The points of a list of samples are overlaid by those of a list that follows it.
pub proof fn law_points_are_overlaid(
    op: CmpType,
    threshold: Float,
    first: Seq<(Option<Float>, u32)>,
    second: Seq<(Option<Float>, u32)>,
)
    ensures
        points_of(op, threshold, first + second) == points_of(op, threshold, first).union_prefer_right(
            points_of(op, threshold, second),
        ),
    decreases second.len(),
{
    let both = first + second;
    let a = points_of(op, threshold, first);
    if second.len() == 0 {
        assert(both =~= first);
        assert(a.union_prefer_right(points_of(op, threshold, second)) =~= a);
    } else {
        let rest = second.drop_last();
        law_points_are_overlaid(op, threshold, first, rest);
        assert(both.drop_last() =~= first + rest);
        let b = points_of(op, threshold, rest);
        let (key, value) = (second.last().1, fulfils(op, threshold, second.last().0));
        assert(a.union_prefer_right(b).insert(key, value) =~= a.union_prefer_right(
            b.insert(key, value),
        ));
    }
}

/// What it is to pass a threshold: a sample that is there is below it, above it, or the same.
pub proof fn law_comparisons(threshold: Float, sample: Float)
    ensures
        fulfils(CmpType::Lt, threshold, Some(sample)) <==> sample.below(threshold),
        fulfils(CmpType::Gt, threshold, Some(sample)) <==> threshold.below(sample),
        fulfils(CmpType::Eq, threshold, Some(sample)) <==> sample.same(threshold),
        !fulfils(CmpType::Lt, threshold, None),
        !fulfils(CmpType::Gt, threshold, None),
        !fulfils(CmpType::Eq, threshold, None),
{
}

/// The list of points has each of them once, in ascending order of their seconds.
pub proof fn law_point_list(points: Map<u32, bool>)
    requires
        points.dom().finite(),
    ensures
        forall|i: int, j: int|
            0 <= i < j < point_list(points).len() ==> (#[trigger] point_list(points)[i]).0 < (
            #[trigger] point_list(points)[j]).0,
        forall|second: u32, fulfilled: bool| #[trigger]
            point_list(points).contains((second, fulfilled)) <==> points.contains_key(second)
                && points[second] == fulfilled,
{
    let dom = points.dom();
    let seconds = ascending(dom);
    let list = point_list(points);
    law_ascending_exists(dom);
    assert forall|second: u32, fulfilled: bool| #[trigger] list.contains((second, fulfilled))
        <==> points.contains_key(second) && points[second] == fulfilled by {
        if list.contains((second, fulfilled)) {
            let i = list.index_of((second, fulfilled));
            assert(seconds[i] == second);
            assert(seconds.contains(second));
            assert(dom.contains(second));
        }
        if points.contains_key(second) && points[second] == fulfilled {
            assert(dom.contains(second));
            let i = seconds.index_of(second);
            assert(list[i] == (second, fulfilled));
        }
    }
}

} // verus!
