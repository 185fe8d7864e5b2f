//! A query from its request to its answer; Graphite is asked in between.

use crate::answer::{
    answered, is_answer, is_expression_frame, law_answered_once, law_one_value_per_second, respond,
};
use crate::clock::rfc3339_minute;
use crate::config::Config;
use crate::frame::{datapoint, frames_view, series_frame, Frame, GrafanaDataFrameMessage};
use crate::grafana::{
    expression_targets, is_expression_target, law_expression_needs, law_expression_targets,
    metrics_for_all, plan_query, target_texts, wants_table, GrafanaJsonQueryRequest,
    GrafanaTarget, QueryPlan,
};
use crate::graphite::{
    graphite_request, law_requested_once, params_view, query_params, requested_targets,
    GraphiteRequest,
};
use crate::metric::{
    collect_metrics, fulfils, law_configured_series_are_kept, law_last_sample_counts, series_of,
    GraphiteData, MetricData, Series,
};
use crate::order::{ascending, law_ascending_exists, lists};
use crate::table::{all_finite, has_sample, law_rows_are_listed, row_times, sample_seconds};
use crate::text::{lemma_occurrences, occurrences, texts};
use vstd::prelude::*;

verus! {

/// Plans a query, and says what Graphite is to be asked for.
pub fn begin_query(config: &Config, request: &GrafanaJsonQueryRequest) -> (r: (
    QueryPlan,
    GraphiteRequest,
))
    ensures
        r.0.is_plan_for(request.targets@, *config),
        r.1.url@ == config.datasource.url@ + "/render"@,
        params_view(r.1.params@) == query_params(
            requested_targets(
                metrics_for_all(target_texts(request.targets@), *config),
                config.bin_metrics@,
            ),
            rfc3339_minute(request.range.from@),
            rfc3339_minute(request.range.to@),
            request.max_data_points,
        ),
{
    let plan: QueryPlan = plan_query(config, &request.targets);
    let asked: GraphiteRequest = graphite_request(
        config,
        &plan.metrics,
        request.range.from.as_str(),
        request.range.to.as_str(),
        request.max_data_points,
    );
    (plan, asked)
}

/// The answer to a planned query, from what Graphite sent.
pub fn finish_query(config: &Config, plan: &QueryPlan, raw_data: &Vec<GraphiteData>) -> (r: Vec<
    GrafanaDataFrameMessage,
>)
    ensures
        is_answer(
            frames_view(r@),
            *plan,
            *config,
            series_of(raw_data@, config.bin_metrics@),
        ),
{
    let data: Vec<MetricData> = collect_metrics(&config.bin_metrics, raw_data);
    respond(config, plan, data)
}

/// Graphite is asked for each configured metric that an expression metric among the targets uses.
pub proof fn law_needed_samples_are_requested(
    targets: Seq<Seq<char>>,
    target: Seq<char>,
    metric: Seq<char>,
    config: Config,
)
    requires
        targets.contains(target),
        is_expression_target(target, config),
        texts(config.expr_metrics@[target].metrics@).contains(metric),
        config.bin_metrics@.contains_key(metric),
    ensures
        requested_targets(metrics_for_all(targets, config), config.bin_metrics@).contains(
            (metric, config.bin_metrics@[metric].raw.query@),
        ),
{
    law_expression_needs(targets, target, config);
    law_requested_once(metrics_for_all(targets, config), config.bin_metrics@);
}

/// What Graphite sends under the names that it was asked for is held against the thresholds; no
/// series is lost.
pub proof fn law_requested_series_are_kept(
    metric_names: Seq<Seq<char>>,
    raw_data: Seq<GraphiteData>,
    config: Config,
)
    requires
        forall|i: int|
            0 <= i < raw_data.len() ==> exists|k: int|
                0 <= k < requested_targets(metric_names, config.bin_metrics@).len() && (
                #[trigger] raw_data[i]).target@ == (#[trigger] requested_targets(
                    metric_names,
                    config.bin_metrics@,
                )[k]).0,
    ensures
        series_of(raw_data, config.bin_metrics@).len() == raw_data.len(),
        forall|i: int|
            0 <= i < raw_data.len() ==> (#[trigger] series_of(
                raw_data,
                config.bin_metrics@,
            )[i]).target == raw_data[i].target@,
{
    let asked = requested_targets(metric_names, config.bin_metrics@);
    law_requested_once(metric_names, config.bin_metrics@);
    assert forall|i: int| 0 <= i < raw_data.len() implies config.bin_metrics@.contains_key(
        (#[trigger] raw_data[i]).target@,
    ) by {
        let k = choose|k: int|
            0 <= k < asked.len() && raw_data[i].target@ == (#[trigger] asked[k]).0;
        assert(config.bin_metrics@.contains_key(asked[k].0));
    }
    law_configured_series_are_kept(raw_data, config.bin_metrics@);
}

/// A series shows whether the samples pass the threshold: where neither an expression metric nor
/// a table is wanted, the frame of a series has, for the last sample of a second, a one or a zero
/// at that second.
pub proof fn law_datapoint_tells_the_threshold(
    frames: Seq<Frame>,
    plan: QueryPlan,
    config: Config,
    raw_data: Seq<GraphiteData>,
    index: int,
    sample: int,
)
    requires
        is_answer(frames, plan, config, series_of(raw_data, config.bin_metrics@)),
        !plan.expression_mode,
        !plan.table_mode,
        forall|i: int|
            0 <= i < raw_data.len() ==> config.bin_metrics@.contains_key(
                (#[trigger] raw_data[i]).target@,
            ),
        0 <= index < raw_data.len(),
        0 <= sample < raw_data[index].datapoints@.len(),
        forall|j: int|
            sample < j < raw_data[index].datapoints@.len() ==> (
            #[trigger] raw_data[index].datapoints[j]).1 != raw_data[index].datapoints[sample].1,
    ensures
        frames.len() == raw_data.len(),
        frames[index] is Data,
        frames[index]->target == raw_data[index].target@,
        ({
            let raw = config.bin_metrics@[raw_data[index].target@].raw;
            let (value, second) = raw_data[index].datapoints[sample];
            frames[index]->datapoints.contains(
                datapoint((second, fulfils(raw.op, raw.threshold, value))),
            )
        }),
{
    let metrics = config.bin_metrics@;
    let raw = metrics[raw_data[index].target@].raw;
    let datapoints = raw_data[index].datapoints@;
    let second = datapoints[sample].1;
    let series = series_of(raw_data, metrics)[index];
    law_configured_series_are_kept(raw_data, metrics);
    law_last_sample_counts(raw.op, raw.threshold, datapoints);
    assert(series.target == raw_data[index].target@);
    assert(frames[index] == series_frame(series));
    law_ascending_exists(series.points.dom());
    assert(series.points.contains_key(second));
    assert(series.points.dom().contains(second));
    let seconds = ascending(series.points.dom());
    let i = seconds.index_of(second);
    assert(series_frame(series)->datapoints[i] == datapoint((second, series.points[second])));
}

/// Whether one of the targets is the name of an expression metric.
pub open spec fn wants_expression(targets: Seq<GrafanaTarget>, config: Config) -> bool {
    exists|n: Seq<char>| #[trigger]
        target_texts(targets).contains(n) && is_expression_target(n, config)
}

/// The answer is one table where a table and no expression metric is wanted; else it consists of
/// series.
pub proof fn law_shape_of_answer(
    frames: Seq<Frame>,
    plan: QueryPlan,
    config: Config,
    targets: Seq<GrafanaTarget>,
    data: Seq<Series>,
)
    requires
        plan.is_plan_for(targets, config),
        is_answer(frames, plan, config, data),
    ensures
        wants_table(targets) && !wants_expression(targets, config) ==> frames.len() == 1
            && frames[0] is Table,
        !wants_table(targets) || wants_expression(targets, config) ==> forall|k: int|
            0 <= k < frames.len() ==> #[trigger] frames[k] is Data,
{
    lemma_expression_mode(plan, targets, config);
    if plan.expression_mode {
        assert forall|k: int| 0 <= k < frames.len() implies #[trigger] frames[k] is Data by {
            lemma_expression_frame(frames, plan, config, data, k);
        }
    }
}

/// A plan is made for expression metrics if and only if one is wanted.
pub proof fn lemma_expression_mode(plan: QueryPlan, targets: Seq<GrafanaTarget>, config: Config)
    requires
        plan.is_plan_for(targets, config),
    ensures
        plan.expression_mode <==> wants_expression(targets, config),
{
    let names = target_texts(targets);
    let wanted = expression_targets(names, config);
    if wanted.len() > 0 {
        assert(wanted.contains(wanted[0]));
        law_expression_targets(names, wanted[0], config);
    }
    if wants_expression(targets, config) {
        let n = choose|n: Seq<char>| #[trigger]
            names.contains(n) && is_expression_target(n, config);
        law_expression_targets(names, n, config);
        assert(wanted.contains(n));
    }
}

/// A frame of an answer for expression metrics is that of one of them.
pub proof fn lemma_expression_frame(
    frames: Seq<Frame>,
    plan: QueryPlan,
    config: Config,
    data: Seq<Series>,
    index: int,
)
    requires
        is_answer(frames, plan, config, data),
        plan.expression_mode,
        0 <= index < frames.len(),
    ensures
        ({
            let wanted = texts(plan.expression_metrics@);
            let target = answered(wanted, config.expr_metrics@, data)[index];
            is_expression_frame(
                frames[index],
                target,
                config.expr_metrics@[target],
                data,
                occurrences(wanted, target),
            )
        }),
{
}

/// Where expression metrics are wanted and there are samples, the answer has a frame for each of
/// them, one for a name, and no other: binary metrics have none, though they be wanted as well.
/// Without samples the answer is empty.
pub proof fn law_frames_of_expressions(
    frames: Seq<Frame>,
    plan: QueryPlan,
    config: Config,
    targets: Seq<GrafanaTarget>,
    data: Seq<Series>,
)
    requires
        plan.is_plan_for(targets, config),
        is_answer(frames, plan, config, data),
        wants_expression(targets, config),
        all_finite(data),
    ensures
        (forall|second: u32| !has_sample(data, second)) ==> frames.len() == 0,
        forall|i: int, j: int|
            0 <= i < j < frames.len() ==> (#[trigger] frames[i])->target != (
            #[trigger] frames[j])->target,
        forall|k: int|
            0 <= k < frames.len() ==> target_texts(targets).contains(
                (#[trigger] frames[k])->target,
            ) && is_expression_target(frames[k]->target, config),
        forall|n: Seq<char>| #[trigger]
            target_texts(targets).contains(n) && is_expression_target(n, config) && (exists|
                second: u32,
            | has_sample(data, second)) ==> exists|k: int|
                0 <= k < frames.len() && (#[trigger] frames[k])->target == n,
{
    let names = target_texts(targets);
    let wanted = texts(plan.expression_metrics@);
    let metrics = config.expr_metrics@;
    let shown = answered(wanted, metrics, data);
    lemma_expression_mode(plan, targets, config);
    law_rows_are_listed(data);
    assert forall|k: int| 0 <= k < frames.len() implies (#[trigger] frames[k])->target
        == shown[k] by {
        lemma_expression_frame(frames, plan, config, data, k);
    }
    if forall|second: u32| !has_sample(data, second) {
        let seconds = ascending(sample_seconds(data));
        if seconds.len() > 0 {
            assert(seconds.contains(seconds[0]));
            assert(sample_seconds(data).contains(seconds[0]));
        }
    } else {
        law_answered_once(wanted, metrics, data);
        assert forall|k: int| 0 <= k < frames.len() implies names.contains(
            (#[trigger] frames[k])->target,
        ) && is_expression_target(frames[k]->target, config) by {
            assert(shown.contains(shown[k]));
            law_expression_targets(names, shown[k], config);
        }
        assert forall|n: Seq<char>| #[trigger]
            names.contains(n) && is_expression_target(n, config) implies exists|k: int|
            0 <= k < frames.len() && (#[trigger] frames[k])->target == n by {
            law_expression_targets(names, n, config);
            assert(shown.contains(n));
            let k = shown.index_of(n);
            assert(frames[k]->target == n);
        }
    }
}

/// Where no target is given twice, each frame of an expression metric has one datapoint for each
/// second with a sample of whatever series, in the order of time: all frames have the same times.
pub proof fn law_frames_have_the_same_times(
    frames: Seq<Frame>,
    plan: QueryPlan,
    config: Config,
    targets: Seq<GrafanaTarget>,
    data: Seq<Series>,
    index: int,
)
    requires
        plan.is_plan_for(targets, config),
        is_answer(frames, plan, config, data),
        wants_expression(targets, config),
        all_finite(data),
        target_texts(targets).no_duplicates(),
        0 <= index < frames.len(),
    ensures
        frames[index] is Data,
        frames[index]->datapoints.len() == row_times(data).len(),
        forall|i: int|
            0 <= i < row_times(data).len() ==> (#[trigger] frames[index]->datapoints[i]).1
                == row_times(data)[i],
        forall|i: int, j: int|
            0 <= i < j < row_times(data).len() ==> row_times(data)[i] < row_times(data)[j],
        lists(ascending(sample_seconds(data)), sample_seconds(data)),
{
    let names = target_texts(targets);
    let wanted = texts(plan.expression_metrics@);
    let target = answered(wanted, config.expr_metrics@, data)[index];
    lemma_expression_mode(plan, targets, config);
    lemma_expression_frame(frames, plan, config, data, index);
    law_rows_are_listed(data);
    let seconds = ascending(sample_seconds(data));
    assert(seconds.len() > 0);
    assert(seconds.contains(seconds[0]));
    assert(sample_seconds(data).contains(seconds[0]));
    law_answered_once(wanted, config.expr_metrics@, data);
    assert(answered(wanted, config.expr_metrics@, data).contains(target));
    law_expression_targets(names, target, config);
    lemma_occurrences(names, target);
    law_one_value_per_second(
        frames[index]->datapoints,
        config.expr_metrics@[target],
        data,
        seconds,
    );
}

} // verus!
