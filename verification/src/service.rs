//! What the service promises of a query as a whole: what the request asks of Graphite, and what
//! the answer shows of Graphite's samples.

use crate::answer::{
    answered, is_answer, is_expression_series, law_row_binds_the_samples, law_values_by_second, row_of,
};
use crate::clock::{digits_between, law_graphite_text_is_written, rfc3339_minute};
use crate::config::{BinaryMetricDef, BinaryMetricRawDef, CmpType, Config, ExpressionMetricDef};
use crate::expression::{
    boolean_value, is_value_of, law_value_comes_from_evaluation, law_value_of_the_last_true,
    law_variables, machine_independent, may_evaluate_to, metric_values,
};
use crate::float::Float;
use crate::frame::{
    columns_view, datapoint, frames_view, law_datapoints_ascend, rows_view, series_frame,
    series_frames, table_frame_of, table_row, GrafanaDataFrameMessage, GrafanaTableColumnType,
    TableCell,
};
use crate::grafana::{
    is_expression_target, law_expression_target, law_expression_targets, law_needs_of_all,
    law_needs_of_one, law_with_prefix, metrics_for, metrics_for_all, target_texts, wants_table,
    with_prefix, GrafanaJsonQueryRequest, GrafanaJsonTargetType, GrafanaTarget, QueryPlan,
};
use crate::graphite::{
    law_head_of_params, law_number_of_params, law_requested_once, law_targets_are_aliased,
    params_view, query_params, requested_targets,
};
use crate::metric::{
    kept, law_kept, law_last_sample_counts, law_series_are_configured, points_of, series_of,
    series_view, GraphiteData, MetricData, Series,
};
use crate::order::{ascending, law_ascending_exists};
use crate::query::{
    law_frames_of_expressions, law_shape_of_answer, lemma_expression_frame, lemma_expression_mode,
    wants_expression,
};
use crate::table::{
    all_finite, has_sample, law_rows_are_listed, millis, sample_at, sample_seconds,
};
use crate::text::{law_occurrences, lemma_occurrences, number_of, texts};
use vstd::prelude::*;

verus! {

/// Whether a sample passes the threshold of a metric.
pub open spec fn passes(def: BinaryMetricRawDef, sample: Option<Float>) -> bool {
    match sample {
        None => false,
        Some(x) => match def.op {
            CmpType::Lt => x.below(def.threshold),
            CmpType::Gt => def.threshold.below(x),
            CmpType::Eq => x.same(def.threshold),
        },
    }
}

/// Whether a series has a sample for that second.
pub open spec fn has_second(data: GraphiteData, second: u32) -> bool {
    exists|j: int| 0 <= j < data.datapoints@.len() && (#[trigger] data.datapoints@[j]).1 == second
}

/// Whether a sample is the last one of its series for that second.
pub open spec fn is_last(data: GraphiteData, sample: int, second: u32) -> bool {
    &&& 0 <= sample < data.datapoints@.len()
    &&& data.datapoints@[sample].1 == second
    &&& forall|j: int|
        sample < j < data.datapoints@.len() ==> (#[trigger] data.datapoints@[j]).1 != second
}

/// Whether a sample decides for a name and a second: it is the last one for that second, in the
/// last series of that name that has one.
pub open spec fn decides(
    raw_data: Seq<GraphiteData>,
    name: Seq<char>,
    second: u32,
    index: int,
    sample: int,
) -> bool {
    &&& 0 <= index < raw_data.len()
    &&& raw_data[index].target@ == name
    &&& is_last(raw_data[index], sample, second)
    &&& forall|i: int|
        index < i < raw_data.len() && (#[trigger] raw_data[i]).target@ == name ==> !has_second(
            raw_data[i],
            second,
        )
}

/// Whether a configured metric has a sample for that second.
pub open spec fn is_sampled(raw_data: Seq<GraphiteData>, config: Config, second: u32) -> bool {
    exists|i: int|
        0 <= i < raw_data.len() && config.bin_metrics@.contains_key(
            (#[trigger] raw_data[i]).target@,
        ) && has_second(raw_data[i], second)
}

/// `at` are the places of the series of configured metrics, in their order.
pub open spec fn is_kept(
    at: Seq<int>,
    raw_data: Seq<GraphiteData>,
    config: Config,
) -> bool {
    &&& forall|i: int, j: int| 0 <= i < j < at.len() ==> at[i] < at[j]
    &&& forall|k: int| 0 <= k < at.len() ==> 0 <= #[trigger] at[k] < raw_data.len()
    &&& forall|i: int|
        0 <= i < raw_data.len() ==> (config.bin_metrics@.contains_key(
            (#[trigger] raw_data[i]).target@,
        ) <==> at.contains(i))
}

/// A series that has a sample for a second has a last one.
proof fn lemma_last_exists(data: GraphiteData, second: u32, upto: int) -> (sample: int)
    requires
        0 <= upto <= data.datapoints@.len(),
        exists|j: int| 0 <= j < upto && (#[trigger] data.datapoints@[j]).1 == second,
        forall|j: int|
            upto <= j < data.datapoints@.len() ==> (#[trigger] data.datapoints@[j]).1 != second,
    ensures
        is_last(data, sample, second),
    decreases upto,
{
    if data.datapoints@[upto - 1].1 == second {
        upto - 1
    } else {
        lemma_last_exists(data, second, upto - 1)
    }
}

/// The points of a series are those of its last samples.
proof fn lemma_points(data: GraphiteData, def: BinaryMetricRawDef, second: u32)
    ensures
        points_of(def.op, def.threshold, data.datapoints@).contains_key(second) <==> has_second(
            data,
            second,
        ),
        points_of(def.op, def.threshold, data.datapoints@).dom().finite(),
        forall|j: int| #[trigger]
            is_last(data, j, second) ==> points_of(
                def.op,
                def.threshold,
                data.datapoints@,
            )[second] == passes(def, data.datapoints@[j].0),
{
    law_last_sample_counts(def.op, def.threshold, data.datapoints@);
    assert forall|j: int| #[trigger] is_last(data, j, second) implies points_of(
        def.op,
        def.threshold,
        data.datapoints@,
    )[second] == passes(def, data.datapoints@[j].0) by {
        assert(data.datapoints@[j].1 == second);
    }
}

/// What decides for a name and a second is what the series show.
proof fn lemma_decided(
    raw_data: Seq<GraphiteData>,
    metrics: Map<Seq<char>, BinaryMetricDef>,
    name: Seq<char>,
    second: u32,
    index: int,
    sample: int,
)
    requires
        metrics.contains_key(name),
        decides(raw_data, name, second, index, sample),
    ensures
        sample_at(series_of(raw_data, metrics), name, second) == Some(
            passes(metrics[name].raw, raw_data[index].datapoints@[sample].0),
        ),
    decreases raw_data.len(),
{
    let rest = raw_data.drop_last();
    let last = raw_data[raw_data.len() - 1];
    let series = series_of(raw_data, metrics);
    let earlier = series_of(rest, metrics);
    if metrics.contains_key(last.target@) {
        assert(series.drop_last() =~= earlier);
        lemma_points(last, metrics[last.target@].raw, second);
    }
    if index == raw_data.len() - 1 {
        assert(last.datapoints@[sample].1 == second);
        assert(has_second(last, second));
    } else {
        assert(rest[index] == raw_data[index]);
        assert forall|i: int|
            index < i < rest.len() && (#[trigger] rest[i]).target@ == name implies !has_second(
            rest[i],
            second,
        ) by {
            assert(rest[i] == raw_data[i]);
        }
        lemma_decided(rest, metrics, name, second, index, sample);
    }
}

/// Where no series of a configured metric of that name has a sample for the second, none is shown.
proof fn lemma_undecided(
    raw_data: Seq<GraphiteData>,
    metrics: Map<Seq<char>, BinaryMetricDef>,
    name: Seq<char>,
    second: u32,
)
    requires
        !metrics.contains_key(name) || forall|i: int|
            0 <= i < raw_data.len() && (#[trigger] raw_data[i]).target@ == name ==> !has_second(
                raw_data[i],
                second,
            ),
    ensures
        sample_at(series_of(raw_data, metrics), name, second) is None,
    decreases raw_data.len(),
{
    if raw_data.len() > 0 {
        let rest = raw_data.drop_last();
        let last = raw_data[raw_data.len() - 1];
        if metrics.contains_key(last.target@) {
            assert(series_of(raw_data, metrics).drop_last() =~= series_of(rest, metrics));
            lemma_points(last, metrics[last.target@].raw, second);
        }
        if metrics.contains_key(name) {
            assert forall|i: int|
                0 <= i < rest.len() && (#[trigger] rest[i]).target@ == name implies !has_second(
                rest[i],
                second,
            ) by {
                assert(rest[i] == raw_data[i]);
            }
        }
        lemma_undecided(rest, metrics, name, second);
    }
}

/// Where a series of that name has a sample for the second, one decides.
proof fn lemma_decider(raw_data: Seq<GraphiteData>, name: Seq<char>, second: u32, upto: int) -> (r: (
    int,
    int,
))
    requires
        0 <= upto <= raw_data.len(),
        exists|i: int|
            0 <= i < upto && (#[trigger] raw_data[i]).target@ == name && has_second(
                raw_data[i],
                second,
            ),
        forall|i: int|
            upto <= i < raw_data.len() && (#[trigger] raw_data[i]).target@ == name ==> !has_second(
                raw_data[i],
                second,
            ),
    ensures
        decides(raw_data, name, second, r.0, r.1),
    decreases upto,
{
    let last = raw_data[upto - 1];
    if last.target@ == name && has_second(last, second) {
        let sample = lemma_last_exists(last, second, last.datapoints@.len() as int);
        (upto - 1, sample)
    } else {
        lemma_decider(raw_data, name, second, upto - 1)
    }
}

/// There is a row for a second if and only if a configured metric has a sample for it.
proof fn lemma_sampled(raw_data: Seq<GraphiteData>, config: Config, second: u32)
    ensures
        has_sample(series_of(raw_data, config.bin_metrics@), second) <==> is_sampled(
            raw_data,
            config,
            second,
        ),
{
    let metrics = config.bin_metrics@;
    let series = series_of(raw_data, metrics);
    let at = kept(raw_data, metrics);
    law_kept(raw_data, metrics);
    if has_sample(series, second) {
        let k = choose|k: int|
            0 <= k < series.len() && (#[trigger] series[k]).points.contains_key(second);
        let i = at[k];
        lemma_points(raw_data[i], metrics[raw_data[i].target@].raw, second);
        assert(at.contains(i));
        assert(metrics.contains_key(raw_data[i].target@));
    }
    if is_sampled(raw_data, config, second) {
        let i = choose|i: int|
            0 <= i < raw_data.len() && metrics.contains_key((#[trigger] raw_data[i]).target@)
                && has_second(raw_data[i], second);
        let k = at.index_of(i);
        assert(at.contains(i));
        lemma_points(raw_data[i], metrics[raw_data[i].target@].raw, second);
        assert(series[k].points.contains_key(second));
    }
}

/// Whether a target needs the samples of a metric: with a star at its end, if the metric is a
/// binary one that begins as the target does; by the name of a binary metric, if it is that one;
/// else by the name of an expression metric, if that one lists it.
pub open spec fn needs(target: Seq<char>, config: Config, name: Seq<char>) -> bool {
    if target.len() > 0 && target[target.len() - 1] == '*' {
        config.bin_metrics@.contains_key(name) && target.drop_last().is_prefix_of(name)
    } else if config.bin_metrics@.contains_key(target) {
        name == target
    } else {
        config.expr_metrics@.contains_key(target) && exists|i: int|
            0 <= i < config.expr_metrics@[target].metrics@.len() && (
            #[trigger] config.expr_metrics@[target].metrics@[i])@ == name
    }
}

/// Whether one of the targets needs the samples of a metric.
pub open spec fn is_needed(targets: Seq<GrafanaTarget>, config: Config, name: Seq<char>) -> bool {
    exists|i: int|
        0 <= i < targets.len() && needs((#[trigger] targets[i]).target@, config, name)
}

/// Whether an expression metric is wanted: a target has its name, which does not end in a star and
/// is not that of a binary metric.
pub open spec fn is_wanted(targets: Seq<GrafanaTarget>, config: Config, name: Seq<char>) -> bool {
    &&& exists|i: int| 0 <= i < targets.len() && (#[trigger] targets[i]).target@ == name
    &&& !(name.len() > 0 && name[name.len() - 1] == '*')
    &&& !config.bin_metrics@.contains_key(name)
    &&& config.expr_metrics@.contains_key(name)
}

/// Whether one of the targets is wanted as a table.
pub open spec fn asks_for_table(targets: Seq<GrafanaTarget>) -> bool {
    exists|i: int|
        0 <= i < targets.len() && (#[trigger] targets[i]).target_type
            == GrafanaJsonTargetType::Table
}

/// The names of the targets, in words of the targets themselves.
proof fn lemma_wanted(targets: Seq<GrafanaTarget>, config: Config, name: Seq<char>)
    ensures
        is_wanted(targets, config, name) <==> target_texts(targets).contains(name)
            && is_expression_target(name, config),
{
    let names = target_texts(targets);
    law_expression_target(name, config);
    if names.contains(name) {
        let i = names.index_of(name);
        assert(targets[i].target@ == name);
    }
    if is_wanted(targets, config, name) {
        let i = choose|i: int| 0 <= i < targets.len() && (#[trigger] targets[i]).target@ == name;
        assert(names[i] == name);
    }
}

/// Whether any expression metric is wanted.
proof fn lemma_wants(targets: Seq<GrafanaTarget>, config: Config)
    ensures
        wants_expression(targets, config) <==> exists|n: Seq<char>| #[trigger]
            is_wanted(targets, config, n),
{
    if wants_expression(targets, config) {
        let n = choose|n: Seq<char>| #[trigger]
            target_texts(targets).contains(n) && is_expression_target(n, config);
        lemma_wanted(targets, config, n);
    }
    if exists|n: Seq<char>| #[trigger] is_wanted(targets, config, n) {
        let n = choose|n: Seq<char>| #[trigger] is_wanted(targets, config, n);
        lemma_wanted(targets, config, n);
    }
}

/// What all targets need.
proof fn lemma_needed(targets: Seq<GrafanaTarget>, config: Config, name: Seq<char>)
    requires
        config.bin_metrics.wf(),
    ensures
        metrics_for_all(target_texts(targets), config).contains(name) <==> is_needed(
            targets,
            config,
            name,
        ),
{
    let names = target_texts(targets);
    law_needs_of_all(names, name, config);
    if metrics_for_all(names, config).contains(name) {
        let i = choose|i: int|
            0 <= i < names.len() && metrics_for(#[trigger] names[i], config).contains(name);
        law_needs_of_one(names[i], name, config);
        assert(needs(targets[i].target@, config, name));
    }
    if is_needed(targets, config, name) {
        let i = choose|i: int|
            0 <= i < targets.len() && needs((#[trigger] targets[i]).target@, config, name);
        law_needs_of_one(names[i], name, config);
    }
}

/// A plan lists a metric if and only if one of the targets needs it, and an expression metric if
/// and only if it is wanted; it is made for expression metrics where one is wanted, and for a
/// table where one is.
pub proof fn law_plan(plan: QueryPlan, targets: Seq<GrafanaTarget>, config: Config, name: Seq<char>)
    requires
        plan.is_plan_for(targets, config),
        config.bin_metrics.wf(),
    ensures
        (exists|k: int| 0 <= k < plan.metrics@.len() && (#[trigger] plan.metrics@[k])@ == name)
            <==> is_needed(targets, config, name),
        (exists|k: int|
            0 <= k < plan.expression_metrics@.len() && (#[trigger] plan.expression_metrics@[k])@
                == name) <==> is_wanted(targets, config, name),
        plan.expression_mode <==> exists|n: Seq<char>| #[trigger] is_wanted(targets, config, n),
        plan.table_mode <==> asks_for_table(targets),
{
    let names = target_texts(targets);
    lemma_needed(targets, config, name);
    lemma_wanted(targets, config, name);
    lemma_wants(targets, config);
    law_expression_targets(names, name, config);
    lemma_expression_mode(plan, targets, config);
    lemma_texts(plan.metrics@, name);
    lemma_texts(plan.expression_metrics@, name);
    if wants_table(targets) {
        let i = choose|i: int|
            0 <= i < targets.len() && (#[trigger] targets[i]).target_type
                == GrafanaJsonTargetType::Table;
        assert(targets[i].target_type == GrafanaJsonTargetType::Table);
    }
}

/// The texts of a list of strings are those of its strings.
proof fn lemma_texts(strings: Seq<String>, name: Seq<char>)
    ensures
        texts(strings).contains(name) <==> exists|k: int|
            0 <= k < strings.len() && (#[trigger] strings[k])@ == name,
{
    if texts(strings).contains(name) {
        let k = texts(strings).index_of(name);
        assert(strings[k]@ == name);
    }
    if exists|k: int| 0 <= k < strings.len() && (#[trigger] strings[k])@ == name {
        let k = choose|k: int| 0 <= k < strings.len() && (#[trigger] strings[k])@ == name;
        assert(texts(strings)[k] == name);
    }
}

/// The request asks Graphite for JSON, for the given number of points, for the given time range
/// with the digits of the request, where it is one, and for each configured metric that a target
/// needs, and no other, once, by its resolved query and under its name. The names are the result.
pub proof fn law_request(
    params: Seq<(String, String)>,
    request: GrafanaJsonQueryRequest,
    config: Config,
) -> (names: Seq<Seq<char>>)
    requires
        config.bin_metrics.wf(),
        params_view(params) == query_params(
            requested_targets(
                metrics_for_all(target_texts(request.targets@), config),
                config.bin_metrics@,
            ),
            rfc3339_minute(request.range.from@),
            rfc3339_minute(request.range.to@),
            request.max_data_points,
        ),
    ensures
        names.no_duplicates(),
        forall|n: Seq<char>| #[trigger]
            names.contains(n) <==> config.bin_metrics@.contains_key(n) && is_needed(
                request.targets@,
                config,
                n,
            ),
        ({
            let (from, to) = (request.range.from@, request.range.to@);
            let until: int = if rfc3339_minute(from) is Some {
                3
            } else {
                2
            };
            let head: int = if rfc3339_minute(to) is Some {
                until + 1
            } else {
                until
            };
            &&& params.len() == head + names.len()
            &&& params[0].0@ == "format"@ && params[0].1@ == "json"@
            &&& params[1].0@ == "maxDataPoints"@
            &&& number_of(params[1].1@) == request.max_data_points
            &&& digits_between(params[1].1@, 0, params[1].1@.len() as int)
            &&& rfc3339_minute(from) is Some ==> params[2].0@ == "from"@ && params[2].1@
                == from.subrange(11, 13) + seq![':'] + from.subrange(14, 16) + seq!['_']
                + from.subrange(0, 4) + from.subrange(5, 7) + from.subrange(8, 10)
            &&& rfc3339_minute(to) is Some ==> params[until].0@ == "until"@ && params[until].1@
                == to.subrange(11, 13) + seq![':'] + to.subrange(14, 16) + seq!['_']
                + to.subrange(0, 4) + to.subrange(5, 7) + to.subrange(8, 10)
            &&& forall|k: int|
                0 <= k < names.len() ==> params[head + k].0@ == "target"@ && params[head + k].1@
                    == "alias("@ + config.bin_metrics@[#[trigger] names[k]].raw.query@ + ",'"@
                    + names[k] + "')"@
        }),
{
    let metrics = config.bin_metrics@;
    let needed = metrics_for_all(target_texts(request.targets@), config);
    let targets = requested_targets(needed, metrics);
    let names = targets.map_values(|t: (Seq<char>, Seq<char>)| t.0);
    let (from, to) = (rfc3339_minute(request.range.from@), rfc3339_minute(request.range.to@));
    let all = query_params(targets, from, to, request.max_data_points);
    let head = all.len() - targets.len();
    law_requested_once(needed, metrics);
    law_number_of_params(targets, from, to, request.max_data_points);
    law_head_of_params(targets, from, to, request.max_data_points);
    match from {
        Some(t) => law_graphite_text_is_written(t, request.range.from@),
        None => {},
    }
    match to {
        Some(t) => law_graphite_text_is_written(t, request.range.to@),
        None => {},
    }
    assert forall|i: int| 0 <= i < params.len() implies (#[trigger] params[i]).0@ == all[i].0
        && params[i].1@ == all[i].1 by {
        assert(params_view(params)[i] == all[i]);
    }
    assert forall|n: Seq<char>| #[trigger] names.contains(n) <==> metrics.contains_key(n)
        && is_needed(request.targets@, config, n) by {
        lemma_needed(request.targets@, config, n);
        if names.contains(n) {
            let k = names.index_of(n);
            assert(targets[k].0 == n);
        }
        if metrics.contains_key(n) && needed.contains(n) {
            let k = targets.index_of((n, metrics[n].raw.query@));
            assert(names[k] == n);
        }
    }
    assert forall|i: int, j: int| 0 <= i < names.len() && 0 <= j < names.len() && i
        != j implies names[i] != names[j] by {
        assert(targets[i].0 == names[i] && targets[j].0 == names[j]);
    }
    assert forall|k: int| 0 <= k < names.len() implies params[head + k].0@ == "target"@ && params[
    head + k].1@ == "alias("@ + metrics[#[trigger] names[k]].raw.query@ + ",'"@ + names[k] + "')"@ by {
        law_targets_are_aliased(targets, from, to, request.max_data_points, k);
        assert(targets[k].0 == names[k]);
    }
    names
}

/// Whether a datapoint shows the last sample of a series for a second: a one where it passes the
/// threshold, and else a zero, at that second in milliseconds.
pub open spec fn is_point_of(
    point: (i32, u64),
    data: GraphiteData,
    def: BinaryMetricRawDef,
) -> bool {
    exists|j: int, second: u32| #[trigger]
        is_last(data, j, second) && point.1 == second * 1000 && point.0 == if passes(
            def,
            data.datapoints@[j].0,
        ) {
            1int
        } else {
            0
        }
}

/// Whether a frame shows a series: under its name, in the order of time, and for each second for
/// which there is a sample a one where the last of them passes the threshold, and else a zero.
pub open spec fn shows_series(
    frame: GrafanaDataFrameMessage,
    data: GraphiteData,
    def: BinaryMetricRawDef,
) -> bool {
    frame matches GrafanaDataFrameMessage::Data { target, datapoints } && {
        &&& target@ == data.target@
        &&& forall|i: int, j: int|
            0 <= i < j < datapoints@.len() ==> (#[trigger] datapoints@[i]).1 < (
            #[trigger] datapoints@[j]).1
        &&& forall|k: int|
            0 <= k < datapoints@.len() ==> is_point_of(#[trigger] datapoints@[k], data, def)
        &&& forall|j: int, second: u32| #[trigger]
            is_last(data, j, second) ==> exists|k: int|
                0 <= k < datapoints@.len() && (#[trigger] datapoints@[k]).1 == second * 1000
    }
}

/// The frame of a series shows it.
proof fn lemma_shows_series(
    frame: GrafanaDataFrameMessage,
    data: GraphiteData,
    def: BinaryMetricRawDef,
    series: Series,
)
    requires
        frame@ == series_frame(series),
        series.target == data.target@,
        series.points == points_of(def.op, def.threshold, data.datapoints@),
    ensures
        shows_series(frame, data, def),
{
    let datapoints = series_frame(series)->datapoints;
    let dom = series.points.dom();
    let seconds = ascending(dom);
    lemma_points(data, def, 0);
    law_ascending_exists(dom);
    law_datapoints_ascend(series);
    match frame {
        GrafanaDataFrameMessage::Data { target, datapoints: shown } => {
            assert(shown@ == datapoints);
            assert(target@ == data.target@);
            assert forall|i: int, j: int| 0 <= i < j < shown@.len() implies (#[trigger] shown@[i]).1
                < (#[trigger] shown@[j]).1 by {
                assert(series_frame(series)->datapoints[i] == shown@[i]);
                assert(series_frame(series)->datapoints[j] == shown@[j]);
            }
            assert forall|k: int| 0 <= k < shown@.len() implies is_point_of(
                #[trigger] shown@[k],
                data,
                def,
            ) by {
                let second = seconds[k];
                assert(shown@[k] == datapoint((second, series.points[second])));
                assert(seconds.contains(second));
                assert(dom.contains(second));
                lemma_points(data, def, second);
                let j = lemma_last_exists(data, second, data.datapoints@.len() as int);
                assert(is_last(data, j, second));
            }
            assert forall|j: int, second: u32| #[trigger] is_last(data, j, second) implies exists|
                k: int,
            | 0 <= k < shown@.len() && (#[trigger] shown@[k]).1 == second * 1000 by {
                assert(data.datapoints@[j].1 == second);
                assert(has_second(data, second));
                lemma_points(data, def, second);
                assert(dom.contains(second));
                let k = seconds.index_of(second);
                assert(shown@[k] == datapoint((second, series.points[second])));
            }
        },
        GrafanaDataFrameMessage::Table { .. } => {},
    }
}

/// Where neither a table nor an expression metric is wanted, the answer shows each series of a
/// configured metric that Graphite sent, in its order, and no other. Their places are the result.
pub proof fn law_series_answer(
    frames: Seq<GrafanaDataFrameMessage>,
    plan: QueryPlan,
    config: Config,
    targets: Seq<GrafanaTarget>,
    raw_data: Seq<GraphiteData>,
) -> (at: Seq<int>)
    requires
        plan.is_plan_for(targets, config),
        config.bin_metrics.wf(),
        is_answer(frames_view(frames), plan, config, series_of(raw_data, config.bin_metrics@)),
        !asks_for_table(targets),
        forall|n: Seq<char>| !#[trigger] is_wanted(targets, config, n),
    ensures
        is_kept(at, raw_data, config),
        frames.len() == at.len(),
        forall|k: int|
            0 <= k < at.len() ==> shows_series(
                #[trigger] frames[k],
                raw_data[at[k]],
                config.bin_metrics@[raw_data[at[k]].target@].raw,
            ),
{
    let metrics = config.bin_metrics@;
    let series = series_of(raw_data, metrics);
    let at = kept(raw_data, metrics);
    law_plan(plan, targets, config, Seq::empty());
    law_kept(raw_data, metrics);
    assert(frames_view(frames) == series_frames(series));
    assert(frames_view(frames).len() == frames.len());
    assert(series_frames(series).len() == series.len());
    assert forall|k: int| 0 <= k < at.len() implies shows_series(
        #[trigger] frames[k],
        raw_data[at[k]],
        metrics[raw_data[at[k]].target@].raw,
    ) by {
        assert(frames_view(frames)[k] == frames[k]@);
        assert(series_frames(series)[k] == series_frame(series[k]));
        lemma_shows_series(
            frames[k],
            raw_data[at[k]],
            metrics[raw_data[at[k]].target@].raw,
            series[k],
        );
    }
    at
}

/// Whether a cell holds the time, in milliseconds, of a second for which there is a sample.
pub open spec fn is_row_time(cell: TableCell, raw_data: Seq<GraphiteData>, config: Config) -> bool {
    exists|second: u32| #[trigger]
        is_sampled(raw_data, config, second) && cell is Time && cell->Time_0 == second * 1000
}

/// The series that Graphite sent, as far as they are kept, have finitely many points.
proof fn lemma_finite(raw_data: Seq<GraphiteData>, config: Config)
    ensures
        all_finite(series_of(raw_data, config.bin_metrics@)),
{
    law_series_are_configured(raw_data, config.bin_metrics@);
}

/// The seconds for which there is a sample, in ascending order.
proof fn lemma_seconds(raw_data: Seq<GraphiteData>, config: Config)
    ensures
        ({
            let seconds = ascending(sample_seconds(series_of(raw_data, config.bin_metrics@)));
            &&& forall|i: int, j: int| 0 <= i < j < seconds.len() ==> seconds[i] < seconds[j]
            &&& forall|second: u32| #[trigger]
                seconds.contains(second) <==> is_sampled(raw_data, config, second)
        }),
{
    let series = series_of(raw_data, config.bin_metrics@);
    let seconds = ascending(sample_seconds(series));
    lemma_finite(raw_data, config);
    law_rows_are_listed(series);
    assert forall|second: u32| #[trigger] seconds.contains(second) <==> is_sampled(
        raw_data,
        config,
        second,
    ) by {
        lemma_sampled(raw_data, config, second);
        assert(sample_seconds(series).contains(second) <==> has_sample(series, second));
    }
}

/// Where a table and no expression metric is wanted, the answer is one table. It has a column for
/// the time and one for each series of a configured metric that Graphite sent, and a row for each
/// second for which one of them has a sample, in the order of time. The places of the series are
/// the result.
pub proof fn law_table_answer(
    frames: Seq<GrafanaDataFrameMessage>,
    plan: QueryPlan,
    config: Config,
    targets: Seq<GrafanaTarget>,
    raw_data: Seq<GraphiteData>,
) -> (at: Seq<int>)
    requires
        plan.is_plan_for(targets, config),
        config.bin_metrics.wf(),
        is_answer(frames_view(frames), plan, config, series_of(raw_data, config.bin_metrics@)),
        asks_for_table(targets),
        forall|n: Seq<char>| !#[trigger] is_wanted(targets, config, n),
    ensures
        is_kept(at, raw_data, config),
        frames.len() == 1,
        frames[0] is Table,
        frames[0]->response_type@ == "table"@,
        frames[0]->columns@.len() == at.len() + 1,
        frames[0]->columns@[0].text@ == "time"@,
        frames[0]->columns@[0].column_type == GrafanaTableColumnType::Time,
        forall|c: int|
            1 <= c < frames[0]->columns@.len() ==> (#[trigger] frames[0]->columns@[c]).text@
                == raw_data[at[c - 1]].target@ && frames[0]->columns@[c].column_type
                == GrafanaTableColumnType::Number,
        forall|r: int|
            0 <= r < frames[0]->rows@.len() ==> (#[trigger] frames[0]->rows@[r])@.len() == at.len() + 1
                && is_row_time(frames[0]->rows@[r]@[0], raw_data, config),
        forall|second: u32| #[trigger]
            is_sampled(raw_data, config, second) ==> exists|r: int|
                0 <= r < frames[0]->rows@.len() && (#[trigger] frames[0]->rows@[r])@[0]->Time_0
                    == second * 1000,
        forall|q: int, r: int|
            0 <= q < r < frames[0]->rows@.len() ==> (#[trigger] frames[0]->rows@[q])@[0]->Time_0 < (
            #[trigger] frames[0]->rows@[r])@[0]->Time_0,
{
    let metrics = config.bin_metrics@;
    let series = series_of(raw_data, metrics);
    let seconds = ascending(sample_seconds(series));
    let at = kept(raw_data, metrics);
    let frame = table_frame_of(series);
    law_plan(plan, targets, config, Seq::empty());
    law_kept(raw_data, metrics);
    lemma_seconds(raw_data, config);
    assert(frames_view(frames) == seq![frame]);
    assert(frames_view(frames).len() == frames.len());
    assert(frames_view(frames)[0] == frames[0]@);
    assert(columns_view(frames[0]->columns@) == frame->columns);
    assert(rows_view(frames[0]->rows@) == frame->rows);
    let columns = frames[0]->columns@;
    let rows = frames[0]->rows@;
    assert(columns_view(columns).len() == columns.len());
    assert(rows_view(rows).len() == rows.len());
    assert(columns_view(columns)[0] == (columns[0].text@, columns[0].column_type));
    assert forall|c: int| 1 <= c < columns.len() implies (#[trigger] columns[c]).text@
        == raw_data[at[c - 1]].target@ && columns[c].column_type
        == GrafanaTableColumnType::Number by {
        assert(columns_view(columns)[c] == (columns[c].text@, columns[c].column_type));
        assert(series[c - 1].target == raw_data[at[c - 1]].target@);
    }
    assert forall|r: int| 0 <= r < rows.len() implies (#[trigger] rows[r])@ == table_row(
        series,
        seconds[r],
    ) by {
        assert(rows_view(rows)[r] == rows[r]@);
    }
    assert forall|r: int| 0 <= r < rows.len() implies (#[trigger] rows[r])@.len() == at.len() + 1
        && is_row_time(rows[r]@[0], raw_data, config) by {
        assert(seconds.contains(seconds[r]));
        assert(is_sampled(raw_data, config, seconds[r]));
    }
    assert forall|second: u32| #[trigger] is_sampled(raw_data, config, second) implies exists|
        r: int,
    | 0 <= r < rows.len() && (#[trigger] rows[r])@[0]->Time_0 == second * 1000 by {
        assert(seconds.contains(second));
        let r = seconds.index_of(second);
        assert(rows[r]@[0] == TableCell::Time(millis(second)));
    }
    assert forall|q: int, r: int| 0 <= q < r < rows.len() implies (
    #[trigger] rows[q])@[0]->Time_0 < (#[trigger] rows[r])@[0]->Time_0 by {
        assert(seconds[q] < seconds[r]);
    }
    at
}

/// A cell of a table shows what Graphite sent: in the row of a second, under the name of a series,
/// it says whether the last sample for that second, in the last series of that name that has one,
/// passes the threshold; and it says nothing where no series of that name has a sample for it.
pub proof fn law_table_cell(
    frames: Seq<GrafanaDataFrameMessage>,
    plan: QueryPlan,
    config: Config,
    targets: Seq<GrafanaTarget>,
    raw_data: Seq<GraphiteData>,
    row: int,
    column: int,
    second: u32,
)
    requires
        plan.is_plan_for(targets, config),
        config.bin_metrics.wf(),
        is_answer(frames_view(frames), plan, config, series_of(raw_data, config.bin_metrics@)),
        asks_for_table(targets),
        forall|n: Seq<char>| !#[trigger] is_wanted(targets, config, n),
        0 <= row < frames[0]->rows@.len(),
        1 <= column < frames[0]->columns@.len(),
        frames[0]->rows@[row]@[0]->Time_0 == second * 1000,
    ensures
        forall|i: int, j: int| #[trigger]
            decides(raw_data, frames[0]->columns@[column].text@, second, i, j)
                ==> frames[0]->rows@[row]@[column] == TableCell::Sample(
                Some(
                    passes(
                        config.bin_metrics@[frames[0]->columns@[column].text@].raw,
                        raw_data[i].datapoints@[j].0,
                    ),
                ),
            ),
        (forall|i: int|
            0 <= i < raw_data.len() && (#[trigger] raw_data[i]).target@
                == frames[0]->columns@[column].text@ ==> !has_second(raw_data[i], second))
            ==> frames[0]->rows@[row]@[column] == TableCell::Sample(None),
{
    let metrics = config.bin_metrics@;
    let series = series_of(raw_data, metrics);
    let seconds = ascending(sample_seconds(series));
    let at = law_table_answer(frames, plan, config, targets, raw_data);
    let name = frames[0]->columns@[column].text@;
    law_plan(plan, targets, config, Seq::empty());
    law_kept(raw_data, metrics);
    lemma_seconds(raw_data, config);
    let frame = table_frame_of(series);
    assert(frames_view(frames)[0] == frames[0]@);
    assert(rows_view(frames[0]->rows@) == frame->rows);
    assert(columns_view(frames[0]->columns@) == frame->columns);
    let rows = frames[0]->rows@;
    let columns = frames[0]->columns@;
    assert(rows_view(rows)[row] == rows[row]@);
    assert(rows[row]@ == table_row(series, seconds[row]));
    assert(rows[row]@[0] == TableCell::Time(millis(seconds[row])));
    assert(seconds[row] == second);
    assert(columns_view(columns)[column] == (columns[column].text@, columns[column].column_type));
    assert(series[column - 1].target == name);
    assert(rows[row]@[column] == TableCell::Sample(sample_at(series, name, second)));
    assert(at.contains(at[column - 1]));
    assert(raw_data[at[column - 1]].target@ == name);
    assert(metrics.contains_key(name));
    assert forall|i: int, j: int| #[trigger] decides(raw_data, name, second, i, j) implies rows[row]@[column]
        == TableCell::Sample(
        Some(passes(metrics[name].raw, raw_data[i].datapoints@[j].0)),
    ) by {
        lemma_decided(raw_data, metrics, name, second, i, j);
    }
    if forall|i: int|
        0 <= i < raw_data.len() && (#[trigger] raw_data[i]).target@ == name ==> !has_second(
            raw_data[i],
            second,
        ) {
        lemma_undecided(raw_data, metrics, name, second);
    }
}

/// Where an expression metric is wanted, the answer has a frame for each one that is, one for a
/// name, and no other; and none at all where no configured metric has a sample.
pub proof fn law_expression_answer(
    frames: Seq<GrafanaDataFrameMessage>,
    plan: QueryPlan,
    config: Config,
    targets: Seq<GrafanaTarget>,
    raw_data: Seq<GraphiteData>,
)
    requires
        plan.is_plan_for(targets, config),
        config.bin_metrics.wf(),
        is_answer(frames_view(frames), plan, config, series_of(raw_data, config.bin_metrics@)),
        exists|n: Seq<char>| #[trigger] is_wanted(targets, config, n),
    ensures
        forall|k: int|
            0 <= k < frames.len() ==> (#[trigger] frames[k]) is Data && is_wanted(
                targets,
                config,
                frames[k]->target@,
            ),
        forall|i: int, j: int|
            0 <= i < j < frames.len() ==> (#[trigger] frames[i])->target@ != (
            #[trigger] frames[j])->target@,
        (exists|second: u32| #[trigger] is_sampled(raw_data, config, second)) ==> forall|n: Seq<char>|
         #[trigger]
            is_wanted(targets, config, n) ==> exists|k: int|
                0 <= k < frames.len() && (#[trigger] frames[k])->target@ == n,
        (forall|second: u32| !#[trigger] is_sampled(raw_data, config, second)) ==> frames.len()
            == 0,
{
    let data = series_of(raw_data, config.bin_metrics@);
    let views = frames_view(frames);
    lemma_wants(targets, config);
    lemma_finite(raw_data, config);
    law_shape_of_answer(views, plan, config, targets, data);
    law_frames_of_expressions(views, plan, config, targets, data);
    assert(views.len() == frames.len());
    assert forall|k: int| 0 <= k < frames.len() implies (#[trigger] frames[k]) is Data && is_wanted(
        targets,
        config,
        frames[k]->target@,
    ) && views[k]->target == frames[k]->target@ by {
        assert(views[k] == frames[k]@);
        assert(views[k] is Data);
        lemma_wanted(targets, config, frames[k]->target@);
    }
    assert forall|i: int, j: int| 0 <= i < j < frames.len() implies (#[trigger] frames[i])->target@
        != (#[trigger] frames[j])->target@ by {
        assert(views[i]->target != views[j]->target);
    }
    if exists|second: u32| #[trigger] is_sampled(raw_data, config, second) {
        let second = choose|second: u32| #[trigger] is_sampled(raw_data, config, second);
        lemma_sampled(raw_data, config, second);
        assert(has_sample(data, second));
        assert forall|n: Seq<char>| #[trigger] is_wanted(targets, config, n) implies exists|k: int|
            0 <= k < frames.len() && (#[trigger] frames[k])->target@ == n by {
            lemma_wanted(targets, config, n);
            assert(target_texts(targets).contains(n));
            let k = choose|k: int| 0 <= k < views.len() && (#[trigger] views[k])->target == n;
            assert(frames[k]->target@ == n);
        }
    } else {
        assert forall|second: u32| !has_sample(data, second) by {
            lemma_sampled(raw_data, config, second);
        }
    }
}

/// What the frame of an expression metric is made of.
proof fn lemma_frame_of_expression(
    frames: Seq<GrafanaDataFrameMessage>,
    plan: QueryPlan,
    config: Config,
    targets: Seq<GrafanaTarget>,
    raw_data: Seq<GraphiteData>,
    frame: int,
)
    requires
        plan.is_plan_for(targets, config),
        config.bin_metrics.wf(),
        is_answer(frames_view(frames), plan, config, series_of(raw_data, config.bin_metrics@)),
        exists|n: Seq<char>| #[trigger] is_wanted(targets, config, n),
        0 <= frame < frames.len(),
    ensures
        frames[frame] is Data,
        targets.map_values(|t: GrafanaTarget| t.target@).to_multiset().count(
            frames[frame]->target@,
        ) > 0,
        is_expression_series(
            frames[frame]->datapoints@,
            config.expr_metrics@[frames[frame]->target@],
            series_of(raw_data, config.bin_metrics@),
            ascending(sample_seconds(series_of(raw_data, config.bin_metrics@))),
            targets.map_values(|t: GrafanaTarget| t.target@).to_multiset().count(
                frames[frame]->target@,
            ),
        ),
{
    let data = series_of(raw_data, config.bin_metrics@);
    let views = frames_view(frames);
    let wanted = texts(plan.expression_metrics@);
    let names = target_texts(targets);
    let target = answered(wanted, config.expr_metrics@, data)[frame];
    law_plan(plan, targets, config, Seq::empty());
    law_expression_answer(frames, plan, config, targets, raw_data);
    lemma_expression_frame(views, plan, config, data, frame);
    assert(views[frame] == frames[frame]@);
    assert(frames[frame]->target@ == target);
    lemma_wanted(targets, config, target);
    law_expression_targets(names, target, config);
    lemma_occurrences(names, target);
    law_occurrences(names, target);
    assert(names =~= targets.map_values(|t: GrafanaTarget| t.target@));
}

/// The frame of an expression metric has datapoints for each second for which a configured metric
/// has a sample, in the order of time: as many as there are targets of its name, side by side. The
/// seconds are the result.
pub proof fn law_times_of_expressions(
    frames: Seq<GrafanaDataFrameMessage>,
    plan: QueryPlan,
    config: Config,
    targets: Seq<GrafanaTarget>,
    raw_data: Seq<GraphiteData>,
    frame: int,
) -> (seconds: Seq<u32>)
    requires
        plan.is_plan_for(targets, config),
        config.bin_metrics.wf(),
        is_answer(frames_view(frames), plan, config, series_of(raw_data, config.bin_metrics@)),
        exists|n: Seq<char>| #[trigger] is_wanted(targets, config, n),
        0 <= frame < frames.len(),
    ensures
        forall|i: int, j: int| 0 <= i < j < seconds.len() ==> seconds[i] < seconds[j],
        forall|second: u32| #[trigger]
            seconds.contains(second) <==> is_sampled(raw_data, config, second),
        ({
            let count = targets.map_values(|t: GrafanaTarget| t.target@).to_multiset().count(
                frames[frame]->target@,
            );
            &&& count > 0
            &&& frames[frame]->datapoints@.len() == seconds.len() * count
            &&& forall|i: int|
                0 <= i < frames[frame]->datapoints@.len() ==> (
                #[trigger] frames[frame]->datapoints@[i]).1 == seconds[i / (count as int)] * 1000
        }),
{
    let data = series_of(raw_data, config.bin_metrics@);
    let seconds = ascending(sample_seconds(data));
    let count = targets.map_values(|t: GrafanaTarget| t.target@).to_multiset().count(
        frames[frame]->target@,
    );
    let def = config.expr_metrics@[frames[frame]->target@];
    lemma_seconds(raw_data, config);
    lemma_frame_of_expression(frames, plan, config, targets, raw_data, frame);
    let datapoints = frames[frame]->datapoints@;
    law_values_by_second(datapoints, def, data, seconds, count, 0);
    assert forall|i: int| 0 <= i < datapoints.len() implies (#[trigger] datapoints[i]).1 == seconds[i
        / (count as int)] * 1000 by {
        law_values_by_second(datapoints, def, data, seconds, count, i);
    }
    seconds
}

/// Whether a metric is fulfilled at a second: it is configured, and the sample that decides passes
/// its threshold.
pub open spec fn is_fulfilled_at(
    raw_data: Seq<GraphiteData>,
    config: Config,
    name: Seq<char>,
    second: u32,
) -> bool {
    config.bin_metrics@.contains_key(name) && exists|i: int, j: int| #[trigger]
        decides(raw_data, name, second, i, j) && passes(
            config.bin_metrics@[name].raw,
            raw_data[i].datapoints@[j].0,
        )
}

/// `variables` are those of the expressions of a metric at a second: each metric that it lists,
/// and no other name, and true where that one is fulfilled.
pub open spec fn are_variables_of(
    variables: Map<Seq<char>, bool>,
    def: ExpressionMetricDef,
    raw_data: Seq<GraphiteData>,
    config: Config,
    second: u32,
) -> bool {
    &&& forall|n: Seq<char>| #[trigger]
        variables.contains_key(n) <==> exists|i: int|
            0 <= i < def.metrics@.len() && (#[trigger] def.metrics@[i])@ == n
    &&& forall|n: Seq<char>| #[trigger]
        variables.contains_key(n) ==> (variables[n] <==> is_fulfilled_at(
            raw_data,
            config,
            n,
            second,
        ))
}

/// The variables of the expressions, and the value that comes of them.
proof fn lemma_value(
    frames: Seq<GrafanaDataFrameMessage>,
    plan: QueryPlan,
    config: Config,
    targets: Seq<GrafanaTarget>,
    raw_data: Seq<GraphiteData>,
    frame: int,
    point: int,
    second: u32,
    variables: Map<Seq<char>, bool>,
)
    requires
        plan.is_plan_for(targets, config),
        config.bin_metrics.wf(),
        is_answer(frames_view(frames), plan, config, series_of(raw_data, config.bin_metrics@)),
        exists|n: Seq<char>| #[trigger] is_wanted(targets, config, n),
        0 <= frame < frames.len(),
        0 <= point < frames[frame]->datapoints@.len(),
        frames[frame]->datapoints@[point].1 == second * 1000,
        are_variables_of(
            variables,
            config.expr_metrics@[frames[frame]->target@],
            raw_data,
            config,
            second,
        ),
    ensures
        ({
            let def = config.expr_metrics@[frames[frame]->target@];
            let row = row_of(series_of(raw_data, config.bin_metrics@), second);
            &&& is_value_of(def, row, frames[frame]->datapoints@[point].0)
            &&& metric_values(def.metrics@, row) == variables
        }),
{
    let metrics = config.bin_metrics@;
    let data = series_of(raw_data, metrics);
    let seconds = ascending(sample_seconds(data));
    let count = targets.map_values(|t: GrafanaTarget| t.target@).to_multiset().count(
        frames[frame]->target@,
    );
    let def = config.expr_metrics@[frames[frame]->target@];
    let row = row_of(data, second);
    lemma_frame_of_expression(frames, plan, config, targets, raw_data, frame);
    law_values_by_second(frames[frame]->datapoints@, def, data, seconds, count, point);
    assert(seconds[point / (count as int)] == second);
    assert forall|n: Seq<char>| #[trigger] variables.contains_key(n) implies variables[n] == (
    row.contains_key(n) && row[n]) by {
        law_row_binds_the_samples(data, second, n);
        if metrics.contains_key(n) && exists|i: int|
            0 <= i < raw_data.len() && (#[trigger] raw_data[i]).target@ == n && has_second(
                raw_data[i],
                second,
            ) {
            let (i, j) = lemma_decider(raw_data, n, second, raw_data.len() as int);
            lemma_decided(raw_data, metrics, n, second, i, j);
            if is_fulfilled_at(raw_data, config, n, second) {
                let (a, b) = choose|a: int, b: int| #[trigger]
                    decides(raw_data, n, second, a, b) && passes(
                        metrics[n].raw,
                        raw_data[a].datapoints@[b].0,
                    );
                lemma_decided(raw_data, metrics, n, second, a, b);
            }
        } else {
            lemma_undecided(raw_data, metrics, n, second);
            if is_fulfilled_at(raw_data, config, n, second) {
                let (a, b) = choose|a: int, b: int| #[trigger]
                    decides(raw_data, n, second, a, b) && passes(
                        metrics[n].raw,
                        raw_data[a].datapoints@[b].0,
                    );
                assert(raw_data[a].datapoints@[b].1 == second);
                assert(has_second(raw_data[a], second));
            }
        }
    }
    law_variables(def.metrics@, row, variables);
}

/// A datapoint of an expression metric comes from the evaluation of its expressions over whether
/// the listed metrics are fulfilled at that second: it is the weight of an expression that may be
/// true there, with none behind it that must be, or zero where none must be true. The place of the
/// expression is the result.
pub proof fn law_value_of_expressions(
    frames: Seq<GrafanaDataFrameMessage>,
    plan: QueryPlan,
    config: Config,
    targets: Seq<GrafanaTarget>,
    raw_data: Seq<GraphiteData>,
    frame: int,
    point: int,
    second: u32,
    variables: Map<Seq<char>, bool>,
) -> (index: int)
    requires
        plan.is_plan_for(targets, config),
        config.bin_metrics.wf(),
        is_answer(frames_view(frames), plan, config, series_of(raw_data, config.bin_metrics@)),
        exists|n: Seq<char>| #[trigger] is_wanted(targets, config, n),
        0 <= frame < frames.len(),
        0 <= point < frames[frame]->datapoints@.len(),
        frames[frame]->datapoints@[point].1 == second * 1000,
        are_variables_of(
            variables,
            config.expr_metrics@[frames[frame]->target@],
            raw_data,
            config,
            second,
        ),
    ensures
        ({
            let expressions = config.expr_metrics@[frames[frame]->target@].expressions@;
            &&& -1 <= index < expressions.len()
            &&& frames[frame]->datapoints@[point].0 == if index >= 0 {
                expressions[index].weight
            } else {
                0
            }
            &&& index >= 0 ==> may_evaluate_to(
                expressions[index].expression@,
                variables,
                Some(true),
            )
            &&& forall|j: int|
                index < j < expressions.len() ==> may_evaluate_to(
                    (#[trigger] expressions[j]).expression@,
                    variables,
                    Some(false),
                ) || may_evaluate_to(expressions[j].expression@, variables, None)
        }),
{
    let def = config.expr_metrics@[frames[frame]->target@];
    let row = row_of(series_of(raw_data, config.bin_metrics@), second);
    lemma_value(frames, plan, config, targets, raw_data, frame, point, second, variables);
    law_value_comes_from_evaluation(def, row, frames[frame]->datapoints@[point].0)
}

/// A datapoint of an expression metric is the weight of the last expression that is true over
/// whether the listed metrics are fulfilled at that second, and zero where none is; as far as the
/// expressions do not depend on the machine.
pub proof fn law_last_true_expression_is_shown(
    frames: Seq<GrafanaDataFrameMessage>,
    plan: QueryPlan,
    config: Config,
    targets: Seq<GrafanaTarget>,
    raw_data: Seq<GraphiteData>,
    frame: int,
    point: int,
    second: u32,
    variables: Map<Seq<char>, bool>,
    index: int,
)
    requires
        plan.is_plan_for(targets, config),
        config.bin_metrics.wf(),
        is_answer(frames_view(frames), plan, config, series_of(raw_data, config.bin_metrics@)),
        exists|n: Seq<char>| #[trigger] is_wanted(targets, config, n),
        0 <= frame < frames.len(),
        0 <= point < frames[frame]->datapoints@.len(),
        frames[frame]->datapoints@[point].1 == second * 1000,
        are_variables_of(
            variables,
            config.expr_metrics@[frames[frame]->target@],
            raw_data,
            config,
            second,
        ),
        ({
            let expressions = config.expr_metrics@[frames[frame]->target@].expressions@;
            &&& -1 <= index < expressions.len()
            &&& forall|j: int|
                0 <= j && index <= j < expressions.len() ==> machine_independent(
                    (#[trigger] expressions[j]).expression@,
                )
            &&& index >= 0 ==> boolean_value(expressions[index].expression@, variables) == Some(
                true,
            )
            &&& forall|j: int|
                index < j < expressions.len() ==> boolean_value(
                    (#[trigger] expressions[j]).expression@,
                    variables,
                ) != Some(true)
        }),
    ensures
        frames[frame]->datapoints@[point].0 == if index >= 0 {
            config.expr_metrics@[frames[frame]->target@].expressions@[index].weight
        } else {
            0
        },
{
    let def = config.expr_metrics@[frames[frame]->target@];
    let row = row_of(series_of(raw_data, config.bin_metrics@), second);
    lemma_value(frames, plan, config, targets, raw_data, frame, point, second, variables);
    law_value_of_the_last_true(def, row, frames[frame]->datapoints@[point].0, index);
}

/// A search offers a star, and behind it each binary metric that begins with the searched text, and
/// no other name, once.
pub proof fn law_search(offered: Seq<String>, config: Config, searched: Seq<char>)
    requires
        config.bin_metrics.wf(),
        texts(offered) == seq!["*"@] + with_prefix(config.bin_metrics.names(), searched),
    ensures
        offered.len() > 0,
        offered[0]@ == "*"@,
        forall|k: int|
            1 <= k < offered.len() ==> config.bin_metrics@.contains_key(
                (#[trigger] offered[k])@,
            ) && searched.is_prefix_of(offered[k]@),
        forall|n: Seq<char>| #[trigger]
            config.bin_metrics@.contains_key(n) && searched.is_prefix_of(n) ==> exists|k: int|
                1 <= k < offered.len() && (#[trigger] offered[k])@ == n,
        forall|i: int, j: int|
            1 <= i < j < offered.len() ==> (#[trigger] offered[i])@ != (#[trigger] offered[j])@,
{
    let names = config.bin_metrics.names();
    let found = with_prefix(names, searched);
    config.bin_metrics.law_names();
    law_with_prefix(names, searched);
    assert(texts(offered).len() == offered.len());
    assert(texts(offered)[0] == offered[0]@);
    assert forall|k: int| 1 <= k < offered.len() implies (#[trigger] offered[k])@ == found[k - 1]
        && config.bin_metrics@.contains_key(offered[k]@) && searched.is_prefix_of(
        offered[k]@,
    ) by {
        assert(texts(offered)[k] == offered[k]@);
        assert(found.contains(found[k - 1]));
        assert(names.contains(found[k - 1]));
    }
    assert forall|n: Seq<char>| #[trigger]
        config.bin_metrics@.contains_key(n) && searched.is_prefix_of(n) implies exists|k: int|
        1 <= k < offered.len() && (#[trigger] offered[k])@ == n by {
        assert(names.contains(n));
        assert(found.contains(n));
        let k = found.index_of(n);
        assert(texts(offered)[k + 1] == offered[k + 1]@);
    }
    assert forall|i: int, j: int| 1 <= i < j < offered.len() implies (#[trigger] offered[i])@ != (
    #[trigger] offered[j])@ by {
        assert(found[i - 1] != found[j - 1]);
    }
}

/// What is collected of Graphite's series: those of configured metrics, in their order, and for
/// each second for which one has a sample whether the last of them passes the threshold. Their
/// places are the result.
pub proof fn law_collected(
    data: Seq<MetricData>,
    raw_data: Seq<GraphiteData>,
    config: Config,
) -> (at: Seq<int>)
    requires
        series_view(data) == series_of(raw_data, config.bin_metrics@),
    ensures
        is_kept(at, raw_data, config),
        data.len() == at.len(),
        forall|k: int|
            0 <= k < data.len() ==> (#[trigger] data[k]).target@ == raw_data[at[k]].target@,
        forall|k: int, second: u32|
            0 <= k < data.len() ==> (#[trigger] data[k].points@.contains_key(second) <==> has_second(
                raw_data[at[k]],
                second,
            )),
        forall|k: int, j: int, second: u32|
            0 <= k < data.len() && #[trigger] is_last(raw_data[at[k]], j, second)
                ==> data[k].points@[second] == passes(
                config.bin_metrics@[raw_data[at[k]].target@].raw,
                raw_data[at[k]].datapoints@[j].0,
            ),
{
    let metrics = config.bin_metrics@;
    let series = series_of(raw_data, metrics);
    let at = kept(raw_data, metrics);
    law_kept(raw_data, metrics);
    assert(series_view(data).len() == data.len());
    assert forall|k: int| 0 <= k < data.len() implies (#[trigger] data[k]).target@
        == series[k].target && data[k].points@ == series[k].points by {
        assert(series_view(data)[k] == data[k]@);
    }
    assert forall|k: int, second: u32| 0 <= k < data.len() implies (
    #[trigger] data[k].points@.contains_key(second) <==> has_second(raw_data[at[k]], second)) by {
        lemma_points(raw_data[at[k]], metrics[raw_data[at[k]].target@].raw, second);
        assert(data[k].points@ == series[k].points);
    }
    assert forall|k: int, j: int, second: u32|
        0 <= k < data.len() && #[trigger] is_last(
            raw_data[at[k]],
            j,
            second,
        ) implies data[k].points@[second] == passes(
        metrics[raw_data[at[k]].target@].raw,
        raw_data[at[k]].datapoints@[j].0,
    ) by {
        lemma_points(raw_data[at[k]], metrics[raw_data[at[k]].target@].raw, second);
        assert(data[k].points@ == series[k].points);
    }
    at
}

} // verus!
