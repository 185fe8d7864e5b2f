//! The answer to a query, from the samples of the metrics that it needs.

use crate::config::{Config, ExpressionMetricDef};
use crate::dict::{known, lemma_known, Dict};
use crate::expression::{expression_value, is_value_of};
use crate::frame::{
    frames_view, series_frames, table_frame, table_frame_of, timeseries_frames, Frame,
    GrafanaDataFrameMessage,
};
use crate::grafana::QueryPlan;
use crate::metric::{series_view, MetricData, Series};
use crate::order::{ascending, law_ascending_is_unique, lists};
use crate::table::{
    all_finite, get_tab_data, has_sample, is_row, is_tab, law_rows_are_listed, millis,
    ordered_times, row_times, sample_at, sample_seconds,
};
use crate::text::{distinct, law_distinct, lemma_occurrences, occurrences, texts};
use std::collections::BTreeMap;
use vstd::arithmetic::div_mod::lemma_fundamental_div_mod_converse;
use vstd::prelude::*;

verus! {

/// The samples of all series for a second, by name.
pub open spec fn row_of(data: Seq<Series>, second: u32) -> Map<Seq<char>, bool> {
    Map::new(
        |target: Seq<char>| sample_at(data, target, second) is Some,
        |target: Seq<char>| sample_at(data, target, second)->0,
    )
}

/// `datapoints` are values of an expression metric: for each of the seconds `count` of them.
pub open spec fn is_expression_series(
    datapoints: Seq<(i32, u64)>,
    def: ExpressionMetricDef,
    data: Seq<Series>,
    seconds: Seq<u32>,
    count: nat,
) -> bool
    decreases seconds.len(),
{
    if seconds.len() == 0 {
        datapoints.len() == 0
    } else {
        let rest = datapoints.len() - count;
        &&& rest >= 0
        &&& is_expression_series(datapoints.take(rest), def, data, seconds.drop_last(), count)
        &&& forall|j: int|
            rest <= j < datapoints.len() ==> (#[trigger] datapoints[j]).1 == millis(seconds.last())
                && is_value_of(def, row_of(data, seconds.last()), datapoints[j].0)
    }
}

/// The expression metrics that are answered for: those that are configured, each once, and none
/// where there are no samples.
pub open spec fn answered(
    wanted: Seq<Seq<char>>,
    metrics: Map<Seq<char>, ExpressionMetricDef>,
    data: Seq<Series>,
) -> Seq<Seq<char>> {
    if ascending(sample_seconds(data)).len() == 0 {
        Seq::empty()
    } else {
        distinct(known(wanted, metrics))
    }
}

/// `frames` answers for the wanted expression metrics: each has one frame, with a value for each
/// second for which there is a sample. A metric that is wanted several times has as many values.
pub open spec fn is_expression_answer(
    frames: Seq<Frame>,
    wanted: Seq<Seq<char>>,
    metrics: Map<Seq<char>, ExpressionMetricDef>,
    data: Seq<Series>,
) -> bool {
    let targets = answered(wanted, metrics, data);
    &&& frames.len() == targets.len()
    &&& forall|k: int|
        0 <= k < frames.len() ==> #[trigger] is_expression_frame(
            frames[k],
            targets[k],
            metrics[targets[k]],
            data,
            occurrences(wanted, targets[k]),
        )
}

/// The frame holds values of the metric for each second for which there is a sample.
pub open spec fn is_expression_frame(
    frame: Frame,
    target: Seq<char>,
    def: ExpressionMetricDef,
    data: Seq<Series>,
    count: nat,
) -> bool {
    frame matches Frame::Data { target: name, datapoints } && name == target
        && is_expression_series(datapoints, def, data, ascending(sample_seconds(data)), count)
}

/// How often each of the configured expression metrics is wanted.
fn count_wanted(wanted: &Vec<String>, metrics: &Dict<ExpressionMetricDef>) -> (r: Dict<usize>)
    ensures
        r.names() == distinct(known(texts(wanted@), metrics@)),
        forall|n: Seq<char>| #[trigger]
            r@.contains_key(n) ==> metrics@.contains_key(n) && 0 < r@[n] == occurrences(
                texts(wanted@),
                n,
            ),
{
    let ghost names = texts(wanted@);
    let mut counts: Dict<usize> = Dict::new();
    let mut i: usize = 0;
    proof {
        reveal(Seq::filter);
        assert(names.take(0) =~= Seq::empty());
    }
    while i < wanted.len()
        invariant
            i <= wanted.len(),
            names == texts(wanted@),
            counts.names() == distinct(known(names.take(i as int), metrics@)),
            forall|n: Seq<char>| #[trigger]
                counts@.contains_key(n) ==> metrics@.contains_key(n) && 0 < counts@[n] == occurrences(
                    names.take(i as int),
                    n,
                ),
            forall|n: Seq<char>|
                metrics@.contains_key(n) && !counts@.contains_key(n) ==> #[trigger] occurrences(
                    names.take(i as int),
                    n,
                ) == 0,
        decreases wanted.len() - i,
    {
        let name: &String = &wanted[i];
        let ghost less = names.take(i as int);
        let ghost more = names.take(i as int + 1);
        proof {
            reveal(Seq::filter);
            assert(more.drop_last() =~= less);
            assert(more.last() == name@);
            if metrics@.contains_key(name@) {
                assert(known(more, metrics@).drop_last() =~= known(less, metrics@));
            }
            use_type_invariant(&counts);
            counts.law_names();
            lemma_occurrences(less, name@);
        }
        if metrics.contains_key(name.as_str()) {
            let before: usize = match counts.get(name.as_str()) {
                Some(count) => *count,
                None => 0,
            };
            counts.insert(name.clone(), before + 1);
        }
        assert forall|n: Seq<char>|
            metrics@.contains_key(n) && !counts@.contains_key(n) implies #[trigger] occurrences(
            more,
            n,
        ) == 0 by {
            assert(occurrences(less, n) == 0);
        }
        i += 1;
    }
    assert(names.take(i as int) =~= names);
    counts
}

/// The values of an expression metric, `count` of them for each time.
fn expression_datapoints(
    def: &ExpressionMetricDef,
    tab: &BTreeMap<u64, Dict<bool>>,
    times: &Vec<u64>,
    count: usize,
    Ghost(data): Ghost<Seq<Series>>,
) -> (r: Vec<(i32, u64)>)
    requires
        is_tab(tab@, data),
        times@ == row_times(data),
        lists(ascending(sample_seconds(data)), sample_seconds(data)),
    ensures
        is_expression_series(
            r@,
            *def,
            data,
            ascending(sample_seconds(data)),
            count as nat,
        ),
{
    let ghost seconds = ascending(sample_seconds(data));
    let mut datapoints: Vec<(i32, u64)> = Vec::new();
    let mut i: usize = 0;
    while i < times.len()
        invariant
            i <= times.len(),
            is_tab(tab@, data),
            times@ == row_times(data),
            seconds == ascending(sample_seconds(data)),
            lists(seconds, sample_seconds(data)),
            is_expression_series(
                datapoints@,
                *def,
                data,
                seconds.take(i as int),
                count as nat,
            ),
        decreases times.len() - i,
    {
        let time: u64 = times[i];
        let ghost second = seconds[i as int];
        let ghost before = datapoints@;
        proof {
            assert(time == millis(second));
            assert(seconds.contains(second));
            assert(sample_seconds(data).contains(second));
            assert(tab@.contains_key(millis(second)));
        }
        let row: &Dict<bool> = tab.get(&time).unwrap();
        assert(row@ =~= row_of(data, second)) by {
            assert(is_row(row@, data, second));
            assert forall|t: Seq<char>|
                row@.contains_key(t) <==> #[trigger] row_of(data, second).contains_key(t) by {
                assert(row@.contains_key(t) || !row@.contains_key(t));
            }
        }
        let mut k: usize = 0;
        while k < count
            invariant
                k <= count,
                time == millis(second),
                row@ == row_of(data, second),
                datapoints.len() == before.len() + k,
                datapoints@.take(before.len() as int) == before,
                forall|j: int|
                    before.len() <= j < datapoints.len() ==> (#[trigger] datapoints[j]).1 == millis(
                        second,
                    ) && is_value_of(*def, row_of(data, second), datapoints[j].0),
            decreases count - k,
        {
            let ghost held = datapoints@;
            datapoints.push((expression_value(def, row), time));
            assert(datapoints@.take(before.len() as int) =~= held.take(before.len() as int));
            k += 1;
        }
        proof {
            let more = seconds.take(i as int + 1);
            assert(more.drop_last() =~= seconds.take(i as int));
            assert(more.last() == second);
        }
        i += 1;
    }
    assert(seconds.take(i as int) =~= seconds);
    datapoints
}

/// The values of the wanted expression metrics, over all samples.
pub fn expression_frames(
    wanted: &Vec<String>,
    metrics: &Dict<ExpressionMetricDef>,
    data: Vec<MetricData>,
) -> (r: Vec<GrafanaDataFrameMessage>)
    ensures
        is_expression_answer(frames_view(r@), texts(wanted@), metrics@, series_view(data@)),
{
    let ghost all = series_view(data@);
    let ghost names = texts(wanted@);
    let mut frames: Vec<GrafanaDataFrameMessage> = Vec::new();
    let tab: BTreeMap<u64, Dict<bool>> = get_tab_data(data);
    let times: Vec<u64> = ordered_times(&tab, Ghost(all));
    if times.len() == 0 {
        return frames;
    }
    let counts: Dict<usize> = count_wanted(wanted, metrics);
    let ghost targets = counts.names();
    let mut i: usize = 0;
    while i < counts.len()
        invariant
            targets == counts.names(),
            i <= targets.len(),
            frames.len() == i,
            is_tab(tab@, all),
            times@ == row_times(all),
            lists(ascending(sample_seconds(all)), sample_seconds(all)),
            forall|n: Seq<char>| #[trigger]
                counts@.contains_key(n) ==> metrics@.contains_key(n) && 0 < counts@[n] == occurrences(
                    names,
                    n,
                ),
            forall|k: int|
                0 <= k < i ==> #[trigger] is_expression_frame(
                    frames_view(frames@)[k],
                    targets[k],
                    metrics@[targets[k]],
                    all,
                    occurrences(names, targets[k]),
                ),
        decreases targets.len() - i,
    {
        let name: &String = counts.name_at(i);
        let count: usize = *counts.value_at(i);
        let def: &ExpressionMetricDef = metrics.get(name.as_str()).unwrap();
        let ghost before = frames_view(frames@);
        proof {
            lemma_occurrences(names, name@);
            use_type_invariant(&counts);
            counts.law_names();
        }
        let datapoints: Vec<(i32, u64)> = expression_datapoints(
            def,
            &tab,
            &times,
            count,
            Ghost(all),
        );
        frames.push(GrafanaDataFrameMessage::Data { target: name.clone(), datapoints });
        assert(frames_view(frames@) =~= before.push(frames@.last()@));
        i += 1;
    }
    frames
}

/// `frames` is the answer to a query: the values of expression metrics where one is wanted, else
/// one frame for each series, or one table where one is wanted.
pub open spec fn is_answer(
    frames: Seq<Frame>,
    plan: QueryPlan,
    config: Config,
    data: Seq<Series>,
) -> bool {
    if plan.expression_mode {
        is_expression_answer(
            frames,
            texts(plan.expression_metrics@),
            config.expr_metrics@,
            data,
        )
    } else if plan.table_mode {
        frames == seq![table_frame_of(data)]
    } else {
        frames == series_frames(data)
    }
}

/// The answer to a query, from the samples of the metrics that it needs.
pub fn respond(config: &Config, plan: &QueryPlan, data: Vec<MetricData>) -> (r: Vec<
    GrafanaDataFrameMessage,
>)
    ensures
        is_answer(frames_view(r@), *plan, *config, series_view(data@)),
{
    if plan.expression_mode {
        expression_frames(&plan.expression_metrics, &config.expr_metrics, data)
    } else if !plan.table_mode {
        timeseries_frames(&data)
    } else {
        let mut frames: Vec<GrafanaDataFrameMessage> = Vec::new();
        frames.push(table_frame(data));
        assert(frames_view(frames@) =~= seq![table_frame_of(series_view(data@))]);
        frames
    }
}

/// An expression metric that is wanted once has one value for each second with a sample, in the
/// order of time.
pub proof fn law_one_value_per_second(
    datapoints: Seq<(i32, u64)>,
    def: ExpressionMetricDef,
    data: Seq<Series>,
    seconds: Seq<u32>,
)
    requires
        is_expression_series(datapoints, def, data, seconds, 1),
    ensures
        datapoints.len() == seconds.len(),
        forall|i: int|
            0 <= i < datapoints.len() ==> (#[trigger] datapoints[i]).1 == millis(seconds[i])
                && is_value_of(def, row_of(data, seconds[i]), datapoints[i].0),
    decreases seconds.len(),
{
    if seconds.len() > 0 {
        let last = datapoints.len() - 1;
        law_one_value_per_second(datapoints.take(last), def, data, seconds.drop_last());
        assert forall|i: int| 0 <= i < datapoints.len() implies (#[trigger] datapoints[i]).1
            == millis(seconds[i]) && is_value_of(
            def,
            row_of(data, seconds[i]),
            datapoints[i].0,
        ) by {
            if i < last {
                assert(datapoints.take(last)[i] == datapoints[i]);
            }
        }
    }
}

/// Where there are samples, each wanted expression metric that is configured has exactly one
/// frame, and no other metric has one.
pub proof fn law_answered_once(
    wanted: Seq<Seq<char>>,
    metrics: Map<Seq<char>, ExpressionMetricDef>,
    data: Seq<Series>,
)
    requires
        all_finite(data),
        exists|second: u32| has_sample(data, second),
    ensures
        answered(wanted, metrics, data).no_duplicates(),
        forall|n: Seq<char>| #[trigger]
            answered(wanted, metrics, data).contains(n) <==> wanted.contains(n)
                && metrics.contains_key(n),
{
    let second = choose|second: u32| has_sample(data, second);
    law_rows_are_listed(data);
    assert(sample_seconds(data).contains(second));
    assert(ascending(sample_seconds(data)).contains(second));
    law_distinct(known(wanted, metrics));
    lemma_known(wanted, metrics);
    assert forall|n: Seq<char>| #[trigger] answered(wanted, metrics, data).contains(n)
        <==> wanted.contains(n) && metrics.contains_key(n) by {
        assert(distinct(known(wanted, metrics)).contains(n) <==> known(wanted, metrics).contains(
            n,
        ));
    }
}

/// Without samples there is nothing to show: no frame, or a table without rows.
pub proof fn law_no_samples(frames: Seq<Frame>, plan: QueryPlan, config: Config)
    requires
        is_answer(frames, plan, config, Seq::empty()),
    ensures
        plan.table_mode && !plan.expression_mode ==> frames.len() == 1 && frames[0]->rows.len()
            == 0,
        !plan.table_mode || plan.expression_mode ==> frames.len() == 0,
{
    let none = Seq::<Series>::empty();
    let list = Seq::<u32>::empty();
    assert(sample_seconds(none) =~= Set::empty());
    assert(lists(list, sample_seconds(none)));
    law_ascending_is_unique(list, sample_seconds(none));
}

/// The row of any second, the last one as well, binds each name to its sample for that second, and
/// no name that has none.
pub proof fn law_row_binds_the_samples(data: Seq<Series>, second: u32, name: Seq<char>)
    ensures
        row_of(data, second).contains_key(name) <==> sample_at(data, name, second) is Some,
        sample_at(data, name, second) matches Some(sample) ==> row_of(data, second)[name] == sample,
{
}

/// A metric that is wanted several times has as many values for each second, side by side, in the
/// order of time, each of them what the metric comes to at that second.
pub proof fn law_values_by_second(
    datapoints: Seq<(i32, u64)>,
    def: ExpressionMetricDef,
    data: Seq<Series>,
    seconds: Seq<u32>,
    count: nat,
    index: int,
)
    requires
        is_expression_series(datapoints, def, data, seconds, count),
        count > 0,
    ensures
        datapoints.len() == seconds.len() * count,
        0 <= index < datapoints.len() ==> 0 <= index / (count as int) < seconds.len()
            && datapoints[index].1 == seconds[index / (count as int)] * 1000 && is_value_of(
            def,
            row_of(data, seconds[index / (count as int)]),
            datapoints[index].0,
        ),
    decreases seconds.len(),
{
    let c = count as int;
    if seconds.len() == 0 {
        assert(seconds.len() * count == 0) by (nonlinear_arith)
            requires
                seconds.len() == 0,
        ;
    } else {
        let n = seconds.len() - 1;
        let rest = datapoints.len() - c;
        law_values_by_second(datapoints.take(rest), def, data, seconds.drop_last(), count, index);
        assert(rest == n * c);
        assert(seconds.len() * count == n * c + c) by (nonlinear_arith)
            requires
                seconds.len() == n + 1,
                c == count,
        ;
        if rest <= index < datapoints.len() {
            lemma_fundamental_div_mod_converse(index, c, n, index - rest);
            assert(datapoints[index].1 == millis(seconds.last()));
        } else if 0 <= index < rest {
            assert(datapoints.take(rest)[index] == datapoints[index]);
        }
    }
}

} // verus!
