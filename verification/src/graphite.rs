//! What Graphite is asked for.

use crate::clock::{graphite_time, read_minute, rfc3339_minute, WallClock};
use crate::config::{BinaryMetricDef, Config};
use crate::dict::{known, lemma_known, Dict};
use crate::text::{
    decimal, decimal_string, distinct, law_decimal, law_distinct, number_of, texts,
};
use vstd::prelude::*;

verus! {

/// `query` under the name `alias`, in Graphite's notation.
pub open spec fn aliased(query: Seq<char>, alias: Seq<char>) -> Seq<char> {
    "alias("@ + query + ",'"@ + alias + "')"@
}

/// Asks Graphite to name the series of `query` after `alias`.
pub fn alias_graphite_query(query: &str, alias: &str) -> (r: String)
    ensures
        r@ == "alias("@ + query@ + ",'"@ + alias@ + "')"@,
        r@ == aliased(query@, alias@),
{
    "alias(".to_owned().concat(query).concat(",'").concat(alias).concat("')")
}

/// The query of each requested metric. Names of no configured metric are left out.
pub fn graphite_targets(bin_metrics: &Dict<BinaryMetricDef>, metric_names: &Vec<String>) -> (r: Dict<
    String,
>)
    ensures
        r.names() == distinct(known(texts(metric_names@), bin_metrics@)),
        forall|name: Seq<char>| #[trigger]
            r@.contains_key(name) <==> texts(metric_names@).contains(name)
                && bin_metrics@.contains_key(name),
        forall|name: Seq<char>| #[trigger]
            r@.contains_key(name) ==> r@[name]@ == bin_metrics@[name].raw.query@,
{
    let ghost names = texts(metric_names@);
    let mut targets: Dict<String> = Dict::new();
    let mut i: usize = 0;
    proof {
        reveal(Seq::filter);
    }
    while i < metric_names.len()
        invariant
            i <= metric_names.len(),
            names == texts(metric_names@),
            targets.names() == distinct(known(names.take(i as int), bin_metrics@)),
            forall|name: Seq<char>| #[trigger]
                targets@.contains_key(name) <==> names.take(i as int).contains(name)
                    && bin_metrics@.contains_key(name),
            forall|name: Seq<char>| #[trigger]
                targets@.contains_key(name) ==> targets@[name]@ == bin_metrics@[name].raw.query@,
        decreases metric_names.len() - i,
    {
        let name: &String = &metric_names[i];
        let ghost less = names.take(i as int);
        let ghost more = names.take(i as int + 1);
        proof {
            reveal(Seq::filter);
            assert(more.drop_last() =~= less);
            assert(more.last() == name@);
            assert(more =~= less.push(name@));
            if bin_metrics@.contains_key(name@) {
                assert(known(more, bin_metrics@).drop_last() =~= known(less, bin_metrics@));
            }
            use_type_invariant(&targets);
            targets.law_names();
        }
        match bin_metrics.get(name.as_str()) {
            Some(metric) => {
                targets.insert(name.clone(), metric.raw.query.clone());
            },
            None => {},
        }
        proof {
            assert forall|n: Seq<char>| #[trigger] more.contains(n) <==> less.contains(n) || n
                == name@ by {
                assert(more[i as int] == name@);
                if less.contains(n) {
                    let j = less.index_of(n);
                    assert(more[j] == n);
                }
            }
        }
        i += 1;
    }
    assert(names.take(i as int) =~= names);
    targets
}

/// The texts of a list of query parameters.
pub open spec fn params_view(params: Seq<(String, String)>) -> Seq<(Seq<char>, Seq<char>)> {
    params.map_values(|p: (String, String)| (p.0@, p.1@))
}

/// The parameter for a bound of the time range, where there is one.
pub open spec fn bound_param(key: Seq<char>, time: Option<WallClock>) -> Seq<
    (Seq<char>, Seq<char>),
> {
    match time {
        Some(t) => seq![(key, t.graphite_text())],
        None => Seq::empty(),
    }
}

/// The parameters for `targets`, given by name and query: each query under its name.
pub open spec fn target_params(targets: Seq<(Seq<char>, Seq<char>)>) -> Seq<
    (Seq<char>, Seq<char>),
> {
    targets.map_values(|t: (Seq<char>, Seq<char>)| ("target"@, aliased(t.1, t.0)))
}

/// The parameters of a query: the format, the number of points, the bounds, the targets.
pub open spec fn query_params(
    targets: Seq<(Seq<char>, Seq<char>)>,
    from: Option<WallClock>,
    to: Option<WallClock>,
    max_data_points: u16,
) -> Seq<(Seq<char>, Seq<char>)> {
    seq![("format"@, "json"@), ("maxDataPoints"@, decimal(max_data_points as nat))] + bound_param(
        "from"@,
        from,
    ) + bound_param("until"@, to) + target_params(targets)
}

/// The names and queries of a dictionary of targets.
pub open spec fn target_list(targets: Dict<String>) -> Seq<(Seq<char>, Seq<char>)> {
    targets.names().map_values(|n: Seq<char>| (n, targets@[n]@))
}

/// Adds the parameter for a bound of the time range, where there is one.
fn push_bound(params: &mut Vec<(String, String)>, key: &str, time: Option<WallClock>)
    requires
        time matches Some(t) ==> t.wf(),
    ensures
        params_view(final(params)@) == params_view(old(params)@) + bound_param(key@, time),
{
    match time {
        Some(t) => {
            params.push((key.to_owned(), graphite_time(t)));
        },
        None => {},
    }
    assert(params_view(params@) =~= params_view(old(params)@) + bound_param(key@, time));
}

/// The parameters of a query to Graphite.
pub fn graphite_query_params(
    targets: &Dict<String>,
    from: Option<WallClock>,
    to: Option<WallClock>,
    max_data_points: u16,
) -> (r: Vec<(String, String)>)
    requires
        from matches Some(t) ==> t.wf(),
        to matches Some(t) ==> t.wf(),
    ensures
        params_view(r@) == query_params(target_list(*targets), from, to, max_data_points),
{
    let mut params: Vec<(String, String)> = Vec::new();
    params.push(("format".to_owned(), "json".to_owned()));
    params.push(("maxDataPoints".to_owned(), decimal_string(max_data_points)));
    assert(params_view(params@) =~= seq![
        ("format"@, "json"@),
        ("maxDataPoints"@, decimal(max_data_points as nat)),
    ]);
    push_bound(&mut params, "from", from);
    push_bound(&mut params, "until", to);
    let ghost head = params_view(params@);
    let ghost list = target_list(*targets);
    let mut i: usize = 0;
    assert(params_view(params@) =~= head + target_params(list.take(0)));
    while i < targets.len()
        invariant
            list == target_list(*targets),
            i <= list.len(),
            params_view(params@) == head + target_params(list.take(i as int)),
        decreases list.len() - i,
    {
        let ghost before = params_view(params@);
        let query: String = alias_graphite_query(
            targets.value_at(i).as_str(),
            targets.name_at(i).as_str(),
        );
        params.push(("target".to_owned(), query));
        assert(params_view(params@) =~= before.push(("target"@, query@)));
        assert(target_params(list.take(i as int + 1)) =~= target_params(list.take(i as int)).push(
            ("target"@, query@),
        ));
        assert(params_view(params@) =~= head + target_params(list.take(i as int + 1)));
        i += 1;
    }
    assert(list.take(i as int) =~= list);
    params
}

/// Where to send a query, and with which parameters.
pub struct GraphiteRequest {
    pub url: String,
    pub params: Vec<(String, String)>,
}

/// The names and queries of the requested metrics that are configured, each once.
pub open spec fn requested_targets(
    metric_names: Seq<Seq<char>>,
    metrics: Map<Seq<char>, BinaryMetricDef>,
) -> Seq<(Seq<char>, Seq<char>)> {
    distinct(known(metric_names, metrics)).map_values(
        |n: Seq<char>| (n, metrics[n].raw.query@),
    )
}

/// The request for the samples of the metrics between two RFC 3339 times. A bound that is no such
/// time is left out.
pub fn graphite_request(
    config: &Config,
    metric_names: &Vec<String>,
    from: &str,
    to: &str,
    max_data_points: u16,
) -> (r: GraphiteRequest)
    ensures
        r.url@ == config.datasource.url@ + "/render"@,
        params_view(r.params@) == query_params(
            requested_targets(texts(metric_names@), config.bin_metrics@),
            rfc3339_minute(from@),
            rfc3339_minute(to@),
            max_data_points,
        ),
{
    let targets: Dict<String> = graphite_targets(&config.bin_metrics, metric_names);
    proof {
        use_type_invariant(&targets);
        targets.law_names();
        let list = target_list(targets);
        let wanted = requested_targets(texts(metric_names@), config.bin_metrics@);
        assert forall|i: int| 0 <= i < list.len() implies list[i] == wanted[i] by {
            assert(targets.names().contains(targets.names()[i]));
        }
        assert(list =~= wanted);
    }
    let params: Vec<(String, String)> = graphite_query_params(
        &targets,
        read_minute(from),
        read_minute(to),
        max_data_points,
    );
    GraphiteRequest { url: config.datasource.url.clone().concat("/render"), params }
}

/// Graphite is asked for configured metrics only, for each of the requested ones once, and for
/// each by its resolved query.
pub proof fn law_requested_once(
    metric_names: Seq<Seq<char>>,
    metrics: Map<Seq<char>, BinaryMetricDef>,
)
    ensures
        forall|i: int|
            0 <= i < requested_targets(metric_names, metrics).len() ==> {
                let target = #[trigger] requested_targets(metric_names, metrics)[i];
                metric_names.contains(target.0) && metrics.contains_key(target.0) && target.1
                    == metrics[target.0].raw.query@
            },
        forall|n: Seq<char>|
            metric_names.contains(n) && #[trigger] metrics.contains_key(n) ==> requested_targets(
                metric_names,
                metrics,
            ).contains((n, metrics[n].raw.query@)),
        forall|i: int, j: int|
            0 <= i < j < requested_targets(metric_names, metrics).len() ==> (
            #[trigger] requested_targets(metric_names, metrics)[i]).0 != (
            #[trigger] requested_targets(metric_names, metrics)[j]).0,
{
    let names = known(metric_names, metrics);
    let targets = requested_targets(metric_names, metrics);
    law_distinct(names);
    lemma_known(metric_names, metrics);
    assert forall|i: int| 0 <= i < targets.len() implies {
        let target = #[trigger] targets[i];
        metric_names.contains(target.0) && metrics.contains_key(target.0) && target.1
            == metrics[target.0].raw.query@
    } by {
        assert(distinct(names).contains(distinct(names)[i]));
        assert(names.contains(distinct(names)[i]));
    }
    assert forall|n: Seq<char>|
        metric_names.contains(n) && #[trigger] metrics.contains_key(n) implies targets.contains(
        (n, metrics[n].raw.query@),
    ) by {
        assert(names.contains(n));
        assert(distinct(names).contains(n));
        let k = distinct(names).index_of(n);
        assert(targets[k] == (n, metrics[n].raw.query@));
    }
}

/// A query has a fixed head of two parameters, one for each bound that is given, and one for each
/// target.
pub proof fn law_number_of_params(
    targets: Seq<(Seq<char>, Seq<char>)>,
    from: Option<WallClock>,
    to: Option<WallClock>,
    max_data_points: u16,
)
    ensures
        query_params(targets, from, to, max_data_points).len() == 2 + (if from is Some {
            1int
        } else {
            0
        }) + (if to is Some {
            1int
        } else {
            0
        }) + targets.len(),
{
}

/// Each target is the text `alias(`, its query, the text `,'`, its name and the text `')`, under
/// the key `target`; the targets come last, in their order.
pub proof fn law_targets_are_aliased(
    targets: Seq<(Seq<char>, Seq<char>)>,
    from: Option<WallClock>,
    to: Option<WallClock>,
    max_data_points: u16,
    index: int,
)
    requires
        0 <= index < targets.len(),
    ensures
        ({
            let params = query_params(targets, from, to, max_data_points);
            let param = params[params.len() - targets.len() + index];
            param.0 == "target"@ && param.1 == "alias("@ + targets[index].1 + ",'"@
                + targets[index].0 + "')"@
        }),
{
}

/// A query begins with its format and the number of points, in decimal digits; the bounds follow,
/// where they are given, each under its key.
pub proof fn law_head_of_params(
    targets: Seq<(Seq<char>, Seq<char>)>,
    from: Option<WallClock>,
    to: Option<WallClock>,
    max_data_points: u16,
)
    ensures
        ({
            let params = query_params(targets, from, to, max_data_points);
            let first_bound: int = if from is Some {
                3
            } else {
                2
            };
            &&& params[0] == ("format"@, "json"@)
            &&& params[1].0 == "maxDataPoints"@
            &&& number_of(params[1].1) == max_data_points
            &&& forall|i: int|
                0 <= i < params[1].1.len() ==> '0' <= #[trigger] params[1].1[i] <= '9'
            &&& from matches Some(t) ==> params[2] == ("from"@, t.graphite_text())
            &&& to matches Some(t) ==> params[first_bound] == ("until"@, t.graphite_text())
        }),
{
    law_decimal(max_data_points as nat);
}

} // verus!
