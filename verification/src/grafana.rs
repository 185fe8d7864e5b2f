//! What a dashboard asks for.

use crate::config::Config;
use crate::dict::Dict;
use crate::text::{lemma_occurrences, occurrences, starts_with, str_eq, texts};
use vstd::prelude::*;

verus! {

/// A request for the names of metrics.
pub struct GrafanaJsonSearchRequest {
    pub target: String,
}

/// A request for the samples of metrics.
pub struct GrafanaJsonQueryRequest {
    pub range: GrafanaJsonQueryRequestRange,
    pub targets: Vec<GrafanaTarget>,
    pub max_data_points: u16,
}

/// The bounds of a time range, in RFC 3339.
pub struct GrafanaJsonQueryRequestRange {
    pub from: String,
    pub to: String,
}

/// The shape in which samples are wanted.
#[derive(Clone, Copy, Debug, PartialEq, Eq, Structural)]
pub enum GrafanaJsonTargetType {
    Timeserie,
    Timeseries,
    Table,
}

impl GrafanaJsonTargetType {
    /// The shape that a target has where it names none.
    pub fn timeseries() -> (r: Self)
        ensures
            r == GrafanaJsonTargetType::Timeseries,
    {
        GrafanaJsonTargetType::Timeseries
    }
}

/// A metric, or several by a common beginning and a star.
pub struct GrafanaTarget {
    pub target: String,
    pub target_type: GrafanaJsonTargetType,
}

/// The names that a list of targets gives.
pub open spec fn target_texts(targets: Seq<GrafanaTarget>) -> Seq<Seq<char>> {
    targets.map_values(|t: GrafanaTarget| t.target@)
}

/// Whether a target ends in a star, and so stands for all metrics with that beginning.
pub open spec fn is_wildcard(target: Seq<char>) -> bool {
    target.len() > 0 && target.last() == '*'
}

/// The names that begin with `prefix`.
pub open spec fn with_prefix(names: Seq<Seq<char>>, prefix: Seq<char>) -> Seq<Seq<char>> {
    names.filter(|n: Seq<char>| prefix.is_prefix_of(n))
}

/// Whether a target names an expression metric. A binary metric of the same name goes first.
pub open spec fn is_expression_target(target: Seq<char>, config: Config) -> bool {
    !is_wildcard(target) && !config.bin_metrics@.contains_key(target)
        && config.expr_metrics@.contains_key(target)
}

/// The metrics whose samples a target needs.
pub open spec fn metrics_for(target: Seq<char>, config: Config) -> Seq<Seq<char>> {
    if target == "*"@ {
        config.bin_metrics.names()
    } else if is_wildcard(target) {
        with_prefix(config.bin_metrics.names(), target.drop_last())
    } else if config.bin_metrics@.contains_key(target) {
        seq![target]
    } else if config.expr_metrics@.contains_key(target) {
        texts(config.expr_metrics@[target].metrics@)
    } else {
        Seq::empty()
    }
}

/// The metrics whose samples the targets need, in the order of the targets.
pub open spec fn metrics_for_all(targets: Seq<Seq<char>>, config: Config) -> Seq<Seq<char>>
    decreases targets.len(),
{
    if targets.len() == 0 {
        targets
    } else {
        metrics_for_all(targets.drop_last(), config) + metrics_for(targets.last(), config)
    }
}

/// The expression metrics among the targets, in the order of the targets.
pub open spec fn expression_targets(targets: Seq<Seq<char>>, config: Config) -> Seq<Seq<char>> {
    targets.filter(|t: Seq<char>| is_expression_target(t, config))
}

/// Whether one of the targets is wanted as a table.
pub open spec fn wants_table(targets: Seq<GrafanaTarget>) -> bool {
    exists|i: int|
        0 <= i < targets.len() && (#[trigger] targets[i]).target_type
            == GrafanaJsonTargetType::Table
}

/// What a query needs, and how it is to be answered.
pub struct QueryPlan {
    /// The metrics whose samples are needed.
    pub metrics: Vec<String>,
    /// The expression metrics that are wanted.
    pub expression_metrics: Vec<String>,
    pub expression_mode: bool,
    pub table_mode: bool,
}

impl QueryPlan {
    /// This is the plan for a query.
    pub open spec fn is_plan_for(self, targets: Seq<GrafanaTarget>, config: Config) -> bool {
        let names = target_texts(targets);
        &&& texts(self.metrics@) == metrics_for_all(names, config)
        &&& texts(self.expression_metrics@) == expression_targets(names, config)
        &&& self.expression_mode == (expression_targets(names, config).len() > 0)
        &&& self.table_mode == wants_table(targets)
    }
}

/// Adds the names that begin with `prefix` to a list.
fn push_with_prefix<V>(list: &mut Vec<String>, names: &Dict<V>, prefix: &str)
    ensures
        texts(final(list)@) == texts(old(list)@) + with_prefix(names.names(), prefix@),
{
    let ghost all = names.names();
    let ghost begun = texts(list@);
    let mut i: usize = 0;
    proof {
        reveal(Seq::filter);
        assert(texts(list@) =~= begun + with_prefix(all.take(0), prefix@));
    }
    while i < names.len()
        invariant
            all == names.names(),
            i <= all.len(),
            texts(list@) == begun + with_prefix(all.take(i as int), prefix@),
        decreases all.len() - i,
    {
        let name: &String = names.name_at(i);
        let ghost before = texts(list@);
        proof {
            reveal(Seq::filter);
            assert(all.take(i as int + 1).drop_last() =~= all.take(i as int));
        }
        if starts_with(name.as_str(), prefix) {
            list.push(name.clone());
            assert(texts(list@) =~= before.push(name@));
        }
        assert(texts(list@) =~= begun + with_prefix(all.take(i as int + 1), prefix@));
        i += 1;
    }
    assert(all.take(i as int) =~= all);
}

/// Adds copies of strings to a list.
fn push_all(list: &mut Vec<String>, more: &Vec<String>)
    ensures
        texts(final(list)@) == texts(old(list)@) + texts(more@),
{
    let ghost begun = texts(list@);
    let mut i: usize = 0;
    assert(texts(list@) =~= begun + texts(more@.take(0)));
    while i < more.len()
        invariant
            i <= more.len(),
            texts(list@) == begun + texts(more@.take(i as int)),
        decreases more.len() - i,
    {
        let ghost before = texts(list@);
        list.push(more[i].clone());
        assert(texts(list@) =~= before.push(more[i as int]@));
        assert(texts(more@.take(i as int + 1)) =~= texts(more@.take(i as int)).push(
            more[i as int]@,
        ));
        assert(texts(list@) =~= begun + texts(more@.take(i as int + 1)));
        i += 1;
    }
    assert(more@.take(i as int) =~= more@);
}

/// What a query for these targets needs, and how it is to be answered.
pub fn plan_query(config: &Config, targets: &Vec<GrafanaTarget>) -> (r: QueryPlan)
    ensures
        r.is_plan_for(targets@, *config),
{
    let mut metrics: Vec<String> = Vec::new();
    let mut expression_metrics: Vec<String> = Vec::new();
    let mut expression_mode: bool = false;
    let mut table_mode: bool = false;
    let ghost names = target_texts(targets@);
    let mut i: usize = 0;
    proof {
        reveal_strlit("*");
        reveal(Seq::filter);
        assert(texts(metrics@) =~= metrics_for_all(names.take(0), *config));
        assert(texts(expression_metrics@) =~= expression_targets(names.take(0), *config));
    }
    while i < targets.len()
        invariant
            i <= targets.len(),
            names == target_texts(targets@),
            texts(metrics@) == metrics_for_all(names.take(i as int), *config),
            texts(expression_metrics@) == expression_targets(names.take(i as int), *config),
            expression_mode == (expression_targets(names.take(i as int), *config).len() > 0),
            table_mode == wants_table(targets@.take(i as int)),
        decreases targets.len() - i,
    {
        let target: &str = targets[i].target.as_str();
        let n: usize = target.unicode_len();
        let ghost more = names.take(i as int + 1);
        let ghost wanted_before = texts(expression_metrics@);
        proof {
            reveal_strlit("*");
            reveal(Seq::filter);
            assert(more.drop_last() =~= names.take(i as int));
            assert(more.last() == target@);
        }
        if str_eq(target, "*") {
            push_with_prefix(&mut metrics, &config.bin_metrics, "");
            proof {
                reveal_strlit("");
                law_star_is_every_metric(config.bin_metrics.names());
            }
        } else if n > 0 && target.get_char(n - 1) == '*' {
            let prefix: &str = target.substring_char(0, n - 1);
            assert(prefix@ =~= target@.drop_last());
            push_with_prefix(&mut metrics, &config.bin_metrics, prefix);
        } else if config.bin_metrics.contains_key(target) {
            let ghost before = texts(metrics@);
            metrics.push(targets[i].target.clone());
            assert(texts(metrics@) =~= before + seq![target@]);
        } else {
            match config.expr_metrics.get(target) {
                Some(metric) => {
                    expression_mode = true;
                    expression_metrics.push(targets[i].target.clone());
                    assert(texts(expression_metrics@) =~= wanted_before.push(target@));
                    push_all(&mut metrics, &metric.metrics);
                },
                None => {
                    assert(texts(metrics@) =~= texts(metrics@) + Seq::<Seq<char>>::empty());
                },
            }
        }
        match targets[i].target_type {
            GrafanaJsonTargetType::Table => {
                table_mode = true;
            },
            _ => {},
        }
        proof {
            let shown = targets@.take(i as int + 1);
            assert(shown[i as int] == targets[i as int]);
            if wants_table(targets@.take(i as int)) {
                let k = choose|k: int|
                    0 <= k < i && (#[trigger] targets@.take(i as int)[k]).target_type
                        == GrafanaJsonTargetType::Table;
                assert(shown[k].target_type == GrafanaJsonTargetType::Table);
            }
            if wants_table(shown) && targets[i as int].target_type != GrafanaJsonTargetType::Table {
                let k = choose|k: int|
                    0 <= k < shown.len() && (#[trigger] shown[k]).target_type
                        == GrafanaJsonTargetType::Table;
                assert(targets@.take(i as int)[k].target_type == GrafanaJsonTargetType::Table);
            }
        }
        i += 1;
    }
    assert(names.take(i as int) =~= names);
    assert(targets@.take(i as int) =~= targets@);
    QueryPlan { metrics, expression_metrics, expression_mode, table_mode }
}

/// The names that a search offers: a star, and the binary metrics that begin with the text.
pub fn search_metrics(config: &Config, request: &GrafanaJsonSearchRequest) -> (r: Vec<String>)
    ensures
        texts(r@) == seq!["*"@] + with_prefix(config.bin_metrics.names(), request.target@),
{
    let mut metrics: Vec<String> = Vec::new();
    metrics.push("*".to_owned());
    assert(texts(metrics@) =~= seq!["*"@]);
    push_with_prefix(&mut metrics, &config.bin_metrics, request.target.as_str());
    metrics
}

/// Every name begins with the empty text: a star alone stands for every metric.
pub proof fn law_star_is_every_metric(names: Seq<Seq<char>>)
    ensures
        with_prefix(names, Seq::empty()) == names,
    decreases names.len(),
{
    reveal(Seq::filter);
    if names.len() > 0 {
        law_star_is_every_metric(names.drop_last());
        assert(Seq::<char>::empty().is_prefix_of(names.last()));
        assert(names =~= names.drop_last().push(names.last()));
    }
}

/// The names with a prefix are those of the names that begin with it; where no name occurs twice,
/// none of them does.
pub proof fn law_with_prefix(names: Seq<Seq<char>>, prefix: Seq<char>)
    ensures
        forall|n: Seq<char>| #[trigger]
            with_prefix(names, prefix).contains(n) <==> names.contains(n) && prefix.is_prefix_of(n),
        names.no_duplicates() ==> with_prefix(names, prefix).no_duplicates(),
    decreases names.len(),
{
    reveal(Seq::filter);
    if names.len() > 0 {
        let rest = names.drop_last();
        let last = names.last();
        let chosen = with_prefix(names, prefix);
        let earlier = with_prefix(rest, prefix);
        law_with_prefix(rest, prefix);
        assert(chosen == if prefix.is_prefix_of(last) {
            earlier.push(last)
        } else {
            earlier
        });
        assert forall|n: Seq<char>| #[trigger] chosen.contains(n) <==> names.contains(n)
            && prefix.is_prefix_of(n) by {
            assert(names[names.len() - 1] == last);
            if names.contains(n) && n != last {
                let i = names.index_of(n);
                assert(rest[i] == n);
            }
            if rest.contains(n) {
                let i = rest.index_of(n);
                assert(names[i] == n);
            }
            if chosen.contains(n) && n != last {
                let i = chosen.index_of(n);
                assert(earlier[i] == n);
                assert(earlier.contains(n));
            }
            if earlier.contains(n) {
                let i = earlier.index_of(n);
                assert(chosen[i] == n);
            }
            if prefix.is_prefix_of(last) {
                assert(chosen[earlier.len() as int] == last);
            }
        }
        if names.no_duplicates() {
            assert(rest.no_duplicates());
            assert(!rest.contains(last)) by {
                if rest.contains(last) {
                    let i = rest.index_of(last);
                    assert(names[i] == names[names.len() - 1]);
                }
            }
            assert(!earlier.contains(last));
        }
    }
}

/// A wildcard stands for the binary metrics that begin with what is before the star, each once.
pub proof fn law_wildcard(target: Seq<char>, config: Config)
    requires
        is_wildcard(target),
        config.bin_metrics.wf(),
    ensures
        metrics_for(target, config) == with_prefix(config.bin_metrics.names(), target.drop_last()),
        metrics_for(target, config).no_duplicates(),
        forall|n: Seq<char>| #[trigger]
            metrics_for(target, config).contains(n) <==> config.bin_metrics@.contains_key(n)
                && target.drop_last().is_prefix_of(n),
{
    let names = config.bin_metrics.names();
    config.bin_metrics.law_names();
    law_with_prefix(names, target.drop_last());
    if target == "*"@ {
        reveal_strlit("*");
        assert(target.drop_last() =~= Seq::empty());
        law_star_is_every_metric(names);
    }
    assert forall|n: Seq<char>| #[trigger] metrics_for(target, config).contains(n)
        <==> config.bin_metrics@.contains_key(n) && target.drop_last().is_prefix_of(n) by {
        assert(with_prefix(names, target.drop_last()).contains(n) <==> names.contains(n)
            && target.drop_last().is_prefix_of(n));
    }
}

/// A name that a search offers is a binary metric that begins with the searched text, and as a
/// target it stands for that metric alone, unless it ends in a star itself.
pub proof fn law_search_offers_targets(name: Seq<char>, searched: Seq<char>, config: Config)
    requires
        config.bin_metrics.wf(),
        with_prefix(config.bin_metrics.names(), searched).contains(name),
    ensures
        config.bin_metrics@.contains_key(name),
        searched.is_prefix_of(name),
        !is_wildcard(name) ==> metrics_for(name, config) == seq![name],
{
    config.bin_metrics.law_names();
    law_with_prefix(config.bin_metrics.names(), searched);
    reveal_strlit("*");
}

/// A star asks for what a search for nothing offers behind the star.
pub proof fn law_star_is_empty_search(config: Config)
    ensures
        metrics_for("*"@, config) == with_prefix(config.bin_metrics.names(), Seq::empty()),
{
    law_star_is_every_metric(config.bin_metrics.names());
}

/// The samples that an expression metric needs are asked for whenever it is a target.
pub proof fn law_expression_needs(targets: Seq<Seq<char>>, target: Seq<char>, config: Config)
    requires
        targets.contains(target),
        is_expression_target(target, config),
    ensures
        expression_targets(targets, config).contains(target),
        forall|n: Seq<char>| #[trigger]
            texts(config.expr_metrics@[target].metrics@).contains(n) ==> metrics_for_all(
                targets,
                config,
            ).contains(n),
    decreases targets.len(),
{
    reveal(Seq::filter);
    reveal_strlit("*");
    let rest = targets.drop_last();
    let last = targets.last();
    let needed = texts(config.expr_metrics@[target].metrics@);
    let all = metrics_for_all(targets, config);
    let earlier = metrics_for_all(rest, config);
    if last == target {
        assert(expression_targets(targets, config) == expression_targets(rest, config).push(last));
        assert(expression_targets(targets, config)[expression_targets(rest, config).len() as int]
            == target);
        assert forall|n: Seq<char>| #[trigger] needed.contains(n) implies all.contains(n) by {
            let i = needed.index_of(n);
            assert(all[earlier.len() + i] == n);
        }
    } else {
        let k = targets.index_of(target);
        assert(rest[k] == target);
        law_expression_needs(rest, target, config);
        let i = expression_targets(rest, config).index_of(target);
        assert(expression_targets(targets, config)[i] == target);
        assert forall|n: Seq<char>| #[trigger] needed.contains(n) implies all.contains(n) by {
            assert(earlier.contains(n));
            let i = earlier.index_of(n);
            assert(all[i] == n);
        }
    }
}

/// The expression metrics among the targets occur as often as they do among the targets.
pub proof fn law_expression_targets(targets: Seq<Seq<char>>, name: Seq<char>, config: Config)
    ensures
        occurrences(expression_targets(targets, config), name) == if is_expression_target(
            name,
            config,
        ) {
            occurrences(targets, name)
        } else {
            0
        },
        expression_targets(targets, config).contains(name) <==> targets.contains(name)
            && is_expression_target(name, config),
    decreases targets.len(),
{
    reveal(Seq::filter);
    lemma_occurrences(targets, name);
    lemma_occurrences(expression_targets(targets, config), name);
    if targets.len() > 0 {
        let rest = targets.drop_last();
        law_expression_targets(rest, name, config);
        lemma_occurrences(rest, name);
        if is_expression_target(targets.last(), config) {
            assert(expression_targets(targets, config).drop_last() =~= expression_targets(
                rest,
                config,
            ));
        }
    }
}

/// A target names an expression metric if and only if it does not end in a star, no binary metric
/// has its name, and an expression metric has.
pub proof fn law_expression_target(target: Seq<char>, config: Config)
    ensures
        is_expression_target(target, config) <==> !(target.len() > 0 && target[target.len() - 1]
            == '*') && !config.bin_metrics@.contains_key(target)
            && config.expr_metrics@.contains_key(target),
{
}

/// What several targets need is what each of them needs: nothing is lost, and nothing is added.
pub proof fn law_needs_of_all(targets: Seq<Seq<char>>, name: Seq<char>, config: Config)
    ensures
        metrics_for_all(targets, config).contains(name) <==> exists|i: int|
            0 <= i < targets.len() && metrics_for(#[trigger] targets[i], config).contains(name),
    decreases targets.len(),
{
    let all = metrics_for_all(targets, config);
    if targets.len() > 0 {
        let rest = targets.drop_last();
        let last = targets.last();
        let earlier = metrics_for_all(rest, config);
        law_needs_of_all(rest, name, config);
        assert(all == earlier + metrics_for(last, config));
        if all.contains(name) {
            let k = all.index_of(name);
            if k < earlier.len() {
                assert(earlier[k] == name);
                let i = choose|i: int|
                    0 <= i < rest.len() && metrics_for(#[trigger] rest[i], config).contains(name);
                assert(metrics_for(targets[i], config).contains(name));
            } else {
                assert(metrics_for(last, config)[k - earlier.len()] == name);
                assert(metrics_for(targets[targets.len() - 1], config).contains(name));
            }
        }
        if exists|i: int|
            0 <= i < targets.len() && metrics_for(#[trigger] targets[i], config).contains(name) {
            let i = choose|i: int|
                0 <= i < targets.len() && metrics_for(#[trigger] targets[i], config).contains(name);
            if i < rest.len() {
                assert(metrics_for(rest[i], config).contains(name));
                let k = earlier.index_of(name);
                assert(all[k] == name);
            } else {
                let k = metrics_for(last, config).index_of(name);
                assert(all[earlier.len() + k] == name);
            }
        }
    }
}

/// What one target needs: with a star at its end, the binary metrics that begin as it does; by the
/// name of a binary metric, that one; else by the name of an expression metric, the metrics that
/// this one lists; else nothing.
pub proof fn law_needs_of_one(target: Seq<char>, name: Seq<char>, config: Config)
    requires
        config.bin_metrics.wf(),
    ensures
        metrics_for(target, config).contains(name) <==> if target.len() > 0 && target[target.len()
            - 1] == '*' {
            config.bin_metrics@.contains_key(name) && target.drop_last().is_prefix_of(name)
        } else if config.bin_metrics@.contains_key(target) {
            name == target
        } else {
            config.expr_metrics@.contains_key(target) && exists|i: int|
                0 <= i < config.expr_metrics@[target].metrics@.len() && (
                #[trigger] config.expr_metrics@[target].metrics@[i])@ == name
        },
{
    let needs = metrics_for(target, config);
    if target.len() > 0 && target[target.len() - 1] == '*' {
        assert(is_wildcard(target));
        law_wildcard(target, config);
    } else {
        reveal_strlit("*");
        if config.bin_metrics@.contains_key(target) {
            assert(needs =~= seq![target]);
            assert(needs[0] == target);
        } else if config.expr_metrics@.contains_key(target) {
            let listed = config.expr_metrics@[target].metrics@;
            if needs.contains(name) {
                let i = needs.index_of(name);
                assert(listed[i]@ == name);
            }
            if exists|i: int| 0 <= i < listed.len() && (#[trigger] listed[i])@ == name {
                let i = choose|i: int| 0 <= i < listed.len() && (#[trigger] listed[i])@ == name;
                assert(needs[i] == name);
            }
        }
    }
}

} // verus!
