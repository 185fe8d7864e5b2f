//! The configuration of the service, and how the definitions in it are resolved.

use crate::dict::{lemma_entries_map, names_of, Dict};
use crate::float::Float;
use crate::template::{law_text_without_variables, render_query, substituted};
use vstd::prelude::*;

verus! {

/// What the service computes, from where, and where it listens.
pub struct Config {
    pub datasource: Datasource,
    pub server: ConfigServer,
    /// Definitions that binary metrics can refer to.
    pub metric_templates: Dict<BinaryMetricRawDef>,
    pub bin_metrics: Dict<BinaryMetricDef>,
    pub expr_metrics: Dict<ExpressionMetricDef>,
}

/// The socket that the service listens on.
pub struct ConfigServer {
    pub address: String,
    pub port: u16,
}

/// The address to listen on where the configuration gives none.
pub fn default_address() -> (r: String)
    ensures
        r@ == "0.0.0.0"@,
{
    "0.0.0.0".to_owned()
}

/// The port to listen on where the configuration gives none.
pub fn default_port() -> (r: u16)
    ensures
        r == 3000,
{
    3000
}

/// How many seconds to wait for Graphite where the configuration does not say.
pub fn default_timeout() -> (r: u16)
    ensures
        r == 5,
{
    5
}

/// How a sample is held against the threshold.
#[derive(Clone, Copy, Debug, PartialEq, Eq, Structural)]
pub enum CmpType {
    Lt,
    Gt,
    Eq,
}

/// Where Graphite is, and how long to wait for it.
pub struct Datasource {
    pub url: String,
    pub timeout: u16,
}

/// A binary metric, ready to be computed: whether the samples of a query pass a threshold.
pub struct BinaryMetricRawDef {
    pub query: String,
    pub op: CmpType,
    pub threshold: Float,
}

impl Default for BinaryMetricRawDef {
    fn default() -> (r: Self)
        ensures
            r.query@ == Seq::<char>::empty(),
            r.op == CmpType::Lt,
            r.threshold == (Float { bits: 0 }),
    {
        BinaryMetricRawDef { query: String::new(), op: CmpType::Lt, threshold: Float::zero() }
    }
}

/// A binary metric as it is configured: by itself, or after a template.
pub struct BinaryMetricDef {
    pub query: Option<String>,
    pub op: Option<CmpType>,
    pub threshold: Option<Float>,
    pub template: Option<MetricTemplateRef>,
    /// What the settings above come to; see `process_config`.
    pub raw: BinaryMetricRawDef,
}

/// The template that a metric is made after, and the values of the template's variables.
pub struct MetricTemplateRef {
    pub name: String,
    pub vars: Dict<String>,
}

/// A metric that weighs what boolean expressions say of binary metrics.
pub struct ExpressionMetricDef {
    pub metrics: Vec<String>,
    pub expressions: Vec<MetricExpressionDef>,
}

/// An expression and the value it gives to its metric where it is true.
pub struct MetricExpressionDef {
    pub expression: String,
    pub weight: i32,
}

impl BinaryMetricDef {
    /// The template that the metric is made after exists, and the metric gives a value to each of
    /// the template's variables.
    pub open spec fn resolvable(self, templates: Map<Seq<char>, BinaryMetricRawDef>) -> bool {
        self.template matches Some(t) ==> templates.contains_key(t.name@) && substituted(
            templates[t.name@].query@,
            t.vars@,
        ) is Some
    }

    /// Why the metric cannot be resolved; nothing where it can.
    pub open spec fn fault(
        self,
        templates: Map<Seq<char>, BinaryMetricRawDef>,
    ) -> Option<ConfigFault> {
        match self.template {
            None => None,
            Some(t) => if !templates.contains_key(t.name@) {
                Some(ConfigFault::UnknownTemplate)
            } else if substituted(templates[t.name@].query@, t.vars@) is None {
                Some(ConfigFault::MissingVariable)
            } else {
                None
            },
        }
    }

    /// The query: that of the template with its variables replaced, else the metric's own, else
    /// what is there already.
    pub open spec fn resolved_query(
        self,
        templates: Map<Seq<char>, BinaryMetricRawDef>,
    ) -> Seq<char> {
        match (self.template, self.query) {
            (Some(t), _) => substituted(templates[t.name@].query@, t.vars@)->0,
            (None, Some(query)) => query@,
            (None, None) => self.raw.query@,
        }
    }

    /// The comparison: the metric's own, else that of the template, else what is there already.
    pub open spec fn resolved_op(self, templates: Map<Seq<char>, BinaryMetricRawDef>) -> CmpType {
        match (self.op, self.template) {
            (Some(op), _) => op,
            (None, Some(t)) => templates[t.name@].op,
            (None, None) => self.raw.op,
        }
    }

    /// The threshold: the metric's own, else that of the template, else what is there already.
    pub open spec fn resolved_threshold(
        self,
        templates: Map<Seq<char>, BinaryMetricRawDef>,
    ) -> Float {
        match (self.threshold, self.template) {
            (Some(threshold), _) => threshold,
            (None, Some(t)) => templates[t.name@].threshold,
            (None, None) => self.raw.threshold,
        }
    }

    /// `after` has the settings of `self`, and holds what they come to.
    pub open spec fn resolves_to(
        self,
        templates: Map<Seq<char>, BinaryMetricRawDef>,
        after: BinaryMetricDef,
    ) -> bool {
        &&& after.query == self.query
        &&& after.op == self.op
        &&& after.threshold == self.threshold
        &&& after.template == self.template
        &&& after.raw.query@ == self.resolved_query(templates)
        &&& after.raw.op == self.resolved_op(templates)
        &&& after.raw.threshold == self.resolved_threshold(templates)
    }
}

impl Config {
    /// Each binary metric can be resolved.
    pub open spec fn resolvable(self) -> bool {
        forall|name: Seq<char>| #[trigger]
            self.bin_metrics@.contains_key(name) ==> self.bin_metrics@[name].resolvable(
                self.metric_templates@,
            )
    }

    /// `after` holds what the settings of each binary metric come to; nothing else differs.
    pub open spec fn resolves_to(self, after: Config) -> bool {
        &&& after.datasource == self.datasource
        &&& after.server == self.server
        &&& after.metric_templates == self.metric_templates
        &&& after.expr_metrics == self.expr_metrics
        &&& after.bin_metrics.names() == self.bin_metrics.names()
        &&& forall|name: Seq<char>| #[trigger]
            after.bin_metrics@.contains_key(name) <==> self.bin_metrics@.contains_key(name)
        &&& forall|name: Seq<char>| #[trigger]
            after.bin_metrics@.contains_key(name) ==> self.bin_metrics@[name].resolves_to(
                self.metric_templates@,
                after.bin_metrics@[name],
            )
    }

    /// Why the binary metric at `index` cannot be resolved.
    pub open spec fn fault_at(self, index: int) -> Option<ConfigFault> {
        self.bin_metrics@[self.bin_metrics.names()[index]].fault(self.metric_templates@)
    }
}

/// Why a binary metric cannot be resolved.
#[derive(Clone, Copy, Debug, PartialEq, Eq, Structural)]
pub enum ConfigFault {
    /// It is made after a template that does not exist.
    UnknownTemplate,
    /// It gives no value to a variable of its template.
    MissingVariable,
}

/// A binary metric that cannot be resolved.
#[derive(Debug)]
pub struct ConfigError {
    pub metric: String,
    pub fault: ConfigFault,
}

/// Looks for a binary metric that cannot be resolved; the first one is reported.
pub fn check_config(config: &Config) -> (r: Result<(), ConfigError>)
    ensures
        r is Ok <==> config.resolvable(),
        r matches Err(e) ==> exists|i: int|
            0 <= i < config.bin_metrics.names().len() && #[trigger] config.bin_metrics.names()[i]
                == e.metric@ && config.fault_at(i) == Some(e.fault) && (forall|j: int|
                0 <= j < i ==> #[trigger] config.fault_at(j) is None),
{
    proof {
        use_type_invariant(&config.bin_metrics);
        config.bin_metrics.law_names();
    }
    let ghost names = config.bin_metrics.names();
    let mut i: usize = 0;
    while i < config.bin_metrics.len()
        invariant
            names == config.bin_metrics.names(),
            i <= names.len(),
            forall|n: Seq<char>|
                config.bin_metrics@.contains_key(n) <==> #[trigger] names.contains(n),
            forall|j: int| 0 <= j < i ==> #[trigger] config.fault_at(j) is None,
        decreases names.len() - i,
    {
        let fault: Option<ConfigFault> = fault_in(
            config.bin_metrics.value_at(i),
            &config.metric_templates,
        );
        match fault {
            Some(fault) => {
                assert(names.contains(names[i as int]));
                assert(config.fault_at(i as int) == Some(fault));
                return Err(ConfigError { metric: config.bin_metrics.name_at(i).clone(), fault });
            },
            None => {},
        }
        i += 1;
    }
    assert forall|name: Seq<char>| #[trigger]
        config.bin_metrics@.contains_key(name) implies config.bin_metrics@[name].resolvable(
        config.metric_templates@,
    ) by {
        assert(names.contains(name));
        let k = names.index_of(name);
        assert(config.fault_at(k) is None);
    }
    Ok(())
}

/// Why the metric cannot be resolved, if it cannot.
fn fault_in(def: &BinaryMetricDef, templates: &Dict<BinaryMetricRawDef>) -> (r: Option<ConfigFault>)
    ensures
        r == def.fault(templates@),
{
    match &def.template {
        None => None,
        Some(reference) => match templates.get(reference.name.as_str()) {
            None => Some(ConfigFault::UnknownTemplate),
            Some(template) => if render_query(
                template.query.as_str(),
                &reference.vars,
            ).is_some() {
                None
            } else {
                Some(ConfigFault::MissingVariable)
            },
        },
    }
}

/// What the settings of a binary metric come to.
fn resolve(def: BinaryMetricDef, templates: &Dict<BinaryMetricRawDef>) -> (r: BinaryMetricDef)
    requires
        def.resolvable(templates@),
    ensures
        def.resolves_to(templates@, r),
{
    let mut def: BinaryMetricDef = def;
    match &def.template {
        Some(reference) => {
            let template: &BinaryMetricRawDef = templates.get(reference.name.as_str()).unwrap();
            let query: String = render_query(template.query.as_str(), &reference.vars).unwrap();
            def.raw = BinaryMetricRawDef {
                query,
                op: template.op,
                threshold: template.threshold,
            };
        },
        None => match &def.query {
            Some(query) => {
                def.raw.query = query.clone();
            },
            None => {},
        },
    }
    match def.op {
        Some(op) => {
            def.raw.op = op;
        },
        None => {},
    }
    match def.threshold {
        Some(threshold) => {
            def.raw.threshold = threshold;
        },
        None => {},
    }
    def
}

/// Resolves the binary metrics of a configuration; nothing else changes.
pub fn process_config(config: Config) -> (r: Config)
    requires
        config.resolvable(),
    ensures
        config.resolves_to(r),
{
    let Config { datasource, server, metric_templates, bin_metrics, expr_metrics } = config;
    let mut pending: Vec<(String, BinaryMetricDef)> = bin_metrics.into_entries();
    let ghost before = pending@;
    let mut done: Vec<(String, BinaryMetricDef)> = Vec::new();
    proof {
        lemma_entries_map(before);
        assert forall|i: int| 0 <= i < before.len() implies (#[trigger] before[i]).1.resolvable(
            metric_templates@,
        ) by {
            assert(names_of(before)[i] == before[i].0@);
        }
    }
    while pending.len() > 0
        invariant
            done.len() + pending.len() == before.len(),
            pending@ == before.skip(done.len() as int),
            names_of(before).no_duplicates(),
            forall|i: int|
                0 <= i < before.len() ==> (#[trigger] before[i]).1.resolvable(metric_templates@),
            forall|i: int|
                0 <= i < done.len() ==> (#[trigger] done[i]).0 == before[i].0
                    && before[i].1.resolves_to(metric_templates@, done[i].1),
        decreases pending.len(),
    {
        let (name, def) = pending.remove(0);
        assert((name, def) == before[done.len() as int]);
        done.push((name, resolve(def, &metric_templates)));
        assert(pending@ =~= before.skip(done.len() as int));
    }
    proof {
        assert(names_of(done@) =~= names_of(before));
        lemma_entries_map(done@);
    }
    Config {
        datasource,
        server,
        metric_templates,
        bin_metrics: Dict::from_entries(done),
        expr_metrics,
    }
}

/// Resolving a metric a second time changes nothing.
pub proof fn law_resolving_is_idempotent(
    def: BinaryMetricDef,
    once: BinaryMetricDef,
    twice: BinaryMetricDef,
    templates: Map<Seq<char>, BinaryMetricRawDef>,
)
    requires
        def.resolvable(templates),
        def.resolves_to(templates, once),
        once.resolves_to(templates, twice),
    ensures
        once.resolvable(templates),
        twice.raw.query@ == once.raw.query@,
        twice.raw.op == once.raw.op,
        twice.raw.threshold == once.raw.threshold,
{
}

/// Resolving a configuration a second time succeeds and changes nothing.
pub proof fn law_configuration_is_resolved_once(config: Config, once: Config, twice: Config)
    requires
        config.resolvable(),
        config.resolves_to(once),
        once.resolves_to(twice),
    ensures
        once.resolvable(),
        twice.datasource == once.datasource,
        twice.server == once.server,
        twice.metric_templates == once.metric_templates,
        twice.expr_metrics == once.expr_metrics,
        twice.bin_metrics.names() == once.bin_metrics.names(),
        forall|name: Seq<char>| #[trigger]
            twice.bin_metrics@.contains_key(name) <==> once.bin_metrics@.contains_key(name),
        forall|name: Seq<char>| #[trigger]
            twice.bin_metrics@.contains_key(name) ==> {
                let before = once.bin_metrics@[name];
                let after = twice.bin_metrics@[name];
                &&& after.query == before.query
                &&& after.op == before.op
                &&& after.threshold == before.threshold
                &&& after.template == before.template
                &&& after.raw.query@ == before.raw.query@
                &&& after.raw.op == before.raw.op
                &&& after.raw.threshold == before.raw.threshold
            },
{
    assert forall|name: Seq<char>| #[trigger]
        once.bin_metrics@.contains_key(name) implies once.bin_metrics@[name].resolvable(
        once.metric_templates@,
    ) by {
        assert(config.bin_metrics@.contains_key(name));
    }
    assert forall|name: Seq<char>| #[trigger] twice.bin_metrics@.contains_key(name) implies {
        let before = once.bin_metrics@[name];
        let after = twice.bin_metrics@[name];
        &&& after.query == before.query
        &&& after.op == before.op
        &&& after.threshold == before.threshold
        &&& after.template == before.template
        &&& after.raw.query@ == before.raw.query@
        &&& after.raw.op == before.raw.op
        &&& after.raw.threshold == before.raw.threshold
    } by {
        assert(once.bin_metrics@.contains_key(name));
        assert(config.bin_metrics@.contains_key(name));
        law_resolving_is_idempotent(
            config.bin_metrics@[name],
            once.bin_metrics@[name],
            twice.bin_metrics@[name],
            config.metric_templates@,
        );
    }
}

/// A metric made after a template whose query has no dollar sign takes that query as it is.
pub proof fn law_plain_template(
    def: BinaryMetricDef,
    templates: Map<Seq<char>, BinaryMetricRawDef>,
)
    requires
        def.template matches Some(t) && templates.contains_key(t.name@) && !templates[
            t.name@
        ].query@.contains('$'),
    ensures
        def.resolvable(templates),
        def.resolved_query(templates) == templates[def.template->0.name@].query@,
{
    let t = def.template->0;
    law_text_without_variables(templates[t.name@].query@, t.vars@);
}

/// A metric's own comparison and threshold go before those of its template, whatever else it
/// gives; where it gives none, those of the template hold, and without a template what is there
/// already.
pub proof fn law_own_settings_go_first(
    def: BinaryMetricDef,
    after: BinaryMetricDef,
    templates: Map<Seq<char>, BinaryMetricRawDef>,
)
    requires
        def.resolves_to(templates, after),
    ensures
        def.op matches Some(op) ==> after.raw.op == op,
        def.threshold matches Some(threshold) ==> after.raw.threshold == threshold,
        def.template matches Some(t) ==> {
            &&& def.op is None ==> after.raw.op == templates[t.name@].op
            &&& def.threshold is None ==> after.raw.threshold == templates[t.name@].threshold
        },
        def.template is None ==> {
            &&& def.op is None ==> after.raw.op == def.raw.op
            &&& def.threshold is None ==> after.raw.threshold == def.raw.threshold
        },
{
}

/// The query of a template, its variables replaced, goes before the metric's own query; without
/// either, what is there already holds.
pub proof fn law_query_of_the_template_goes_first(
    def: BinaryMetricDef,
    after: BinaryMetricDef,
    templates: Map<Seq<char>, BinaryMetricRawDef>,
)
    requires
        def.resolvable(templates),
        def.resolves_to(templates, after),
    ensures
        def.template matches Some(t) ==> templates.contains_key(t.name@) && substituted(
            templates[t.name@].query@,
            t.vars@,
        ) == Some(after.raw.query@),
        def.template is None ==> (def.query matches Some(query) ==> after.raw.query@ == query@),
        def.template is None && def.query is None ==> after.raw.query@ == def.raw.query@,
{
}

/// Resolving changes what the settings of the binary metrics come to, and nothing else: all
/// settings and all names stay.
pub proof fn law_settings_stay(config: Config, after: Config, name: Seq<char>)
    requires
        config.resolves_to(after),
    ensures
        after.datasource == config.datasource,
        after.server == config.server,
        after.metric_templates == config.metric_templates,
        after.expr_metrics == config.expr_metrics,
        after.bin_metrics.names() == config.bin_metrics.names(),
        after.bin_metrics@.contains_key(name) <==> config.bin_metrics@.contains_key(name),
        config.bin_metrics@.contains_key(name) ==> {
            let def = config.bin_metrics@[name];
            let done = after.bin_metrics@[name];
            &&& def.resolves_to(config.metric_templates@, done)
            &&& done.query == def.query
            &&& done.op == def.op
            &&& done.threshold == def.threshold
            &&& done.template == def.template
        },
{
    if config.bin_metrics@.contains_key(name) {
        assert(after.bin_metrics@.contains_key(name));
    }
}

/// A configuration can be resolved if and only if the template of each metric that has one exists
/// and each of the template's variables has a value.
pub proof fn law_resolvable(config: Config)
    ensures
        config.resolvable() <==> forall|name: Seq<char>| #[trigger]
            config.bin_metrics@.contains_key(name) ==> (config.bin_metrics@[name].template matches Some(
                t,
            ) ==> config.metric_templates@.contains_key(t.name@) && substituted(
                config.metric_templates@[t.name@].query@,
                t.vars@,
            ) is Some),
{
}

/// What is reported of a metric: an unknown template if and only if there is none of that name,
/// and a missing value if and only if the template is there and a variable of it has none.
pub proof fn law_faults(config: Config, index: int)
    ensures
        ({
            let def = config.bin_metrics@[config.bin_metrics.names()[index]];
            let templates = config.metric_templates@;
            &&& config.fault_at(index) == Some(ConfigFault::UnknownTemplate) <==> (
            def.template matches Some(t) && !templates.contains_key(t.name@))
            &&& config.fault_at(index) == Some(ConfigFault::MissingVariable) <==> (
            def.template matches Some(t) && templates.contains_key(t.name@) && substituted(
                templates[t.name@].query@,
                t.vars@,
            ) is None)
        }),
{
}

} // verus!
