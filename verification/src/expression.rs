//! Weighted boolean expressions over binary metrics.

use crate::config::{ExpressionMetricDef, MetricExpressionDef};
use crate::dict::Dict;
use crate::text::texts;
use evalexpr::{ContextWithMutableFunctions, ContextWithMutableVariables};
use vstd::prelude::*;

verus! {

/// Whether the text shows `word` at `at`.
pub open spec fn shows_at(text: Seq<char>, word: Seq<char>, at: int) -> bool {
    0 <= at && at + word.len() <= text.len() && text.subrange(at, at + word.len()) == word
}

/// Whether the text shows `word` anywhere.
pub open spec fn shows(text: Seq<char>, word: Seq<char>) -> bool {
    exists|at: int| shows_at(text, word, at)
}

/// The letters, digits and signs that surely belong to the identifier next to them.
pub open spec fn is_word_char(c: char) -> bool {
    ('a' <= c && c <= 'z') || ('A' <= c && c <= 'Z') || ('0' <= c && c <= '9') || c == '_' || c
        == '.' || c == ':'
}

/// Whether the text shows `word` at `at` and may mean it as an identifier of its own.
pub open spec fn names_at(text: Seq<char>, word: Seq<char>, at: int) -> bool {
    &&& shows_at(text, word, at)
    &&& at > 0 ==> !is_word_char(text[at - 1])
    &&& at + word.len() < text.len() ==> !is_word_char(text[at + word.len()])
}

/// Whether the text may mean `word` anywhere.
pub open spec fn names(text: Seq<char>, word: Seq<char>) -> bool {
    exists|at: int| names_at(text, word, at)
}

/// The text with small letters in place of capitals.
pub open spec fn small(text: Seq<char>) -> Seq<char> {
    text.map_values(
        |c: char|
            if 'A' <= c && c <= 'Z' {
                (c as u32 + 32) as char
            } else {
                c
            },
    )
}

/// Whether a word that begins at `at` may be a number: it begins with a digit or a dot.
pub open spec fn begins_number(text: Seq<char>, at: int) -> bool {
    &&& 0 <= at < text.len()
    &&& ('0' <= text[at] && text[at] <= '9') || text[at] == '.'
    &&& at > 0 ==> !is_word_char(text[at - 1])
}

/// Whether the word from `at` to `end` is made of digits, and of so few that it is an integer.
pub open spec fn is_integer(text: Seq<char>, at: int, end: int) -> bool {
    &&& at < end <= at + 18
    &&& end <= text.len()
    &&& forall|i: int| at <= i < end ==> '0' <= #[trigger] text[i] <= '9'
    &&& end < text.len() ==> !is_word_char(text[end])
}

/// Whether all numbers that come up in the evaluation of the text are integers: those that it
/// writes down are, it names neither infinity nor what is not a number, and it calls no function
/// that makes another number of an integer. Arithmetic keeps to integers, but for powers.
pub open spec fn integers_only(text: Seq<char>) -> bool {
    &&& forall|at: int| #[trigger]
        begins_number(text, at) ==> exists|end: int| is_integer(text, at, end)
    &&& !names(small(text), "inf"@)
    &&& !names(small(text), "infinity"@)
    &&& !names(small(text), "nan"@)
    &&& !names(text, "floor"@)
    &&& !names(text, "round"@)
    &&& !names(text, "ceil"@)
    &&& !shows(text, "math::"@)
    &&& !shows(text, "^"@)
}

/// Whether the text uses nothing whose result may differ between machines: powers and the
/// mathematical functions, which round as the machine does (but for the square root, which rounds
/// exactly), and the lesser and the greater of two numbers, where zeros of both signs may come out
/// either way. Integers have one zero: where there are no other numbers, nothing differs. The text
/// is not parsed: what stands in quotes counts as well.
pub open spec fn machine_independent(text: Seq<char>) -> bool {
    ||| integers_only(text)
    ||| {
        &&& !shows(text, "^"@)
        &&& forall|at: int| #[trigger]
            shows_at(text, "math::"@, at) ==> shows_at(text, "math::sqrt"@, at)
        &&& !names(text, "min"@)
        &&& !names(text, "max"@)
    }
}

/// The function of the expression language that shifts to the left.
pub const LEFT_SHIFT: &'static str = "shl";

/// The function of the expression language that shifts to the right.
pub const RIGHT_SHIFT: &'static str = "shr";

/// `n` shifted to the left. A distance turns round at the width of an integer.
pub open spec fn shifted_left(n: i64, distance: i64) -> i64 {
    n << (distance % 64)
}

/// `n` shifted to the right, keeping its sign. A distance turns round at the width of an integer.
pub open spec fn shifted_right(n: i64, distance: i64) -> i64 {
    n >> (distance % 64)
}

/// The distance by which a shift moves: what is left of it when whole turns are taken off.
fn turned(distance: i64) -> (r: u32)
    ensures
        r < 64,
        r == distance % 64,
{
    if distance >= 0 {
        (distance % 64) as u32
    } else {
        63 - (-(distance + 1) % 64) as u32
    }
}

/// `n` shifted to the left.
pub fn shift_left(n: i64, distance: i64) -> (r: i64)
    ensures
        r == shifted_left(n, distance),
{
    n << turned(distance)
}

/// `n` shifted to the right, keeping its sign.
pub fn shift_right(n: i64, distance: i64) -> (r: i64)
    ensures
        r == shifted_right(n, distance),
{
    n >> turned(distance)
}

/// `evalexpr::Value`: a value of the expression language, which may be a tuple of values.
#[verifier::external_type_specification]
#[verifier::external_body]
pub struct ExValue(evalexpr::Value);

/// `evalexpr::EvalexprError`: why an expression has no value.
#[verifier::external_type_specification]
#[verifier::external_body]
pub struct ExEvalexprError(evalexpr::EvalexprError);

/// The items of a tuple of integers; of an integer, itself alone. A tuple that holds anything else
/// counts as empty, and so does any other value.
pub uninterp spec fn integers_in(value: evalexpr::Value) -> Seq<i64>;

/// Reads a pair of integers with `evalexpr::Value::as_fixed_len_tuple` and
/// `evalexpr::Value::as_int`.
///
/// Trusted: this succeeds if and only if the value is a tuple of two integers, and yields them.
#[verifier::external_body]
fn integer_pair(value: &evalexpr::Value) -> (r: Result<(i64, i64), evalexpr::EvalexprError>)
    ensures
        r is Ok <==> integers_in(*value).len() == 2,
        r matches Ok(pair) ==> integers_in(*value) == seq![pair.0, pair.1],
{
    let pair = value.as_fixed_len_tuple(2)?;
    Ok((pair[0].as_int()?, pair[1].as_int()?))
}

/// Makes a value of an integer with `evalexpr::Value::from`.
///
/// Trusted: the value is that integer.
#[verifier::external_body]
fn integer_value(n: i64) -> (r: evalexpr::Value)
    ensures
        integers_in(r) == seq![n],
{
    evalexpr::Value::from(n)
}

/// The left shift as a function of the expression language: of a pair of integers, the first
/// shifted by the second. It fails on anything else.
pub fn call_left_shift(argument: &evalexpr::Value) -> (r: Result<
    evalexpr::Value,
    evalexpr::EvalexprError,
>)
    ensures
        r is Ok <==> integers_in(*argument).len() == 2,
        r matches Ok(value) ==> integers_in(value) == seq![
            shifted_left(integers_in(*argument)[0], integers_in(*argument)[1]),
        ],
{
    match integer_pair(argument) {
        Ok((n, distance)) => Ok(integer_value(shift_left(n, distance))),
        Err(error) => Err(error),
    }
}

/// The right shift as a function of the expression language: of a pair of integers, the first
/// shifted by the second. It fails on anything else.
pub fn call_right_shift(argument: &evalexpr::Value) -> (r: Result<
    evalexpr::Value,
    evalexpr::EvalexprError,
>)
    ensures
        r is Ok <==> integers_in(*argument).len() == 2,
        r matches Ok(value) ==> integers_in(value) == seq![
            shifted_right(integers_in(*argument)[0], integers_in(*argument)[1]),
        ],
{
    match integer_pair(argument) {
        Ok((n, distance)) => Ok(integer_value(shift_right(n, distance))),
        Err(error) => Err(error),
    }
}

/// `evalexpr::HashMapContext`: the variables and functions that an expression may use.
#[verifier::external_type_specification]
#[verifier::external_body]
pub struct ExHashMapContext(evalexpr::HashMapContext);

/// The variables of a context.
pub uninterp spec fn context_values(context: evalexpr::HashMapContext) -> Map<Seq<char>, bool>;

/// Whether a context holds boolean variables only, and as its functions the two shifts,
/// `call_left_shift` and `call_right_shift` under their names.
pub uninterp spec fn context_is_boolean(context: evalexpr::HashMapContext) -> bool;

/// What `evalexpr::eval_boolean_with_context` returns for an expression over boolean variables and
/// the two shifts, on every machine; nothing where it reports an error.
pub uninterp spec fn boolean_value(
    expression: Seq<char>,
    variables: Map<Seq<char>, bool>,
) -> Option<bool>;

/// Whether `evalexpr::eval_boolean_with_context` returns this for an expression over boolean
/// variables and the two shifts, on some machine; nothing stands for an error.
pub uninterp spec fn may_evaluate_to(
    expression: Seq<char>,
    variables: Map<Seq<char>, bool>,
    outcome: Option<bool>,
) -> bool;

/// Makes a context with `evalexpr::HashMapContext::new`, and sets its functions with
/// `evalexpr::HashMapContext::set_function`.
///
/// Trusted: the context holds no variables, and as its functions the two shifts under the given
/// names. An expression that calls a function of such a name calls that of the context, which
/// returns on every distance; the function that `evalexpr` has of its own under the same name,
/// with the same results on distances below the width of an integer, may not return on others.
#[verifier::external_body]
fn new_context(left: &str, right: &str) -> (r: evalexpr::HashMapContext)
    requires
        left@ == LEFT_SHIFT@,
        right@ == RIGHT_SHIFT@,
    ensures
        context_is_boolean(r),
        forall|name: Seq<char>| !context_values(r).contains_key(name),
{
    let mut context = evalexpr::HashMapContext::new();
    let left_shift = evalexpr::Function::new(|argument| call_left_shift(argument));
    let right_shift = evalexpr::Function::new(|argument| call_right_shift(argument));
    context.set_function(left.to_owned(), left_shift).unwrap();
    context.set_function(right.to_owned(), right_shift).unwrap();
    context
}

/// Sets a variable with `evalexpr::HashMapContext::set_value`.
///
/// Trusted: in a context of boolean variables the assignment succeeds, sets this variable and
/// leaves the others, and the functions, alone.
#[verifier::external_body]
fn set_boolean(context: &mut evalexpr::HashMapContext, name: String, value: bool)
    requires
        context_is_boolean(*old(context)),
    ensures
        context_is_boolean(*final(context)),
        context_values(*final(context)) == context_values(*old(context)).insert(name@, value),
{
    context.set_value(name, evalexpr::Value::from(value)).unwrap();
}

/// Evaluates an expression with `evalexpr::eval_boolean_with_context`.
///
/// Trusted: the outcome is one that the expression may have for these variables, and where nothing
/// in the expression depends on the machine, as `machine_independent` has it, the one that it has
/// everywhere. To this belongs that a word is an integer where it is made of few digits, that no
/// other word is a number but one that begins with a digit or a dot or that names infinity or what
/// is not a number, and that of integers all operators but the power, and `min` and `max`, make
/// integers.
#[verifier::external_body]
fn eval_boolean(expression: &str, context: &evalexpr::HashMapContext) -> (r: Option<bool>)
    requires
        context_is_boolean(*context),
    ensures
        may_evaluate_to(expression@, context_values(*context), r),
        machine_independent(expression@) ==> r == boolean_value(
            expression@,
            context_values(*context),
        ),
{
    evalexpr::eval_boolean_with_context(expression, context).ok()
}

/// The value of each metric in a row of samples; a metric without a sample counts as false.
pub open spec fn metric_values(
    metrics: Seq<String>,
    row: Map<Seq<char>, bool>,
) -> Map<Seq<char>, bool> {
    Map::new(
        |name: Seq<char>| exists|i: int| 0 <= i < metrics.len() && (#[trigger] metrics[i])@ == name,
        |name: Seq<char>| row.contains_key(name) && row[name],
    )
}

/// The weight of the last expression that is true; zero where none is.
pub open spec fn chosen_weight(
    expressions: Seq<MetricExpressionDef>,
    verdicts: Seq<Option<bool>>,
) -> i32
    decreases expressions.len(),
{
    if expressions.len() == 0 {
        0
    } else if verdicts[expressions.len() - 1] == Some(true) {
        expressions.last().weight
    } else {
        chosen_weight(expressions.drop_last(), verdicts)
    }
}

/// Whether the evaluation of an expression of the metric may yield that outcome for a row of
/// samples.
pub open spec fn may_yield(
    def: ExpressionMetricDef,
    row: Map<Seq<char>, bool>,
    index: int,
    outcome: Option<bool>,
) -> bool {
    may_evaluate_to(
        def.expressions[index].expression@,
        metric_values(def.metrics@, row),
        outcome,
    )
}

/// What the evaluation of an expression of the metric yields for a row of samples, where it does
/// not depend on the machine.
pub open spec fn verdict(
    def: ExpressionMetricDef,
    row: Map<Seq<char>, bool>,
    index: int,
) -> Option<bool> {
    boolean_value(def.expressions[index].expression@, metric_values(def.metrics@, row))
}

/// `outcome` is what the evaluation of an expression of the metric yields for a row of samples.
pub open spec fn is_verdict(
    def: ExpressionMetricDef,
    row: Map<Seq<char>, bool>,
    index: int,
    outcome: Option<bool>,
) -> bool {
    &&& may_yield(def, row, index, outcome)
    &&& machine_independent(def.expressions[index].expression@) ==> outcome == verdict(
        def,
        row,
        index,
    )
}

/// `verdicts` is what the evaluation of the expressions yields for a row of samples.
pub open spec fn verdicts_of(
    def: ExpressionMetricDef,
    row: Map<Seq<char>, bool>,
    verdicts: Seq<Option<bool>>,
) -> bool {
    &&& verdicts.len() == def.expressions@.len()
    &&& forall|i: int|
        0 <= i < verdicts.len() ==> is_verdict(def, row, i, #[trigger] verdicts[i])
}

/// `value` is what the metric may come to for a row of samples. It is one value where no
/// expression of the metric depends on the machine.
pub open spec fn is_value_of(def: ExpressionMetricDef, row: Map<Seq<char>, bool>, value: i32) -> bool {
    exists|verdicts: Seq<Option<bool>>| #[trigger]
        verdicts_of(def, row, verdicts) && value == chosen_weight(def.expressions@, verdicts)
}

/// The weight of the last expression that was found true; zero where none was.
pub fn weigh(expressions: &Vec<MetricExpressionDef>, verdicts: &Vec<Option<bool>>) -> (r: i32)
    requires
        verdicts.len() == expressions.len(),
    ensures
        r == chosen_weight(expressions@, verdicts@),
{
    let mut result: i32 = 0;
    let mut i: usize = 0;
    assert(expressions@.take(0) =~= Seq::empty());
    while i < expressions.len()
        invariant
            i <= expressions.len(),
            verdicts.len() == expressions.len(),
            result == chosen_weight(expressions@.take(i as int), verdicts@),
        decreases expressions.len() - i,
    {
        match verdicts[i] {
            Some(holds) => if holds {
                result = expressions[i].weight;
            },
            None => {},
        }
        assert(expressions@.take(i as int + 1).drop_last() =~= expressions@.take(i as int));
        i += 1;
    }
    assert(expressions@.take(i as int) =~= expressions@);
    result
}

/// The variables that the metric's expressions may use.
fn metric_context(metrics: &Vec<String>, row: &Dict<bool>) -> (r: evalexpr::HashMapContext)
    ensures
        context_is_boolean(r),
        context_values(r) == metric_values(metrics@, row@),
{
    let mut context: evalexpr::HashMapContext = new_context(LEFT_SHIFT, RIGHT_SHIFT);
    let mut i: usize = 0;
    assert(context_values(context) =~= metric_values(metrics@.take(0), row@));
    while i < metrics.len()
        invariant
            i <= metrics.len(),
            context_is_boolean(context),
            context_values(context) == metric_values(metrics@.take(i as int), row@),
        decreases metrics.len() - i,
    {
        let value: bool = match row.get(metrics[i].as_str()) {
            Some(value) => *value,
            None => false,
        };
        let ghost before = metric_values(metrics@.take(i as int), row@);
        set_boolean(&mut context, metrics[i].clone(), value);
        proof {
            let more = metrics@.take(i as int + 1);
            assert forall|name: Seq<char>| #[trigger]
                metric_values(more, row@).contains_key(name) <==> before.contains_key(name) || name
                    == metrics[i as int]@ by {
                assert(more[i as int]@ == metrics[i as int]@);
                if before.contains_key(name) {
                    let j = choose|j: int|
                        0 <= j < i && (#[trigger] metrics@.take(i as int)[j])@ == name;
                    assert(more[j]@ == name);
                }
                if metric_values(more, row@).contains_key(name) {
                    let j = choose|j: int| 0 <= j < more.len() && (#[trigger] more[j])@ == name;
                    if j < i {
                        assert(metrics@.take(i as int)[j]@ == name);
                    }
                }
            }
            assert(context_values(context).dom() =~= metric_values(more, row@).dom());
            assert(context_values(context) =~= metric_values(more, row@));
        }
        i += 1;
    }
    assert(metrics@.take(i as int) =~= metrics@);
    context
}

/// What the metric comes to for a row of samples.
pub fn expression_value(def: &ExpressionMetricDef, row: &Dict<bool>) -> (r: i32)
    ensures
        is_value_of(*def, row@, r),
{
    let context: evalexpr::HashMapContext = metric_context(&def.metrics, row);
    let mut verdicts: Vec<Option<bool>> = Vec::new();
    let mut i: usize = 0;
    while i < def.expressions.len()
        invariant
            i <= def.expressions.len(),
            i == verdicts.len(),
            context_is_boolean(context),
            context_values(context) == metric_values(def.metrics@, row@),
            forall|j: int| 0 <= j < i ==> is_verdict(*def, row@, j, #[trigger] verdicts[j]),
        decreases def.expressions.len() - i,
    {
        verdicts.push(eval_boolean(def.expressions[i].expression.as_str(), &context));
        i += 1;
    }
    assert(verdicts_of(*def, row@, verdicts@));
    weigh(&def.expressions, &verdicts)
}

/// A metric is worth the weight of an expression that may be true with none behind it that must
/// be, or zero where none must be true.
pub proof fn law_value_is_a_weight(def: ExpressionMetricDef, row: Map<Seq<char>, bool>, value: i32)
    requires
        is_value_of(def, row, value),
    ensures
        exists|index: int| #[trigger] is_decided_by(def, row, value, index),
{
    let verdicts = choose|verdicts: Seq<Option<bool>>| #[trigger]
        verdicts_of(def, row, verdicts) && value == chosen_weight(def.expressions@, verdicts);
    let index = lemma_chosen_index(def.expressions@, verdicts);
    if index >= 0 {
        assert(is_verdict(def, row, index, verdicts[index]));
    }
    assert forall|j: int| index < j < def.expressions@.len() implies #[trigger] may_be_untrue(
        def,
        row,
        j,
    ) by {
        assert(is_verdict(def, row, j, verdicts[j]));
        assert(verdicts[j] == Some(false) || verdicts[j] is None);
    }
    assert(is_decided_by(def, row, value, index));
}

/// Whether the evaluation of an expression of the metric may yield something else than true.
pub open spec fn may_be_untrue(
    def: ExpressionMetricDef,
    row: Map<Seq<char>, bool>,
    index: int,
) -> bool {
    may_yield(def, row, index, Some(false)) || may_yield(def, row, index, None)
}

/// The expression at `index` may be the last true one, and the value is its weight; before the
/// first stands zero.
pub open spec fn is_decided_by(
    def: ExpressionMetricDef,
    row: Map<Seq<char>, bool>,
    value: i32,
    index: int,
) -> bool {
    &&& -1 <= index < def.expressions@.len()
    &&& value == if index >= 0 {
        def.expressions[index].weight
    } else {
        0
    }
    &&& index >= 0 ==> may_yield(def, row, index, Some(true))
    &&& forall|j: int|
        index < j < def.expressions@.len() ==> #[trigger] may_be_untrue(def, row, j)
}

/// The last expression found true, or the place before the first where none was.
proof fn lemma_chosen_index(
    expressions: Seq<MetricExpressionDef>,
    verdicts: Seq<Option<bool>>,
) -> (index: int)
    ensures
        -1 <= index < expressions.len(),
        chosen_weight(expressions, verdicts) == if index >= 0 {
            expressions[index].weight
        } else {
            0
        },
        index >= 0 ==> verdicts[index] == Some(true),
        forall|j: int| index < j < expressions.len() ==> #[trigger] verdicts[j] != Some(true),
    decreases expressions.len(),
{
    if expressions.len() == 0 {
        -1
    } else if verdicts[expressions.len() - 1] == Some(true) {
        expressions.len() - 1
    } else {
        lemma_chosen_index(expressions.drop_last(), verdicts)
    }
}

/// Where no expression depends on the machine, a metric comes to one value for a row of samples.
pub proof fn law_value_is_determined(
    def: ExpressionMetricDef,
    row: Map<Seq<char>, bool>,
    a: i32,
    b: i32,
)
    requires
        is_value_of(def, row, a),
        is_value_of(def, row, b),
        forall|i: int|
            0 <= i < def.expressions@.len() ==> machine_independent(
                (#[trigger] def.expressions[i]).expression@,
            ),
    ensures
        a == b,
{
    let x = choose|verdicts: Seq<Option<bool>>| #[trigger]
        verdicts_of(def, row, verdicts) && a == chosen_weight(def.expressions@, verdicts);
    let y = choose|verdicts: Seq<Option<bool>>| #[trigger]
        verdicts_of(def, row, verdicts) && b == chosen_weight(def.expressions@, verdicts);
    assert forall|i: int| 0 <= i < x.len() implies x[i] == y[i] by {
        assert(machine_independent(def.expressions[i].expression@));
        assert(is_verdict(def, row, i, x[i]) && is_verdict(def, row, i, y[i]));
    }
    assert(x =~= y);
}

/// The last expression that is true decides, whatever the weights are; where none is true, the
/// metric is worth zero.
pub proof fn law_last_true_expression_decides(
    def: ExpressionMetricDef,
    row: Map<Seq<char>, bool>,
    value: i32,
    index: int,
)
    requires
        is_value_of(def, row, value),
        -1 <= index < def.expressions@.len(),
        forall|j: int|
            0 <= j && index <= j < def.expressions@.len() ==> machine_independent(
                (#[trigger] def.expressions[j]).expression@,
            ),
        index >= 0 ==> verdict(def, row, index) == Some(true),
        forall|j: int|
            index < j < def.expressions@.len() ==> #[trigger] verdict(def, row, j) != Some(true),
    ensures
        value == if index >= 0 {
            def.expressions[index].weight
        } else {
            0
        },
{
    let verdicts = choose|verdicts: Seq<Option<bool>>| #[trigger]
        verdicts_of(def, row, verdicts) && value == chosen_weight(def.expressions@, verdicts);
    assert forall|j: int| 0 <= j && index <= j < verdicts.len() implies #[trigger] verdicts[j]
        == verdict(def, row, j) by {
        assert(machine_independent(def.expressions[j].expression@));
        assert(is_verdict(def, row, j, verdicts[j]));
    }
    let chosen = lemma_chosen_index(def.expressions@, verdicts);
    if index >= 0 {
        assert(verdicts[index] == Some(true));
    }
    if chosen > index {
        assert(verdict(def, row, chosen) != Some(true));
        assert(verdicts[chosen] == Some(true));
    }
}

/// A metric without a sample counts as false, and no expression sees the samples of a metric that
/// its own metric does not list.
pub proof fn law_metric_values(metrics: Seq<String>, row: Map<Seq<char>, bool>, name: Seq<char>)
    ensures
        metric_values(metrics, row).contains_key(name) <==> texts(metrics).contains(name),
        texts(metrics).contains(name) ==> metric_values(metrics, row)[name] == (
        row.contains_key(name) && row[name]),
{
    if texts(metrics).contains(name) {
        let i = texts(metrics).index_of(name);
        assert(metrics[i]@ == name);
    }
    if metric_values(metrics, row).contains_key(name) {
        let i = choose|i: int| 0 <= i < metrics.len() && (#[trigger] metrics[i])@ == name;
        assert(texts(metrics)[i] == name);
    }
}

/// The last verdict of true decides the weight; where there is none, the weight is zero.
pub proof fn law_last_verdict_decides(
    expressions: Seq<MetricExpressionDef>,
    verdicts: Seq<Option<bool>>,
    index: int,
)
    requires
        verdicts.len() == expressions.len(),
        -1 <= index < expressions.len(),
        index >= 0 ==> verdicts[index] == Some(true),
        forall|j: int| index < j < expressions.len() ==> #[trigger] verdicts[j] != Some(true),
    ensures
        chosen_weight(expressions, verdicts) == if index >= 0 {
            expressions[index].weight
        } else {
            0
        },
{
    let chosen = lemma_chosen_index(expressions, verdicts);
    if chosen > index {
        assert(verdicts[chosen] == Some(true));
    }
}

/// The variables that expressions see: each metric that is listed, and no other name, and it is
/// true if and only if the row says so.
pub proof fn law_variables(
    metrics: Seq<String>,
    row: Map<Seq<char>, bool>,
    variables: Map<Seq<char>, bool>,
)
    requires
        forall|n: Seq<char>| #[trigger]
            variables.contains_key(n) <==> exists|i: int|
                0 <= i < metrics.len() && (#[trigger] metrics[i])@ == n,
        forall|n: Seq<char>| #[trigger]
            variables.contains_key(n) ==> variables[n] == (row.contains_key(n) && row[n]),
    ensures
        metric_values(metrics, row) == variables,
{
    let values = metric_values(metrics, row);
    assert forall|n: Seq<char>| #[trigger] values.contains_key(n) <==> variables.contains_key(n) by {}
    assert forall|n: Seq<char>| #[trigger] values.contains_key(n) implies values[n]
        == variables[n] by {
        assert(variables.contains_key(n));
    }
    assert(values =~= variables);
}

/// Each value of a metric comes from the evaluation of its own expressions over these variables:
/// some expression may have been true, it gives its weight, and each one behind it may have been
/// something else; or each one may have been, and the value is zero.
pub proof fn law_value_comes_from_evaluation(
    def: ExpressionMetricDef,
    row: Map<Seq<char>, bool>,
    value: i32,
) -> (index: int)
    requires
        is_value_of(def, row, value),
    ensures
        -1 <= index < def.expressions@.len(),
        value == if index >= 0 {
            def.expressions@[index].weight
        } else {
            0
        },
        index >= 0 ==> may_evaluate_to(
            def.expressions@[index].expression@,
            metric_values(def.metrics@, row),
            Some(true),
        ),
        forall|j: int|
            index < j < def.expressions@.len() ==> may_evaluate_to(
                (#[trigger] def.expressions@[j]).expression@,
                metric_values(def.metrics@, row),
                Some(false),
            ) || may_evaluate_to(
                def.expressions@[j].expression@,
                metric_values(def.metrics@, row),
                None,
            ),
{
    law_value_is_a_weight(def, row, value);
    let index = choose|index: int| #[trigger] is_decided_by(def, row, value, index);
    assert forall|j: int| index < j < def.expressions@.len() implies may_evaluate_to(
        (#[trigger] def.expressions@[j]).expression@,
        metric_values(def.metrics@, row),
        Some(false),
    ) || may_evaluate_to(
        def.expressions@[j].expression@,
        metric_values(def.metrics@, row),
        None,
    ) by {
        assert(may_be_untrue(def, row, j));
    }
    index
}

/// Where the outcome of an expression, and of each one behind it, does not depend on the machine,
/// and it is the last that is true, the metric is worth its weight; and zero where none is true.
pub proof fn law_value_of_the_last_true(
    def: ExpressionMetricDef,
    row: Map<Seq<char>, bool>,
    value: i32,
    index: int,
)
    requires
        is_value_of(def, row, value),
        -1 <= index < def.expressions@.len(),
        forall|j: int|
            0 <= j && index <= j < def.expressions@.len() ==> machine_independent(
                (#[trigger] def.expressions@[j]).expression@,
            ),
        index >= 0 ==> boolean_value(
            def.expressions@[index].expression@,
            metric_values(def.metrics@, row),
        ) == Some(true),
        forall|j: int|
            index < j < def.expressions@.len() ==> boolean_value(
                (#[trigger] def.expressions@[j]).expression@,
                metric_values(def.metrics@, row),
            ) != Some(true),
    ensures
        value == if index >= 0 {
            def.expressions@[index].weight
        } else {
            0
        },
{
    assert forall|j: int| 0 <= j && index <= j < def.expressions@.len() implies machine_independent(
        (#[trigger] def.expressions[j]).expression@,
    ) by {
        assert(machine_independent(def.expressions@[j].expression@));
    }
    assert forall|j: int| index < j < def.expressions@.len() implies #[trigger] verdict(def, row, j)
        != Some(true) by {
        assert(def.expressions@[j] == def.expressions[j]);
    }
    law_last_true_expression_decides(def, row, value, index);
}

/// Shifts by distances below the width of an integer are those of the machine, and a distance
/// shifts as the same distance and a whole turn do.
pub proof fn law_shifts(n: i64, distance: i64)
    ensures
        0 <= distance < 64 ==> shifted_left(n, distance) == n << distance,
        0 <= distance < 64 ==> shifted_right(n, distance) == n >> distance,
        distance < i64::MAX - 64 ==> shifted_left(n, (distance + 64) as i64) == shifted_left(
            n,
            distance,
        ),
        distance < i64::MAX - 64 ==> shifted_right(n, (distance + 64) as i64) == shifted_right(
            n,
            distance,
        ),
{
    if distance < i64::MAX - 64 {
        assert((distance + 64) % 64 == distance % 64);
    }
}

/// A text without a caret, without a colon, and in which the letters `min` and `max` do not occur,
/// does not depend on the machine.
pub proof fn law_plain_expressions(text: Seq<char>)
    requires
        !text.contains('^'),
        !text.contains(':'),
        forall|i: int|
            0 <= i < text.len() - 2 ==> !((#[trigger] text[i]) == 'm' && (text[i + 1] == 'i'
                && text[i + 2] == 'n' || text[i + 1] == 'a' && text[i + 2] == 'x')),
    ensures
        machine_independent(text),
{
    reveal_strlit("^");
    reveal_strlit("math::");
    reveal_strlit("min");
    reveal_strlit("max");
    assert forall|at: int| !(#[trigger] shows_at(text, "^"@, at)) by {
        if shows_at(text, "^"@, at) {
            assert(text.subrange(at, at + 1)[0] == '^');
            assert(text[at] == '^');
        }
    }
    assert forall|at: int| !(#[trigger] shows_at(text, "math::"@, at)) by {
        if shows_at(text, "math::"@, at) {
            assert(text.subrange(at, at + 6)[4] == ':');
            assert(text[at + 4] == ':');
        }
    }
    assert forall|at: int| !(#[trigger] names_at(text, "min"@, at)) by {
        if names_at(text, "min"@, at) {
            let word = text.subrange(at, at + 3);
            assert(word[0] == 'm' && word[1] == 'i' && word[2] == 'n');
            assert(text[at] == 'm');
        }
    }
    assert forall|at: int| !(#[trigger] names_at(text, "max"@, at)) by {
        if names_at(text, "max"@, at) {
            let word = text.subrange(at, at + 3);
            assert(word[0] == 'm' && word[1] == 'a' && word[2] == 'x');
            assert(text[at] == 'm');
        }
    }
}

} // verus!
