//! Query templates: `$name` stands for the value of a variable.

use crate::dict::{entries_map, names_of, Dict};
use vstd::prelude::*;

verus! {

/// What introduces a variable: a dollar sign and the longest run of characters up to the next dot.
pub const VARIABLE_PATTERN: &'static str = "(?mi)\\$([^\\.]+)";

/// Where the name that begins at `start` ends: at the next dot, or at the end of the text.
pub open spec fn name_end(text: Seq<char>, start: int) -> int
    decreases text.len() - start,
{
    if start >= text.len() || text[start] == '.' {
        start
    } else {
        name_end(text, start + 1)
    }
}

/// A name ends at or behind the place where it begins, inside the text.
pub proof fn lemma_name_end(text: Seq<char>, start: int)
    requires
        0 <= start <= text.len(),
    ensures
        start <= name_end(text, start) <= text.len(),
    decreases text.len() - start,
{
    if start < text.len() && text[start] != '.' {
        lemma_name_end(text, start + 1);
    }
}

/// Whether a variable begins at the first character: a dollar sign with a name behind it.
pub open spec fn begins_with_variable(text: Seq<char>) -> bool {
    text.len() >= 2 && text[0] == '$' && text[1] != '.'
}

/// `text` with each variable replaced by its value, read from left to right;
/// nothing where a variable has no value. What a value holds is not read again.
pub open spec fn substituted(text: Seq<char>, vars: Map<Seq<char>, String>) -> Option<Seq<char>>
    decreases text.len(),
{
    if text.len() == 0 {
        Some(text)
    } else if !begins_with_variable(text) {
        match substituted(text.skip(1), vars) {
            Some(rest) => Some(text.take(1) + rest),
            None => None,
        }
    } else {
        let end = name_end(text, 1);
        proof {
            lemma_name_end(text, 2);
        }
        let name = text.subrange(1, end);
        match substituted(text.skip(end), vars) {
            Some(rest) if vars.contains_key(name) => Some(vars[name]@ + rest),
            _ => None,
        }
    }
}

/// Renders `text` with `new_string_template::template::Template::render`, the variables found by
/// the regular expression `pattern`.
///
/// Trusted of `Template::render`: it copies the text, puts the value of the variable in the place
/// of each match of the pattern, from left to right and without reading the values again, and
/// fails if and only if a variable has no value. Trusted of `regex`: the pattern matches where a
/// dollar sign is followed by a character other than a dot, and its group takes all characters up
/// to the next dot.
#[verifier::external_body]
fn render(text: &str, pattern: &str, vars: &Vec<(String, String)>) -> (r: Option<String>)
    requires
        pattern@ == VARIABLE_PATTERN@,
        names_of(vars@).no_duplicates(),
    ensures
        r is Some <==> substituted(text@, entries_map(vars@)) is Some,
        r matches Some(s) ==> Some(s@) == substituted(text@, entries_map(vars@)),
{
    let regex = regex::Regex::new(pattern).ok()?;
    let data: std::collections::HashMap<&str, &str> =
        vars.iter().map(|e| (e.0.as_str(), e.1.as_str())).collect();
    new_string_template::template::Template::new(text).with_regex(&regex).render(&data).ok()
}

/// `text` with its variables replaced by their values; nothing where one has no value.
pub fn render_query(text: &str, vars: &Dict<String>) -> (r: Option<String>)
    ensures
        r is Some <==> substituted(text@, vars@) is Some,
        r matches Some(s) ==> Some(s@) == substituted(text@, vars@),
{
    render(text, VARIABLE_PATTERN, vars.entries())
}

/// A text without a dollar sign stays as it is.
pub proof fn law_text_without_variables(text: Seq<char>, vars: Map<Seq<char>, String>)
    requires
        !text.contains('$'),
    ensures
        substituted(text, vars) == Some(text),
    decreases text.len(),
{
    if text.len() > 0 {
        assert(text[0] != '$');
        assert forall|c: char| !text.contains(c) implies !text.skip(1).contains(c) by {
            if text.skip(1).contains(c) {
                let i = text.skip(1).index_of(c);
                assert(text[i + 1] == c);
            }
        }
        law_text_without_variables(text.skip(1), vars);
        assert(text.take(1) + text.skip(1) =~= text);
    }
}

/// A variable is replaced by its value: `before$name` followed by the end or by a dot becomes
/// `before`, the value of `name`, and what the rest becomes.
pub proof fn law_variable_is_replaced(
    before: Seq<char>,
    name: Seq<char>,
    after: Seq<char>,
    vars: Map<Seq<char>, String>,
)
    requires
        !before.contains('$'),
        name.len() > 0,
        !name.contains('.'),
        after.len() == 0 || after[0] == '.',
    ensures
        substituted(before + seq!['$'] + name + after, vars) == (match substituted(after, vars) {
            Some(rest) if vars.contains_key(name) => Some(before + vars[name]@ + rest),
            _ => None,
        }),
    decreases before.len(),
{
    let text = before + seq!['$'] + name + after;
    if before.len() > 0 {
        let tail = before.skip(1);
        assert forall|i: int| 0 <= i < tail.len() implies tail[i] != '$' by {
            assert(tail[i] == before[i + 1]);
        }
        assert(before[0] != '$');
        law_variable_is_replaced(tail, name, after, vars);
        assert(text.skip(1) =~= tail + seq!['$'] + name + after);
        assert(text.take(1) + tail =~= before);
        if vars.contains_key(name) {
            match substituted(after, vars) {
                Some(rest) => {
                    assert(text.take(1) + (tail + vars[name]@ + rest) =~= before + vars[name]@
                        + rest);
                },
                None => {},
            }
        }
    } else {
        assert(text =~= seq!['$'] + name + after);
        assert forall|i: int| 1 <= i < 1 + name.len() implies text[i] != '.' by {
            assert(text[i] == name[i - 1]);
        }
        lemma_name_end_at(text, 1, 1 + name.len() as int);
        assert(text.subrange(1, 1 + name.len() as int) =~= name);
        assert(text.skip(1 + name.len() as int) =~= after);
        assert(before + vars[name]@ =~= vars[name]@);
    }
}

/// A name ends at the first dot behind its beginning.
proof fn lemma_name_end_at(text: Seq<char>, start: int, end: int)
    requires
        0 <= start <= end <= text.len(),
        forall|i: int| start <= i < end ==> text[i] != '.',
        end == text.len() || text[end] == '.',
    ensures
        name_end(text, start) == end,
    decreases end - start,
{
    if start < end {
        lemma_name_end_at(text, start + 1, end);
    }
}

/// A text is read part by part between its dots: what is on the one side of a dot has no bearing
/// on the other, and the dot stays.
pub proof fn law_dots_part_a_text(left: Seq<char>, right: Seq<char>, vars: Map<Seq<char>, String>)
    ensures
        substituted(left + seq!['.'] + right, vars) == (match (
            substituted(left, vars),
            substituted(right, vars),
        ) {
            (Some(a), Some(b)) => Some(a + seq!['.'] + b),
            _ => None,
        }),
    decreases left.len(),
{
    let text = left + seq!['.'] + right;
    if left.len() == 0 {
        assert(text =~= seq!['.'] + right);
        assert(text.skip(1) =~= right);
        assert(text.take(1) =~= seq!['.']);
        match substituted(right, vars) {
            Some(b) => {
                assert(seq!['.'] + b =~= left + seq!['.'] + b);
            },
            None => {},
        }
    } else if !begins_with_variable(left) {
        assert(!begins_with_variable(text));
        law_dots_part_a_text(left.skip(1), right, vars);
        assert(text.skip(1) =~= left.skip(1) + seq!['.'] + right);
        assert(text.take(1) =~= left.take(1));
        match (substituted(left.skip(1), vars), substituted(right, vars)) {
            (Some(a), Some(b)) => {
                assert(left.take(1) + (a + seq!['.'] + b) =~= (left.take(1) + a) + seq!['.'] + b);
            },
            _ => {},
        }
    } else {
        let end = name_end(left, 1);
        lemma_name_end(left, 2);
        lemma_name_end_is(left, 1);
        assert forall|i: int| 1 <= i < end implies text[i] != '.' by {
            assert(text[i] == left[i]);
        }
        assert(text[end] == '.');
        lemma_name_end_at(text, 1, end);
        assert(text.subrange(1, end) =~= left.subrange(1, end));
        assert(text.skip(end) =~= left.skip(end) + seq!['.'] + right);
        law_dots_part_a_text(left.skip(end), right, vars);
        let name = left.subrange(1, end);
        match (substituted(left.skip(end), vars), substituted(right, vars)) {
            (Some(a), Some(b)) => {
                assert(vars[name]@ + (a + seq!['.'] + b) =~= (vars[name]@ + a) + seq!['.'] + b);
            },
            _ => {},
        }
    }
}

/// Up to its end a name has no dot, and it ends at a dot or with the text.
proof fn lemma_name_end_is(text: Seq<char>, start: int)
    requires
        0 <= start <= text.len(),
    ensures
        start <= name_end(text, start) <= text.len(),
        forall|i: int| start <= i < name_end(text, start) ==> text[i] != '.',
        name_end(text, start) == text.len() || text[name_end(text, start)] == '.',
    decreases text.len() - start,
{
    if start < text.len() && text[start] != '.' {
        lemma_name_end_is(text, start + 1);
    }
}

/// A part without dots has at most one variable: all that is behind its first dollar sign is the
/// name. A dollar sign with nothing behind it stays.
pub proof fn law_part_without_dots(
    before: Seq<char>,
    name: Seq<char>,
    vars: Map<Seq<char>, String>,
)
    requires
        !before.contains('$'),
        !name.contains('.'),
    ensures
        name.len() > 0 && vars.contains_key(name) ==> substituted(
            before + seq!['$'] + name,
            vars,
        ) == Some(before + vars[name]@),
        name.len() > 0 && !vars.contains_key(name) ==> substituted(
            before + seq!['$'] + name,
            vars,
        ) is None,
        name.len() == 0 ==> substituted(before + seq!['$'] + name, vars) == Some(
            before + seq!['$'],
        ),
    decreases before.len(),
{
    let text = before + seq!['$'] + name;
    if name.len() > 0 {
        let none = Seq::<char>::empty();
        law_variable_is_replaced(before, name, none, vars);
        assert(text + none =~= text);
        if vars.contains_key(name) {
            assert(before + vars[name]@ + none =~= before + vars[name]@);
        }
    } else if before.len() > 0 {
        let tail = before.skip(1);
        assert forall|i: int| 0 <= i < tail.len() implies tail[i] != '$' by {
            assert(tail[i] == before[i + 1]);
        }
        assert(before[0] != '$');
        law_part_without_dots(tail, name, vars);
        assert(text.skip(1) =~= tail + seq!['$'] + name);
        assert(text.take(1) + (tail + seq!['$']) =~= before + seq!['$']);
    } else {
        reveal_with_fuel(substituted, 2);
        assert(text =~= seq!['$']);
        assert(text.skip(1) =~= Seq::empty());
        assert(text.take(1) + Seq::<char>::empty() =~= before + seq!['$']);
    }
}

} // verus!
