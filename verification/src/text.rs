//! Texts: prefixes, decimal numbers, and lists of names.

use vstd::prelude::*;

verus! {

/// The character of a decimal digit.
pub open spec fn digit_char(digit: nat) -> char {
    (digit + 48) as char
}

/// The decimal notation of `n`, without leading zeros.
pub open spec fn decimal(n: nat) -> Seq<char>
    decreases n,
{
    if n < 10 {
        seq![digit_char(n)]
    } else {
        decimal(n / 10).push(digit_char(n % 10))
    }
}

/// The decimal notation of `n`.
pub fn decimal_string(n: u16) -> (r: String)
    ensures
        r@ == decimal(n as nat),
    decreases n,
{
    let mut text: String = if n < 10 {
        String::new()
    } else {
        decimal_string(n / 10)
    };
    text.append(digit_str(n % 10));
    text
}

/// The one-character text of a decimal digit.
fn digit_str(digit: u16) -> (r: &'static str)
    requires
        digit < 10,
    ensures
        r@ == seq![digit_char(digit as nat)],
{
    proof {
        reveal_strlit("0");
        reveal_strlit("1");
        reveal_strlit("2");
        reveal_strlit("3");
        reveal_strlit("4");
        reveal_strlit("5");
        reveal_strlit("6");
        reveal_strlit("7");
        reveal_strlit("8");
        reveal_strlit("9");
    }
    if digit == 0 {
        "0"
    } else if digit == 1 {
        "1"
    } else if digit == 2 {
        "2"
    } else if digit == 3 {
        "3"
    } else if digit == 4 {
        "4"
    } else if digit == 5 {
        "5"
    } else if digit == 6 {
        "6"
    } else if digit == 7 {
        "7"
    } else if digit == 8 {
        "8"
    } else {
        "9"
    }
}

/// Whether `text` begins with `prefix`.
pub fn starts_with(text: &str, prefix: &str) -> (r: bool)
    ensures
        r == prefix@.is_prefix_of(text@),
{
    let n: usize = prefix.unicode_len();
    if text.unicode_len() < n {
        return false;
    }
    let head: &str = text.substring_char(0, n);
    let same: bool = str_eq(head, prefix);
    proof {
        if same {
            assert(prefix@ =~= text@.subrange(0, prefix@.len() as int));
        }
    }
    same
}

/// Whether the two texts are the same.
pub fn str_eq(a: &str, b: &str) -> (r: bool)
    ensures
        r == (a@ == b@),
{
    let left: String = a.to_owned();
    let right: String = b.to_owned();
    left == right
}

/// The names in the order of their first occurrence, each once.
pub open spec fn distinct(names: Seq<Seq<char>>) -> Seq<Seq<char>>
    decreases names.len(),
{
    if names.len() == 0 {
        names
    } else if distinct(names.drop_last()).contains(names.last()) {
        distinct(names.drop_last())
    } else {
        distinct(names.drop_last()).push(names.last())
    }
}

/// The texts of a list of strings.
pub open spec fn texts(strings: Seq<String>) -> Seq<Seq<char>> {
    strings.map_values(|s: String| s@)
}

/// How often the name occurs.
pub open spec fn occurrences(names: Seq<Seq<char>>, name: Seq<char>) -> nat
    decreases names.len(),
{
    if names.len() == 0 {
        0
    } else if names.last() == name {
        occurrences(names.drop_last(), name) + 1
    } else {
        occurrences(names.drop_last(), name)
    }
}

/// A name occurs at most as often as there are names, and once where none occurs twice.
pub proof fn lemma_occurrences(names: Seq<Seq<char>>, name: Seq<char>)
    ensures
        occurrences(names, name) <= names.len(),
        occurrences(names, name) > 0 <==> names.contains(name),
        names.no_duplicates() ==> occurrences(names, name) <= 1,
    decreases names.len(),
{
    if names.len() > 0 {
        lemma_occurrences(names.drop_last(), name);
        if names.drop_last().contains(name) {
            let i = names.drop_last().index_of(name);
            assert(names[i] == name);
        }
        if names.contains(name) && names.last() != name {
            let i = names.index_of(name);
            assert(names.drop_last()[i] == name);
        }
        assert(names[names.len() - 1] == names.last());
    }
}

/// Of the distinct names none occurs twice, and they are the names.
pub proof fn law_distinct(names: Seq<Seq<char>>)
    ensures
        distinct(names).no_duplicates(),
        forall|n: Seq<char>| #[trigger] distinct(names).contains(n) <==> names.contains(n),
    decreases names.len(),
{
    if names.len() > 0 {
        let rest = names.drop_last();
        law_distinct(rest);
        assert forall|n: Seq<char>| #[trigger] distinct(names).contains(n) <==> names.contains(
            n,
        ) by {
            if rest.contains(n) {
                let i = rest.index_of(n);
                assert(names[i] == n);
                assert(distinct(rest).contains(n));
                let k = distinct(rest).index_of(n);
                assert(distinct(names)[k] == n);
            }
            if names.contains(n) && n != names.last() {
                let i = names.index_of(n);
                assert(rest[i] == n);
            }
            if distinct(names).contains(n) && n != names.last() {
                let k = distinct(names).index_of(n);
                assert(distinct(rest)[k] == n);
                assert(distinct(rest).contains(n));
            }
            assert(names[names.len() - 1] == names.last());
            if distinct(rest).contains(names.last()) {
                assert(distinct(names) == distinct(rest));
            } else {
                assert(distinct(names)[distinct(rest).len() as int] == names.last());
            }
        }
    }
}

/// The number that a row of decimal digits stands for.
pub open spec fn number_of(digits: Seq<char>) -> int
    decreases digits.len(),
{
    if digits.len() == 0 {
        0
    } else {
        10 * number_of(digits.drop_last()) + (digits.last() as int - '0' as int)
    }
}

/// The decimal notation of a number is made of digits, stands for the number, and begins with a
/// zero only where it is the zero.
pub proof fn law_decimal(n: nat)
    ensures
        decimal(n).len() > 0,
        forall|i: int| 0 <= i < decimal(n).len() ==> '0' <= #[trigger] decimal(n)[i] <= '9',
        number_of(decimal(n)) == n,
        n > 0 ==> decimal(n)[0] != '0',
    decreases n,
{
    reveal_with_fuel(number_of, 2);
    if n >= 10 {
        law_decimal(n / 10);
        assert(decimal(n).drop_last() =~= decimal(n / 10));
        assert(decimal(n)[0] == decimal(n / 10)[0]);
    } else {
        assert(decimal(n).drop_last() =~= Seq::empty());
    }
}

/// A name occurs as often as a multiset of the names counts it.
pub proof fn law_occurrences(names: Seq<Seq<char>>, name: Seq<char>)
    ensures
        occurrences(names, name) == names.to_multiset().count(name),
    decreases names.len(),
{
    broadcast use vstd::seq_lib::group_to_multiset_ensures;

    if names.len() > 0 {
        law_occurrences(names.drop_last(), name);
        assert(names =~= names.drop_last().push(names.last()));
        assert(names.to_multiset() =~= names.drop_last().to_multiset().insert(names.last()));
    }
}

} // verus!
