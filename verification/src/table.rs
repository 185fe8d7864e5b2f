//! The samples of all series, by time.

use crate::dict::Dict;
use crate::metric::{ordered_points, point_list, series_view, MetricData, Series};
use crate::order::{ascending, law_ascending_exists, law_ascending_is_unique, lists};
use std::collections::BTreeMap;
use vstd::prelude::*;
use vstd::std_specs::cmp::OrdSpec;
use vstd::std_specs::iter::IteratorSpec;

verus! {

/// The second in milliseconds.
pub open spec fn millis(second: u32) -> u64 {
    (second * 1000) as u64
}

/// Whether one of the series has a sample for that second.
pub open spec fn has_sample(data: Seq<Series>, second: u32) -> bool {
    exists|i: int| 0 <= i < data.len() && (#[trigger] data[i]).points.contains_key(second)
}

/// The sample for that second in the last series of that name that has one.
pub open spec fn sample_at(data: Seq<Series>, target: Seq<char>, second: u32) -> Option<bool>
    decreases data.len(),
{
    if data.len() == 0 {
        None
    } else if data.last().target == target && data.last().points.contains_key(second) {
        Some(data.last().points[second])
    } else {
        sample_at(data.drop_last(), target, second)
    }
}

/// `row` binds each name to its sample for that second, and no name that has none.
pub open spec fn is_row(row: Map<Seq<char>, bool>, data: Seq<Series>, second: u32) -> bool {
    forall|target: Seq<char>|
        sample_at(data, target, second) == if #[trigger] row.contains_key(target) {
            Some(row[target])
        } else {
            None
        }
}

/// `tab` has a row for each second for which one of the series has a sample, and no other row.
pub open spec fn is_tab(tab: Map<u64, Dict<bool>>, data: Seq<Series>) -> bool {
    &&& forall|key: u64| #[trigger]
        tab.contains_key(key) ==> exists|second: u32| key == #[trigger] millis(second)
    &&& forall|second: u32|
        has_sample(data, second) <==> tab.contains_key(#[trigger] millis(second))
    &&& forall|second: u32|
        tab.contains_key(#[trigger] millis(second)) ==> is_row(
            tab[millis(second)]@,
            data,
            second,
        )
}

/// Different seconds are different milliseconds.
proof fn lemma_millis(a: u32, b: u32)
    ensures
        millis(a) == a * 1000,
        millis(a) == millis(b) ==> a == b,
{
}

/// A series without samples adds nothing to the table.
proof fn lemma_tab_begin(tab: Map<u64, Dict<bool>>, data: Seq<Series>, target: Seq<char>)
    requires
        is_tab(tab, data),
    ensures
        is_tab(tab, data.push(Series { target, points: Map::empty() })),
{
    let more = data.push(Series { target, points: Map::empty() });
    assert(more.drop_last() =~= data);
    assert forall|second: u32| has_sample(more, second) <==> has_sample(data, second) by {
        if has_sample(data, second) {
            let i = choose|i: int|
                0 <= i < data.len() && (#[trigger] data[i]).points.contains_key(second);
            assert(more[i].points.contains_key(second));
        }
        if has_sample(more, second) {
            let i = choose|i: int|
                0 <= i < more.len() && (#[trigger] more[i]).points.contains_key(second);
            assert(data[i].points.contains_key(second));
        }
    }
    assert forall|name: Seq<char>, second: u32|
        sample_at(more, name, second) == #[trigger] sample_at(data, name, second) by {}
}

/// One more sample of the last series changes its row as binding the name there does.
proof fn lemma_tab_step(
    tab: Map<u64, Dict<bool>>,
    data: Seq<Series>,
    target: Seq<char>,
    points: Map<u32, bool>,
    second: u32,
    value: bool,
    row: Dict<bool>,
)
    requires
        is_tab(tab, data.push(Series { target, points })),
        row@ == (if tab.contains_key(millis(second)) {
            tab[millis(second)]@
        } else {
            Map::<Seq<char>, bool>::empty()
        }).insert(target, value),
    ensures
        is_tab(
            tab.insert(millis(second), row),
            data.push(Series { target, points: points.insert(second, value) }),
        ),
{
    let less = data.push(Series { target, points });
    let more = data.push(Series { target, points: points.insert(second, value) });
    let new_tab = tab.insert(millis(second), row);
    assert(less.drop_last() =~= data);
    assert(more.drop_last() =~= data);
    assert forall|s: u32|
        has_sample(more, s) <==> new_tab.contains_key(#[trigger] millis(s)) by {
        lemma_millis(s, second);
        if has_sample(more, s) && s != second {
            let i = choose|i: int| 0 <= i < more.len() && (#[trigger] more[i]).points.contains_key(s);
            assert(less[i].points.contains_key(s));
            assert(has_sample(less, s));
        }
        if new_tab.contains_key(millis(s)) {
            if s == second {
                assert(more[data.len() as int].points.contains_key(s));
            } else {
                assert(has_sample(less, s));
                let i = choose|i: int|
                    0 <= i < less.len() && (#[trigger] less[i]).points.contains_key(s);
                assert(more[i].points.contains_key(s));
            }
        }
    }
    assert forall|s: u32| new_tab.contains_key(#[trigger] millis(s)) implies is_row(
        new_tab[millis(s)]@,
        more,
        s,
    ) by {
        lemma_millis(s, second);
        assert forall|name: Seq<char>|
            sample_at(more, name, s) == if #[trigger] new_tab[millis(s)]@.contains_key(name) {
                Some(new_tab[millis(s)]@[name])
            } else {
                None
            } by {
            if s != second {
                assert(sample_at(more, name, s) == sample_at(less, name, s));
                assert(tab[millis(s)]@.contains_key(name) || !tab[millis(s)]@.contains_key(name));
            } else if name != target {
                assert(sample_at(more, name, s) == sample_at(less, name, s));
                if tab.contains_key(millis(second)) {
                    assert(tab[millis(s)]@.contains_key(name) || !tab[millis(s)]@.contains_key(name));
                } else {
                    assert(!has_sample(less, s));
                    lemma_no_sample(less, name, s);
                }
            }
        }
    }
}

/// Where no series has a sample, none of any name has.
proof fn lemma_no_sample(data: Seq<Series>, target: Seq<char>, second: u32)
    requires
        !has_sample(data, second),
    ensures
        sample_at(data, target, second) is None,
    decreases data.len(),
{
    if data.len() > 0 {
        assert(!data[data.len() - 1].points.contains_key(second));
        assert forall|i: int| 0 <= i < data.drop_last().len() implies !(
        #[trigger] data.drop_last()[i]).points.contains_key(second) by {
            assert(!data[i].points.contains_key(second));
        }
        lemma_no_sample(data.drop_last(), target, second);
    }
}

/// The samples of all series, by the millisecond and by the name of the series.
pub fn get_tab_data(data: Vec<MetricData>) -> (r: BTreeMap<u64, Dict<bool>>)
    ensures
        is_tab(r@, series_view(data@)),
{
    let ghost all = series_view(data@);
    let mut tab: BTreeMap<u64, Dict<bool>> = BTreeMap::new();
    let mut i: usize = 0;
    while i < data.len()
        invariant
            i <= data.len(),
            all == series_view(data@),
            is_tab(tab@, all.take(i as int)),
        decreases data.len() - i,
    {
        let series: &MetricData = &data[i];
        let points: Vec<(u32, bool)> = ordered_points(&series.points);
        let ghost done = all.take(i as int);
        let ghost mut seen: Map<u32, bool> = Map::empty();
        proof {
            lemma_tab_begin(tab@, done, series.target@);
        }
        let mut k: usize = 0;
        while k < points.len()
            invariant
                k <= points.len(),
                points@ == point_list(series.points@),
                lists(ascending(series.points@.dom()), series.points@.dom()),
                is_tab(tab@, done.push(Series { target: series.target@, points: seen })),
                forall|second: u32| #[trigger]
                    seen.contains_key(second) <==> exists|j: int|
                        0 <= j < k && (#[trigger] points[j]).0 == second,
                forall|second: u32| #[trigger]
                    seen.contains_key(second) ==> series.points@.contains_key(second)
                        && seen[second] == series.points@[second],
            decreases points.len() - k,
        {
            let (second, value) = points[k];
            let time: u64 = second as u64 * 1000;
            let ghost before = tab@;
            assert(time == millis(second));
            assert(ascending(series.points@.dom()).contains(second));
            assert(series.points@.dom().contains(second));
            let mut row: Dict<bool> = match tab.remove(&time) {
                Some(row) => row,
                None => Dict::new(),
            };
            row.insert(series.target.clone(), value);
            proof {
                lemma_tab_step(before, done, series.target@, seen, second, value, row);
                seen = seen.insert(second, value);
                assert(before.remove(time).insert(time, row) =~= before.insert(time, row));
            }
            tab.insert(time, row);
            k += 1;
            proof {
                assert forall|s: u32| #[trigger] seen.contains_key(s) <==> exists|j: int|
                    0 <= j < k && (#[trigger] points[j]).0 == s by {
                    if seen.contains_key(s) {
                        if s == second {
                            assert(points[k - 1].0 == s);
                        }
                    }
                }
            }
        }
        proof {
            assert forall|s: u32| #[trigger] series.points@.contains_key(s) implies seen.contains_key(
                s,
            ) by {
                assert(series.points@.dom().contains(s));
                let j = ascending(series.points@.dom()).index_of(s);
                assert(points[j].0 == s);
            }
            assert(seen =~= series.points@);
            assert(all.take(i as int + 1) =~= done.push(series@));
        }
        i += 1;
    }
    assert(all.take(i as int) =~= all);
    tab
}

/// The seconds for which one of the series has a sample.
pub open spec fn sample_seconds(data: Seq<Series>) -> Set<u32> {
    Set::new(|second: u32| has_sample(data, second))
}

/// The seconds for which one of the series has a sample, in ascending order, in milliseconds.
pub open spec fn row_times(data: Seq<Series>) -> Seq<u64> {
    ascending(sample_seconds(data)).map_values(|second: u32| millis(second))
}

/// The times of the rows in ascending order.
pub(crate) fn ordered_times(tab: &BTreeMap<u64, Dict<bool>>, Ghost(data): Ghost<Seq<Series>>) -> (r:
    Vec<u64>)
    requires
        is_tab(tab@, data),
    ensures
        lists(ascending(sample_seconds(data)), sample_seconds(data)),
        r@ == row_times(data),
{
    let mut times: Vec<u64> = Vec::new();
    let iter = tab.iter();
    let ghost all = iter.remaining();
    let ghost keys = all.map_values(|kv: (&u64, &Dict<bool>)| *kv.0);
    assert forall|i: int, j: int| 0 <= i < j < all.len() implies *(#[trigger] all[i]).0 < *(
    #[trigger] all[j]).0 by {
        assert(keys[i] == *all[i].0);
        assert(keys[j] == *all[j].0);
        assert(keys[i].cmp_spec(&keys[j]) is Less);
    }
    for row in it: iter
        invariant
            it.seq() == all,
            times.len() == it.index(),
            forall|i: int| 0 <= i < times.len() ==> #[trigger] times[i] == *all[i].0,
    {
        times.push(*row.0);
    }
    proof {
        assert forall|time: u64| #[trigger] tab@.contains_key(time) <==> times@.contains(time) by {
            if tab@.contains_key(time) {
                let i = all.index_of((&time, &tab@[time]));
                assert(times[i] == time);
            }
            if times@.contains(time) {
                let i = times@.index_of(time);
                assert(tab@.contains_key(*all[i].0));
            }
        }
        lemma_row_times(tab@, data, times@);
    }
    times
}

/// The keys of the table in ascending order are the times of its rows.
proof fn lemma_row_times(tab: Map<u64, Dict<bool>>, data: Seq<Series>, times: Seq<u64>)
    requires
        is_tab(tab, data),
        forall|i: int, j: int| 0 <= i < j < times.len() ==> times[i] < times[j],
        forall|time: u64| #[trigger] tab.contains_key(time) <==> times.contains(time),
    ensures
        lists(ascending(sample_seconds(data)), sample_seconds(data)),
        times == row_times(data),
{
    let seconds = times.map_values(|time: u64| (time / 1000) as u32);
    let set = sample_seconds(data);
    assert forall|i: int| 0 <= i < times.len() implies #[trigger] times[i] == millis(seconds[i]) by {
        assert(times.contains(times[i]));
        assert(tab.contains_key(times[i]));
        let second = choose|second: u32| times[i] == #[trigger] millis(second);
        lemma_millis(second, second);
    }
    assert forall|i: int, j: int| 0 <= i < j < seconds.len() implies seconds[i] < seconds[j] by {
        assert(times[i] == millis(seconds[i]));
        assert(times[j] == millis(seconds[j]));
        lemma_millis(seconds[i], seconds[j]);
        lemma_millis(seconds[j], seconds[i]);
    }
    assert forall|second: u32| #[trigger] set.contains(second) <==> seconds.contains(second) by {
        lemma_millis(second, second);
        if set.contains(second) {
            assert(tab.contains_key(millis(second)));
            let i = times.index_of(millis(second));
            assert(times[i] == millis(second));
            assert(seconds[i] == second);
        }
        if seconds.contains(second) {
            let i = seconds.index_of(second);
            assert(times[i] == millis(seconds[i]));
            assert(times.contains(times[i]));
            assert(tab.contains_key(millis(second)));
        }
    }
    assert(lists(seconds, set));
    law_ascending_is_unique(seconds, set);
    assert(times =~= row_times(data));
}

/// Each series has finitely many points.
pub open spec fn all_finite(data: Seq<Series>) -> bool {
    forall|i: int| 0 <= i < data.len() ==> (#[trigger] data[i]).points.dom().finite()
}

/// There are finitely many seconds with a sample; in ascending order they are the rows' seconds.
pub proof fn law_rows_are_listed(data: Seq<Series>)
    requires
        all_finite(data),
    ensures
        lists(ascending(sample_seconds(data)), sample_seconds(data)),
{
    lemma_seconds_finite(data);
    law_ascending_exists(sample_seconds(data));
}

/// There are finitely many seconds with a sample.
proof fn lemma_seconds_finite(data: Seq<Series>)
    requires
        all_finite(data),
    ensures
        sample_seconds(data).finite(),
    decreases data.len(),
{
    if data.len() == 0 {
        assert(sample_seconds(data) =~= Set::empty());
    } else {
        let rest = data.drop_last();
        assert forall|i: int| 0 <= i < rest.len() implies (
        #[trigger] rest[i]).points.dom().finite() by {
            assert(data[i].points.dom().finite());
        }
        lemma_seconds_finite(rest);
        let last = data[data.len() - 1].points.dom();
        let all = sample_seconds(rest).union(last);
        assert forall|second: u32| sample_seconds(data).contains(second) == all.contains(second) by {
            if has_sample(data, second) {
                let i = choose|i: int|
                    0 <= i < data.len() && (#[trigger] data[i]).points.contains_key(second);
                if i < rest.len() {
                    assert(rest[i].points.contains_key(second));
                }
            }
            if has_sample(rest, second) {
                let i = choose|i: int|
                    0 <= i < rest.len() && (#[trigger] rest[i]).points.contains_key(second);
                assert(data[i].points.contains_key(second));
            }
            if last.contains(second) {
                assert(data[data.len() - 1].points.contains_key(second));
            }
        }
        assert(sample_seconds(data) =~= all);
    }
}

/// Where no two series have the same name, the sample for a second is that of the one series.
pub proof fn law_sample_of_its_series(data: Seq<Series>, index: int, second: u32)
    requires
        0 <= index < data.len(),
        forall|i: int, j: int|
            0 <= i < j < data.len() ==> (#[trigger] data[i]).target != (#[trigger] data[j]).target,
    ensures
        sample_at(data, data[index].target, second) == if data[index].points.contains_key(second) {
            Some(data[index].points[second])
        } else {
            None
        },
    decreases data.len(),
{
    let rest = data.drop_last();
    if index == data.len() - 1 {
        if !data[index].points.contains_key(second) {
            assert forall|i: int| 0 <= i < rest.len() implies (#[trigger] rest[i]).target
                != data[index].target by {
                assert(rest[i] == data[i]);
            }
            lemma_no_such_series(rest, data[index].target, second);
        }
    } else {
        assert(data[index].target != data[data.len() - 1].target);
        assert(rest[index] == data[index]);
        assert forall|i: int, j: int| 0 <= i < j < rest.len() implies (#[trigger] rest[i]).target
            != (#[trigger] rest[j]).target by {
            assert(rest[i] == data[i] && rest[j] == data[j]);
        }
        law_sample_of_its_series(rest, index, second);
    }
}

/// Where no series has that name, there is no sample of that name.
proof fn lemma_no_such_series(data: Seq<Series>, target: Seq<char>, second: u32)
    requires
        forall|i: int| 0 <= i < data.len() ==> (#[trigger] data[i]).target != target,
    ensures
        sample_at(data, target, second) is None,
    decreases data.len(),
{
    if data.len() > 0 {
        assert(data[data.len() - 1].target != target);
        assert forall|i: int| 0 <= i < data.drop_last().len() implies (
        #[trigger] data.drop_last()[i]).target != target by {
            assert(data.drop_last()[i] == data[i]);
        }
        lemma_no_such_series(data.drop_last(), target, second);
    }
}

/// A table of two lists of series shows the samples of the second, and where it has none, those of
/// the first.
pub proof fn law_later_series_go_first(
    first: Seq<Series>,
    second: Seq<Series>,
    target: Seq<char>,
    time: u32,
)
    ensures
        sample_at(first + second, target, time) == (match sample_at(second, target, time) {
            Some(sample) => Some(sample),
            None => sample_at(first, target, time),
        }),
        has_sample(first + second, time) <==> has_sample(first, time) || has_sample(second, time),
    decreases second.len(),
{
    let both = first + second;
    if second.len() == 0 {
        assert(both =~= first);
    } else {
        let rest = second.drop_last();
        law_later_series_go_first(first, rest, target, time);
        assert(both.drop_last() =~= first + rest);
        assert(both.last() == second.last());
    }
    if has_sample(both, time) {
        let i = choose|i: int|
            0 <= i < both.len() && (#[trigger] both[i]).points.contains_key(time);
        if i < first.len() {
            assert(first[i].points.contains_key(time));
        } else {
            assert(second[i - first.len()].points.contains_key(time));
        }
    }
    if has_sample(first, time) {
        let i = choose|i: int|
            0 <= i < first.len() && (#[trigger] first[i]).points.contains_key(time);
        assert(both[i].points.contains_key(time));
    }
    if has_sample(second, time) {
        let i = choose|i: int|
            0 <= i < second.len() && (#[trigger] second[i]).points.contains_key(time);
        assert(both[first.len() + i].points.contains_key(time));
    }
}

/// Where no two series have the same name, a table does not depend on their order.
pub proof fn law_order_of_series(
    one: Seq<Series>,
    other: Seq<Series>,
    target: Seq<char>,
    time: u32,
)
    requires
        forall|i: int, j: int|
            0 <= i < j < one.len() ==> (#[trigger] one[i]).target != (#[trigger] one[j]).target,
        forall|i: int, j: int|
            0 <= i < j < other.len() ==> (#[trigger] other[i]).target != (
            #[trigger] other[j]).target,
        forall|s: Series| one.contains(s) <==> #[trigger] other.contains(s),
    ensures
        sample_at(one, target, time) == sample_at(other, target, time),
        has_sample(one, time) <==> has_sample(other, time),
{
    if exists|i: int| 0 <= i < one.len() && (#[trigger] one[i]).target == target {
        let i = choose|i: int| 0 <= i < one.len() && (#[trigger] one[i]).target == target;
        assert(one.contains(one[i]));
        assert(other.contains(one[i]));
        let k = other.index_of(one[i]);
        law_sample_of_its_series(one, i, time);
        law_sample_of_its_series(other, k, time);
    } else {
        assert forall|k: int| 0 <= k < other.len() implies (#[trigger] other[k]).target
            != target by {
            assert(other.contains(other[k]));
            let i = one.index_of(other[k]);
            assert(one[i].target == other[k].target);
        }
        lemma_no_such_series(one, target, time);
        lemma_no_such_series(other, target, time);
    }
    if has_sample(one, time) {
        let i = choose|i: int| 0 <= i < one.len() && (#[trigger] one[i]).points.contains_key(time);
        assert(one.contains(one[i]));
        assert(other.contains(one[i]));
        let k = other.index_of(one[i]);
        assert(other[k].points.contains_key(time));
    }
    if has_sample(other, time) {
        let k = choose|k: int|
            0 <= k < other.len() && (#[trigger] other[k]).points.contains_key(time);
        assert(other.contains(other[k]));
        let i = one.index_of(other[k]);
        assert(one[i].points.contains_key(time));
    }
}

/// A table has a row for a time, in milliseconds, if and only if one of the series has a sample for
/// that second.
pub proof fn law_rows_of_tab(tab: Map<u64, Dict<bool>>, data: Seq<Series>, time: u64)
    requires
        is_tab(tab, data),
    ensures
        tab.contains_key(time) <==> exists|i: int, second: u32|
            0 <= i < data.len() && #[trigger] data[i].points.contains_key(second) && time == second
                * 1000,
{
    if tab.contains_key(time) {
        let second = choose|second: u32| time == #[trigger] millis(second);
        lemma_millis(second, second);
        assert(has_sample(data, second));
        let i = choose|i: int| 0 <= i < data.len() && (#[trigger] data[i]).points.contains_key(second);
        assert(data[i].points.contains_key(second));
    }
    if exists|i: int, second: u32|
        0 <= i < data.len() && #[trigger] data[i].points.contains_key(second) && time == second
            * 1000 {
        let (i, second) = choose|i: int, second: u32|
            0 <= i < data.len() && #[trigger] data[i].points.contains_key(second) && time == second
                * 1000;
        lemma_millis(second, second);
        assert(has_sample(data, second));
        assert(tab.contains_key(millis(second)));
    }
}

/// A row binds a name if and only if a series of that name has a sample for the second, and binds
/// it to the sample of the last of them.
pub proof fn law_cells_of_tab(
    tab: Map<u64, Dict<bool>>,
    data: Seq<Series>,
    second: u32,
    name: Seq<char>,
)
    requires
        is_tab(tab, data),
        tab.contains_key((second * 1000) as u64),
    ensures
        ({
            let row = tab[(second * 1000) as u64]@;
            &&& row.contains_key(name) <==> exists|i: int|
                0 <= i < data.len() && (#[trigger] data[i]).target == name
                    && data[i].points.contains_key(second)
            &&& forall|i: int|
                0 <= i < data.len() && (#[trigger] data[i]).target == name
                    && data[i].points.contains_key(second) && (forall|j: int|
                    i < j < data.len() && (#[trigger] data[j]).target == name
                        ==> !data[j].points.contains_key(second)) ==> row[name]
                    == data[i].points[second]
        }),
{
    lemma_millis(second, second);
    assert(is_row(tab[millis(second)]@, data, second));
    let row = tab[millis(second)]@;
    let sample = sample_at(data, name, second);
    assert(sample == if row.contains_key(name) {
        Some(row[name])
    } else {
        None
    });
    lemma_name_has_sample(data, name, second);
    assert forall|i: int|
        0 <= i < data.len() && (#[trigger] data[i]).target == name && data[i].points.contains_key(
            second,
        ) && (forall|j: int|
            i < j < data.len() && (#[trigger] data[j]).target == name
                ==> !data[j].points.contains_key(second)) implies row[name]
        == data[i].points[second] by {
        lemma_last_series(data, name, second, i);
        assert(sample == Some(data[i].points[second]));
    }
}

/// A name has a sample if and only if a series of that name has one.
proof fn lemma_name_has_sample(data: Seq<Series>, name: Seq<char>, second: u32)
    ensures
        sample_at(data, name, second) is Some <==> exists|i: int|
            0 <= i < data.len() && (#[trigger] data[i]).target == name
                && data[i].points.contains_key(second),
    decreases data.len(),
{
    if data.len() > 0 {
        let rest = data.drop_last();
        let last = data.len() - 1;
        lemma_name_has_sample(rest, name, second);
        assert(data[last] == data.last());
        if exists|i: int|
            0 <= i < data.len() && (#[trigger] data[i]).target == name
                && data[i].points.contains_key(second) {
            let i = choose|i: int|
                0 <= i < data.len() && (#[trigger] data[i]).target == name
                    && data[i].points.contains_key(second);
            if i < last {
                assert(rest[i] == data[i]);
            }
        }
        if sample_at(rest, name, second) is Some {
            let i = choose|i: int|
                0 <= i < rest.len() && (#[trigger] rest[i]).target == name
                    && rest[i].points.contains_key(second);
            assert(data[i] == rest[i]);
        }
    }
}

/// The sample of a name is that of the last series of that name that has one.
proof fn lemma_last_series(data: Seq<Series>, name: Seq<char>, second: u32, index: int)
    requires
        0 <= index < data.len(),
        data[index].target == name,
        data[index].points.contains_key(second),
        forall|j: int|
            index < j < data.len() && (#[trigger] data[j]).target == name
                ==> !data[j].points.contains_key(second),
    ensures
        sample_at(data, name, second) == Some(data[index].points[second]),
    decreases data.len(),
{
    let rest = data.drop_last();
    let last = data.len() - 1;
    assert(data[last] == data.last());
    if index < last {
        assert(rest[index] == data[index]);
        assert forall|j: int|
            index < j < rest.len() && (#[trigger] rest[j]).target
                == name implies !rest[j].points.contains_key(second) by {
            assert(rest[j] == data[j]);
        }
        lemma_last_series(rest, name, second, index);
    }
}

} // verus!
