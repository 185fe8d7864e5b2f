//! The data frames that a dashboard is answered with.

use crate::dict::Dict;
use crate::metric::{ordered_points, point_list, series_view, MetricData, Series};
use crate::order::{ascending, law_ascending_exists, lists};
use crate::table::{
    all_finite, get_tab_data, has_sample, is_row, is_tab, law_rows_are_listed,
    law_sample_of_its_series, millis, ordered_times, row_times, sample_at, sample_seconds,
};
use std::collections::BTreeMap;
use vstd::prelude::*;

verus! {

/// What a column of a table holds.
#[derive(Clone, Copy, Debug, PartialEq, Eq, Structural)]
pub enum GrafanaTableColumnType {
    Time,
    Number,
}

/// A column of a table.
pub struct GrafanaDataTableColumnType {
    pub text: String,
    pub column_type: GrafanaTableColumnType,
}

/// A cell of a table: a time in milliseconds, or the sample of a metric, where it has one.
#[derive(Clone, Copy, Debug, PartialEq, Eq, Structural)]
pub enum TableCell {
    Time(u64),
    Sample(Option<bool>),
}

/// A part of an answer.
pub enum GrafanaDataFrameMessage {
    /// A series: values, each with its time in milliseconds.
    Data { target: String, datapoints: Vec<(i32, u64)> },
    /// A table of the samples of all metrics.
    Table {
        columns: Vec<GrafanaDataTableColumnType>,
        rows: Vec<Vec<TableCell>>,
        response_type: String,
    },
}

/// A part of an answer, as a mathematical value.
#[verifier::ext_equal]
pub enum Frame {
    Data { target: Seq<char>, datapoints: Seq<(i32, u64)> },
    Table {
        columns: Seq<(Seq<char>, GrafanaTableColumnType)>,
        rows: Seq<Seq<TableCell>>,
        response_type: Seq<char>,
    },
}

impl View for GrafanaDataFrameMessage {
    type V = Frame;

    open spec fn view(&self) -> Frame {
        match *self {
            GrafanaDataFrameMessage::Data { target, datapoints } => Frame::Data {
                target: target@,
                datapoints: datapoints@,
            },
            GrafanaDataFrameMessage::Table { columns, rows, response_type } => Frame::Table {
                columns: columns_view(columns@),
                rows: rows_view(rows@),
                response_type: response_type@,
            },
        }
    }
}

/// The texts and kinds of a list of columns.
pub open spec fn columns_view(columns: Seq<GrafanaDataTableColumnType>) -> Seq<
    (Seq<char>, GrafanaTableColumnType),
> {
    columns.map_values(|c: GrafanaDataTableColumnType| (c.text@, c.column_type))
}

/// The cells of a list of rows.
pub open spec fn rows_view(rows: Seq<Vec<TableCell>>) -> Seq<Seq<TableCell>> {
    rows.map_values(|r: Vec<TableCell>| r@)
}

/// The frames that a list of messages stands for.
pub open spec fn frames_view(frames: Seq<GrafanaDataFrameMessage>) -> Seq<Frame> {
    frames.map_values(|f: GrafanaDataFrameMessage| f@)
}

/// The datapoint for a sample: one where the metric is fulfilled, else zero.
pub open spec fn datapoint(point: (u32, bool)) -> (i32, u64) {
    (if point.1 {
        1
    } else {
        0
    }, millis(point.0))
}

/// The frame of a series, in the order of time.
pub open spec fn series_frame(series: Series) -> Frame {
    Frame::Data {
        target: series.target,
        datapoints: point_list(series.points).map_values(|p: (u32, bool)| datapoint(p)),
    }
}

/// The frames of all series.
pub open spec fn series_frames(data: Seq<Series>) -> Seq<Frame> {
    data.map_values(|s: Series| series_frame(s))
}

/// One frame for each series.
pub fn timeseries_frames(data: &Vec<MetricData>) -> (r: Vec<GrafanaDataFrameMessage>)
    ensures
        frames_view(r@) == series_frames(series_view(data@)),
{
    let mut frames: Vec<GrafanaDataFrameMessage> = Vec::new();
    let mut i: usize = 0;
    while i < data.len()
        invariant
            i <= data.len(),
            frames.len() == i,
            forall|k: int| 0 <= k < i ==> (#[trigger] frames[k])@ == series_frame(data[k]@),
        decreases data.len() - i,
    {
        let points: Vec<(u32, bool)> = ordered_points(&data[i].points);
        let mut datapoints: Vec<(i32, u64)> = Vec::new();
        let mut k: usize = 0;
        while k < points.len()
            invariant
                k <= points.len(),
                datapoints.len() == k,
                forall|j: int| 0 <= j < k ==> #[trigger] datapoints[j] == datapoint(points[j]),
            decreases points.len() - k,
        {
            let (second, fulfilled) = points[k];
            let value: i32 = if fulfilled {
                1
            } else {
                0
            };
            datapoints.push((value, second as u64 * 1000));
            k += 1;
        }
        assert(datapoints@ =~= points@.map_values(|p: (u32, bool)| datapoint(p)));
        frames.push(GrafanaDataFrameMessage::Data { target: data[i].target.clone(), datapoints });
        i += 1;
    }
    assert(frames_view(frames@) =~= series_frames(series_view(data@)));
    frames
}

/// The columns of a table: the time, and one for each series.
pub open spec fn table_columns(data: Seq<Series>) -> Seq<(Seq<char>, GrafanaTableColumnType)> {
    seq![("time"@, GrafanaTableColumnType::Time)] + data.map_values(
        |s: Series| (s.target, GrafanaTableColumnType::Number),
    )
}

/// The row of a table for a second: its time, and the samples of the series.
pub open spec fn table_row(data: Seq<Series>, second: u32) -> Seq<TableCell> {
    seq![TableCell::Time(millis(second))] + data.map_values(
        |s: Series| TableCell::Sample(sample_at(data, s.target, second)),
    )
}

/// The table of all series: a row for each second for which one of them has a sample.
pub open spec fn table_frame_of(data: Seq<Series>) -> Frame {
    Frame::Table {
        columns: table_columns(data),
        rows: ascending(sample_seconds(data)).map_values(|second: u32| table_row(data, second)),
        response_type: "table"@,
    }
}

/// The table of all series.
pub fn table_frame(data: Vec<MetricData>) -> (r: GrafanaDataFrameMessage)
    ensures
        r@ == table_frame_of(series_view(data@)),
{
    let ghost all = series_view(data@);
    let mut columns: Vec<GrafanaDataTableColumnType> = Vec::new();
    columns.push(
        GrafanaDataTableColumnType {
            text: "time".to_owned(),
            column_type: GrafanaTableColumnType::Time,
        },
    );
    let mut metrics: Vec<String> = Vec::new();
    let mut i: usize = 0;
    while i < data.len()
        invariant
            i <= data.len(),
            metrics.len() == i,
            columns.len() == i + 1,
            columns[0].text@ == "time"@,
            columns[0].column_type == GrafanaTableColumnType::Time,
            forall|k: int| 0 <= k < i ==> (#[trigger] metrics[k])@ == data[k].target@,
            forall|k: int|
                1 <= k < i + 1 ==> (#[trigger] columns[k]).text@ == data[k - 1].target@
                    && columns[k].column_type == GrafanaTableColumnType::Number,
        decreases data.len() - i,
    {
        metrics.push(data[i].target.clone());
        columns.push(
            GrafanaDataTableColumnType {
                text: data[i].target.clone(),
                column_type: GrafanaTableColumnType::Number,
            },
        );
        i += 1;
    }
    assert(columns_view(columns@) =~= table_columns(all));
    let tab: BTreeMap<u64, Dict<bool>> = get_tab_data(data);
    let times: Vec<u64> = ordered_times(&tab, Ghost(all));
    let ghost seconds = ascending(sample_seconds(all));
    let mut rows: Vec<Vec<TableCell>> = Vec::new();
    let mut n: usize = 0;
    while n < times.len()
        invariant
            n <= times.len(),
            rows.len() == n,
            is_tab(tab@, all),
            lists(seconds, sample_seconds(all)),
            times@ == row_times(all),
            seconds == ascending(sample_seconds(all)),
            metrics.len() == all.len(),
            forall|k: int| 0 <= k < metrics.len() ==> (#[trigger] metrics[k])@ == all[k].target,
            forall|k: int| 0 <= k < n ==> (#[trigger] rows[k])@ == table_row(all, seconds[k]),
        decreases times.len() - n,
    {
        let time: u64 = times[n];
        let ghost second = seconds[n as int];
        proof {
            assert(time == millis(second));
            assert(seconds.contains(second));
            assert(sample_seconds(all).contains(second));
            assert(tab@.contains_key(millis(second)));
        }
        let row: &Dict<bool> = tab.get(&time).unwrap();
        let mut cells: Vec<TableCell> = Vec::new();
        cells.push(TableCell::Time(time));
        let mut k: usize = 0;
        while k < metrics.len()
            invariant
                k <= metrics.len(),
                cells.len() == k + 1,
                cells[0] == TableCell::Time(millis(second)),
                is_row(row@, all, second),
                metrics.len() == all.len(),
                forall|j: int| 0 <= j < metrics.len() ==> (#[trigger] metrics[j])@ == all[j].target,
                forall|j: int|
                    1 <= j < k + 1 ==> #[trigger] cells[j] == TableCell::Sample(
                        sample_at(all, all[j - 1].target, second),
                    ),
            decreases metrics.len() - k,
        {
            let sample: Option<bool> = match row.get(metrics[k].as_str()) {
                Some(value) => Some(*value),
                None => None,
            };
            cells.push(TableCell::Sample(sample));
            k += 1;
        }
        assert(cells@ =~= table_row(all, second));
        rows.push(cells);
        n += 1;
    }
    assert(rows_view(rows@) =~= seconds.map_values(|second: u32| table_row(all, second)));
    GrafanaDataFrameMessage::Table { columns, rows, response_type: "table".to_owned() }
}

/// Each row of a table has a cell for each of its columns, and begins with its time.
pub proof fn law_table_is_rectangular(data: Seq<Series>, row: int)
    requires
        0 <= row < ascending(sample_seconds(data)).len(),
    ensures
        table_frame_of(data)->rows[row].len() == table_frame_of(data)->columns.len(),
        table_frame_of(data)->rows[row][0] == TableCell::Time(
            millis(ascending(sample_seconds(data))[row]),
        ),
{
}

/// The rows of a table ascend in time, and there is one for each second with a sample.
pub proof fn law_table_rows_ascend(data: Seq<Series>)
    requires
        all_finite(data),
    ensures
        forall|i: int, j: int|
            0 <= i < j < table_frame_of(data)->rows.len() ==> (
            #[trigger] table_frame_of(data)->rows[i])[0]->Time_0 < (
            #[trigger] table_frame_of(data)->rows[j])[0]->Time_0,
        forall|second: u32| #[trigger]
            has_sample(data, second) <==> table_frame_of(data)->rows.contains(
                table_row(data, second),
            ),
{
    let seconds = ascending(sample_seconds(data));
    let rows = table_frame_of(data)->rows;
    law_rows_are_listed(data);
    assert forall|second: u32| #[trigger] has_sample(data, second) <==> rows.contains(
        table_row(data, second),
    ) by {
        if has_sample(data, second) {
            assert(sample_seconds(data).contains(second));
            let i = seconds.index_of(second);
            assert(rows[i] == table_row(data, second));
        }
        if rows.contains(table_row(data, second)) {
            let i = rows.index_of(table_row(data, second));
            assert(rows[i][0] == TableCell::Time(millis(seconds[i])));
            assert(table_row(data, second)[0] == TableCell::Time(millis(second)));
            assert(seconds.contains(seconds[i]));
            assert(sample_seconds(data).contains(seconds[i]));
        }
    }
}

/// A table shows the same samples as the frames of its series: where no two series have the same
/// name, a cell holds a sample if and only if the frame of its series has the datapoint.
pub proof fn law_table_agrees_with_series(
    data: Seq<Series>,
    index: int,
    second: u32,
    fulfilled: bool,
)
    requires
        0 <= index < data.len(),
        all_finite(data),
        forall|i: int, j: int|
            0 <= i < j < data.len() ==> (#[trigger] data[i]).target != (#[trigger] data[j]).target,
    ensures
        table_row(data, second)[index + 1] == TableCell::Sample(Some(fulfilled))
            <==> series_frame(data[index])->datapoints.contains(datapoint((second, fulfilled))),
{
    let points = data[index].points;
    let seconds = ascending(points.dom());
    let datapoints = series_frame(data[index])->datapoints;
    law_sample_of_its_series(data, index, second);
    assert(data[index].points.dom().finite());
    law_ascending_exists(points.dom());
    if points.contains_key(second) && points[second] == fulfilled {
        assert(points.dom().contains(second));
        let i = seconds.index_of(second);
        assert(datapoints[i] == datapoint((second, fulfilled)));
    }
    if datapoints.contains(datapoint((second, fulfilled))) {
        let i = datapoints.index_of(datapoint((second, fulfilled)));
        assert(datapoints[i] == datapoint((seconds[i], points[seconds[i]])));
        assert(seconds.contains(seconds[i]));
        assert(points.dom().contains(seconds[i]));
    }
}

/// The datapoints of a series ascend in time.
pub proof fn law_datapoints_ascend(series: Series)
    requires
        series.points.dom().finite(),
    ensures
        forall|i: int, j: int|
            0 <= i < j < series_frame(series)->datapoints.len() ==> (
            #[trigger] series_frame(series)->datapoints[i]).1 < (
            #[trigger] series_frame(series)->datapoints[j]).1,
{
    law_ascending_exists(series.points.dom());
}

} // verus!
