use cloudmon_metrics::frame::{
    table_frame, timeseries_frames, GrafanaDataFrameMessage, GrafanaTableColumnType, TableCell,
};
use cloudmon_metrics::metric::MetricData;
use cloudmon_metrics::table::get_tab_data;

fn series(target: &str, points: &[(u32, bool)]) -> MetricData {
    MetricData {
        target: target.to_string(),
        points: points.iter().cloned().collect(),
    }
}

fn two() -> Vec<MetricData> {
    vec![
        series("b", &[(20, true), (10, false)]),
        series("a", &[(30, true), (20, false)]),
    ]
}

fn table(data: Vec<MetricData>) -> (Vec<(String, GrafanaTableColumnType)>, Vec<Vec<TableCell>>) {
    match table_frame(data) {
        GrafanaDataFrameMessage::Table { columns, rows, response_type } => {
            assert_eq!(response_type, "table");
            (
                columns.into_iter().map(|c| (c.text, c.column_type)).collect(),
                rows,
            )
        }
        GrafanaDataFrameMessage::Data { .. } => panic!("not a table"),
    }
}

#[test]
fn tab_has_a_row_for_each_second_with_a_sample() {
    let tab = get_tab_data(two());
    let times: Vec<u64> = tab.keys().cloned().collect();
    assert_eq!(times, vec![10_000, 20_000, 30_000]);
    assert_eq!(tab[&10_000].get("b"), Some(&false));
    assert_eq!(tab[&10_000].get("a"), None);
    assert_eq!(tab[&20_000].get("b"), Some(&true));
    assert_eq!(tab[&20_000].get("a"), Some(&false));
    assert_eq!(tab[&30_000].len(), 1);
}

#[test]
fn tab_times_do_not_wrap() {
    let tab = get_tab_data(vec![series("a", &[(u32::MAX, true)])]);
    assert_eq!(tab.keys().cloned().collect::<Vec<u64>>(), vec![4_294_967_295_000]);
}

#[test]
fn tab_takes_the_last_series_of_a_name() {
    let tab = get_tab_data(vec![
        series("a", &[(1, true), (2, true)]),
        series("a", &[(1, false)]),
    ]);
    assert_eq!(tab[&1000].get("a"), Some(&false));
    assert_eq!(tab[&2000].get("a"), Some(&true));
}

#[test]
fn tab_of_nothing_is_empty() {
    assert!(get_tab_data(vec![]).is_empty());
    assert!(get_tab_data(vec![series("a", &[])]).is_empty());
}

#[test]
fn table_shows_all_series_by_time() {
    let (columns, rows) = table(two());
    assert_eq!(
        columns,
        vec![
            ("time".to_string(), GrafanaTableColumnType::Time),
            ("b".to_string(), GrafanaTableColumnType::Number),
            ("a".to_string(), GrafanaTableColumnType::Number),
        ]
    );
    assert_eq!(
        rows,
        vec![
            vec![
                TableCell::Time(10_000),
                TableCell::Sample(Some(false)),
                TableCell::Sample(None),
            ],
            vec![
                TableCell::Time(20_000),
                TableCell::Sample(Some(true)),
                TableCell::Sample(Some(false)),
            ],
            vec![
                TableCell::Time(30_000),
                TableCell::Sample(None),
                TableCell::Sample(Some(true)),
            ],
        ]
    );
}

#[test]
fn table_is_rectangular_and_ascends() {
    let (columns, rows) = table(two());
    for row in rows.iter() {
        assert_eq!(row.len(), columns.len());
    }
    for pair in rows.windows(2) {
        match (pair[0][0], pair[1][0]) {
            (TableCell::Time(a), TableCell::Time(b)) => assert!(a < b),
            _ => panic!("a row begins with its time"),
        }
    }
}

#[test]
fn table_of_nothing_has_a_time_column() {
    let (columns, rows) = table(vec![]);
    assert_eq!(columns, vec![("time".to_string(), GrafanaTableColumnType::Time)]);
    assert!(rows.is_empty());
    let (columns, rows) = table(vec![series("a", &[])]);
    assert_eq!(columns.len(), 2);
    assert!(rows.is_empty());
}

#[test]
fn series_are_shown_in_the_order_of_time() {
    let frames = timeseries_frames(&two());
    assert_eq!(frames.len(), 2);
    match &frames[0] {
        GrafanaDataFrameMessage::Data { target, datapoints } => {
            assert_eq!(target, "b");
            assert_eq!(*datapoints, vec![(0, 10_000), (1, 20_000)]);
        }
        _ => panic!("not a series"),
    }
    match &frames[1] {
        GrafanaDataFrameMessage::Data { target, datapoints } => {
            assert_eq!(target, "a");
            assert_eq!(*datapoints, vec![(0, 20_000), (1, 30_000)]);
        }
        _ => panic!("not a series"),
    }
    assert!(timeseries_frames(&vec![]).is_empty());
}

#[test]
fn series_without_samples_have_an_empty_frame() {
    match &timeseries_frames(&vec![series("a", &[])])[0] {
        GrafanaDataFrameMessage::Data { target, datapoints } => {
            assert_eq!(target, "a");
            assert!(datapoints.is_empty());
        }
        _ => panic!("not a series"),
    }
}

#[test]
fn table_and_series_show_the_same_samples() {
    let (_, rows) = table(two());
    for (column, frame) in timeseries_frames(&two()).iter().enumerate() {
        let shown: Vec<(i32, u64)> = rows
            .iter()
            .filter_map(|row| match (row[0], row[column + 1]) {
                (TableCell::Time(time), TableCell::Sample(Some(b))) => Some((b as i32, time)),
                _ => None,
            })
            .collect();
        match frame {
            GrafanaDataFrameMessage::Data { datapoints, .. } => assert_eq!(*datapoints, shown),
            _ => panic!("not a series"),
        }
    }
}

#[test]
fn tab_does_not_depend_on_the_order_of_series() {
    let mut turned = two();
    turned.reverse();
    let (one, other) = (get_tab_data(two()), get_tab_data(turned));
    assert_eq!(one.len(), other.len());
    for (time, row) in one.iter() {
        for name in ["a", "b"] {
            assert_eq!(row.get(name), other[time].get(name));
        }
    }
}

#[test]
fn tab_of_two_lists_shows_the_second_first() {
    let mut both = two();
    both.push(series("b", &[(20, false), (40, true)]));
    let tab = get_tab_data(both);
    assert_eq!(tab[&10_000].get("b"), Some(&false));
    assert_eq!(tab[&20_000].get("b"), Some(&false));
    assert_eq!(tab[&20_000].get("a"), Some(&false));
    assert_eq!(tab[&40_000].get("b"), Some(&true));
}
