use pinot_segment::scan::{batch_ranges, projected_columns, selected_names, BatchRange, BATCH_SIZE};
use pinot_segment::SegmentMetadata;

#[test]
fn batches_cover_every_row_once() {
    for &total in &[0usize, 1, 8191, 8192, 8193, 20000, 3 * 8192] {
        let batches = batch_ranges(total);
        let mut next = 0;
        for b in &batches {
            assert_eq!(b.offset, next);
            assert!(b.len > 0 && b.len <= BATCH_SIZE);
            next += b.len;
        }
        assert_eq!(next, total);
    }
}

#[test]
fn batches_of_twenty_thousand_rows() {
    assert_eq!(
        batch_ranges(20000),
        vec![
            BatchRange { offset: 0, len: 8192 },
            BatchRange { offset: 8192, len: 8192 },
            BatchRange { offset: 16384, len: 3616 },
        ]
    );
    assert!(batch_ranges(0).is_empty());
}

#[test]
fn table_rows_add_up_over_segments() {
    let totals = [97889usize, 0, 5, 8192];
    let rows: usize = totals
        .iter()
        .map(|&t| batch_ranges(t).iter().map(|b| b.len).sum::<usize>())
        .sum();
    assert_eq!(rows, totals.iter().sum::<usize>());
}

#[test]
fn projections() {
    assert_eq!(projected_columns(3, &None), Some(vec![0, 1, 2]));
    assert_eq!(projected_columns(3, &Some(vec![2, 0])), Some(vec![2, 0]));
    assert_eq!(projected_columns(3, &Some(vec![])), Some(vec![]));
    assert_eq!(projected_columns(3, &Some(vec![3])), None);
}

#[test]
fn selected_column_names() {
    let m = SegmentMetadata::parse(
        "segment.name=s\nsegment.table.name=t\nsegment.total.docs=1\ncolumns=a,b,c\n\
column.a.dataType=INT\ncolumn.b.dataType=LONG\ncolumn.c.dataType=STRING\n",
    )
    .unwrap();
    let sel = projected_columns(m.columns.len(), &Some(vec![2, 0])).unwrap();
    assert_eq!(selected_names(&m.columns, &sel), vec!["c".to_string(), "a".to_string()]);
}
