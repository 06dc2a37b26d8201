use grouped_by_period::{
    Date, Dated, Period, Week, GroupedByMonth, GroupedByPeriod, GroupedByQuarter, GroupedByWeek, GroupedByYear,
};

#[derive(PartialEq, Debug, Clone, Copy)]
struct Entry(usize, Date);

impl Dated for Entry {
    fn date_of(&self) -> Date {
        self.1
    }

    fn occurred_on(&self) -> Date {
        self.1
    }
}

fn date(year: i32, month: u32, day: u32) -> Date {
    Date::from_ymd(year, month, day).unwrap()
}

#[test]
fn test_grouping_values_by_week() {
    let entry1 = Entry(1, date(2023, 1, 13));
    let entry2 = Entry(2, date(2023, 1, 13));
    let entry3 = Entry(3, date(2023, 1, 19));

    let grouping: GroupedByWeek<Entry> = GroupedByPeriod::new(&[entry1, entry2, entry3]).unwrap();

    assert_eq!(grouping.get(&date(2023, 1, 8)).unwrap(), &[entry1, entry2]);

    assert_eq!(grouping.get(&date(2023, 1, 15)).unwrap(), &[entry3]);
}

#[test]
fn test_grouping_values_by_month() {
    let entry1 = Entry(1, date(2023, 1, 13));
    let entry2 = Entry(2, date(2023, 1, 13));
    let entry3 = Entry(3, date(2023, 2, 19));

    let grouping: GroupedByMonth<Entry> = GroupedByPeriod::new(&[entry1, entry2, entry3]).unwrap();

    assert_eq!(grouping.get(&date(2023, 1, 1)).unwrap(), &[entry1, entry2]);
    assert_eq!(grouping.get(&date(2023, 2, 1)).unwrap(), &[entry3]);
}

#[test]
fn test_grouping_values_by_quarter() {
    let entry1 = Entry(1, date(2023, 1, 13));
    let entry2 = Entry(2, date(2023, 2, 13));
    let entry3 = Entry(2, date(2023, 2, 13));
    let entry4 = Entry(3, date(2023, 5, 19));

    let grouping: GroupedByQuarter<Entry> =
        GroupedByPeriod::new(&[entry1, entry2, entry3, entry4]).unwrap();

    assert_eq!(
        grouping.get(&date(2023, 1, 1)).unwrap(),
        &[entry1, entry2, entry3]
    );
    assert_eq!(grouping.get(&date(2023, 4, 1)).unwrap(), &[entry4]);
}

#[test]
fn test_iter() {
    let entry1 = Entry(1, date(2023, 1, 13));
    let entry2 = Entry(2, date(2023, 2, 13));
    let entry3 = Entry(2, date(2023, 2, 13));

    let grouping: GroupedByQuarter<Entry> =
        GroupedByPeriod::new(&[entry1, entry2, entry3]).unwrap();

    let mut run = false;

    for (date_val, values) in grouping.entries() {
        assert_eq!(date_val, date(2023, 1, 1));
        assert_eq!(values, &vec![entry1, entry2, entry3]);
        run = true;
    }

    assert!(run);
}

#[test]
fn test_into_iter() {
    let entry1 = Entry(1, date(2023, 1, 13));
    let entry2 = Entry(2, date(2023, 2, 13));
    let entry3 = Entry(2, date(2023, 2, 13));

    let grouping: GroupedByQuarter<Entry> =
        GroupedByPeriod::new(&[entry1, entry2, entry3]).unwrap();

    let mut run = false;

    for (date_val, values) in grouping.into_entries() {
        assert_eq!(date_val, date(2023, 1, 1));
        assert_eq!(values, vec![entry1, entry2, entry3]);
        run = true;
    }

    assert!(run);
}

#[test]
fn empty_input_gives_empty_grouping() {
    let grouping: GroupedByMonth<Entry> = GroupedByPeriod::new(&[]).unwrap();
    assert_eq!(grouping.len(), 0);
    assert!(grouping.keys().is_empty());
    assert!(grouping.get(&date(2023, 1, 13)).is_none());
    assert!(grouping.entries().is_empty());
    assert!(grouping.into_entries().is_empty());
}

#[test]
fn empty_periods_get_empty_buckets() {
    let a = Entry(1, date(2023, 1, 31));
    let b = Entry(2, date(2023, 4, 2));
    let grouping: GroupedByMonth<Entry> = GroupedByPeriod::new(&[b, a]).unwrap();
    assert_eq!(
        grouping.keys(),
        &vec![date(2023, 1, 1), date(2023, 2, 1), date(2023, 3, 1), date(2023, 4, 1)]
    );
    assert_eq!(grouping.get(&date(2023, 1, 20)).unwrap(), &[a]);
    assert!(grouping.get(&date(2023, 2, 14)).unwrap().is_empty());
    assert!(grouping.get(&date(2023, 3, 31)).unwrap().is_empty());
    assert_eq!(grouping.get(&date(2023, 4, 30)).unwrap(), &[b]);
    assert!(grouping.get(&date(2023, 5, 1)).is_none());
    assert!(grouping.get(&date(2022, 12, 31)).is_none());
}

#[test]
fn unsorted_records_keep_their_order_within_a_bucket() {
    let a = Entry(1, date(2024, 12, 30));
    let b = Entry(2, date(2023, 3, 1));
    let c = Entry(3, date(2024, 1, 1));
    let d = Entry(4, date(2023, 12, 31));
    let grouping: GroupedByYear<Entry> = GroupedByPeriod::new(&[a, b, c, d]).unwrap();
    let entries = grouping.into_entries();
    assert_eq!(entries.len(), 2);
    assert_eq!(entries[0], (date(2023, 1, 1), vec![b, d]));
    assert_eq!(entries[1], (date(2024, 1, 1), vec![a, c]));
}

#[test]
fn every_record_lands_in_exactly_one_bucket() {
    let records: Vec<Entry> = vec![
        Entry(1, date(2023, 1, 1)),
        Entry(2, date(2023, 1, 7)),
        Entry(3, date(2023, 1, 8)),
        Entry(4, date(2022, 12, 31)),
        Entry(5, date(2023, 2, 28)),
        Entry(6, date(2023, 1, 14)),
    ];
    let grouping: GroupedByWeek<Entry> = GroupedByPeriod::new(&records).unwrap();
    let entries = grouping.entries();
    let total: usize = entries.iter().map(|(_, b)| b.len()).sum();
    assert_eq!(total, records.len());
    for r in &records {
        let holding = entries.iter().filter(|(_, b)| b.contains(r)).count();
        assert_eq!(holding, 1);
    }
    for (i, (key, bucket)) in entries.iter().enumerate() {
        let next = Week::advance(key).unwrap();
        if i + 1 < entries.len() {
            assert_eq!(entries[i + 1].0, next);
        }
        for r in bucket.iter() {
            assert!(!r.1.is_before(key));
            assert!(r.1.is_before(&next));
        }
    }
    assert_eq!(entries[0].0, date(2022, 12, 25));
    assert_eq!(entries.last().unwrap().0, date(2023, 2, 26));
}

#[test]
fn lookup_projects_to_the_period_start() {
    let a = Entry(1, date(2023, 5, 10));
    let b = Entry(2, date(2023, 8, 10));
    let grouping: GroupedByQuarter<Entry> = GroupedByPeriod::new(&[a, b]).unwrap();
    assert_eq!(grouping.get(&date(2023, 4, 1)).unwrap(), &[a]);
    assert_eq!(grouping.get(&date(2023, 6, 30)).unwrap(), &[a]);
    assert_eq!(grouping.get(&date(2023, 7, 1)).unwrap(), &[b]);
    assert_eq!(grouping.get(&date(2023, 9, 30)).unwrap(), &[b]);
    assert!(grouping.get(&date(2023, 10, 1)).is_none());
}

#[test]
fn single_quarter_has_one_bucket() {
    let a = Entry(1, date(2023, 1, 13));
    let b = Entry(2, date(2023, 2, 13));
    let c = Entry(3, date(2023, 3, 31));
    let grouping: GroupedByQuarter<Entry> = GroupedByPeriod::new(&[a, b, c]).unwrap();
    assert_eq!(grouping.len(), 1);
    let by_ref = grouping.entries();
    assert_eq!(by_ref.len(), 1);
    assert_eq!(by_ref[0].0, date(2023, 1, 1));
    assert_eq!(by_ref[0].1, &vec![a, b, c]);
    let owned = grouping.into_entries();
    assert_eq!(owned, vec![(date(2023, 1, 1), vec![a, b, c])]);
}

#[test]
fn walk_past_the_last_year_fails() {
    let last = Entry(1, date(262141, 12, 31));
    assert!(GroupedByYear::<Entry>::new(&[last]).is_none());
    assert!(GroupedByMonth::<Entry>::new(&[last]).is_none());
    let earlier = Entry(2, date(262141, 6, 1));
    assert!(GroupedByMonth::<Entry>::new(&[earlier]).is_some());
}

#[test]
fn walk_before_the_first_year_fails() {
    // the first day of the earliest year is a Friday, so its week starts
    // in the year before
    let first = Entry(1, date(-262142, 1, 1));
    assert!(GroupedByWeek::<Entry>::new(&[first]).is_none());
    assert!(GroupedByMonth::<Entry>::new(&[first]).is_some());
}
