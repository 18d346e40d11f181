use point_cloud::conversion::{FileConversionStatus, FilesToConvert};

#[test]
fn files_are_converted_one_after_the_other() {
    let mut files = FilesToConvert::new(2);
    assert_eq!(files.len(), 2);
    assert!(matches!(files.status(0), FileConversionStatus::NotStarted));
    assert!(files.next());
    files.start(10);
    assert!(matches!(files.status(0), FileConversionStatus::Converting { total: 10, remaining: 10 }));
    files.points_added(4);
    assert!(matches!(files.status(0), FileConversionStatus::Converting { total: 10, remaining: 6 }));
    files.points_added(-1);
    assert!(matches!(files.status(0), FileConversionStatus::Converting { total: 10, remaining: 7 }));
    files.finish();
    assert!(matches!(files.status(0), FileConversionStatus::Finished));
    assert!(files.next());
    files.unsupported();
    match files.status(1) {
        FileConversionStatus::Failed { error, total, remaining } => {
            assert_eq!(error, "File type not supported");
            assert_eq!((*total, *remaining), (0, 0));
        }
        other => panic!("unexpected status {:?}", other),
    }
    assert!(!files.next());
}

#[test]
fn failed_batch_keeps_counts_and_points_still_count_down() {
    let mut files = FilesToConvert::new(1);
    files.next();
    files.start(5);
    files.points_added(2);
    files.batch_failed("broken".to_string());
    files.points_added(7);
    match files.status(0) {
        FileConversionStatus::Failed { error, total, remaining } => {
            assert_eq!(error, "broken");
            assert_eq!(*total, 5);
            // 3 - 7 wraps around below zero.
            assert_eq!(*remaining, u64::MAX - 3);
        }
        other => panic!("unexpected status {:?}", other),
    }
}
