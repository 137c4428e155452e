use outliers::{Label, Outliers, Report, ReportLine};

#[test]
fn report_is_silent_without_outliers() {
    assert_eq!(Outliers::classify(&[1, 1, 1, 1]).unwrap().report(), None);
    assert_eq!(Outliers::classify(&[1, 2, 3, 4]).unwrap().report(), None);
    assert_eq!(Outliers::with_thresholds(&[], (0, 0, 0, 0)).report(), None);
}

#[test]
fn report_counts_the_single_outlier() {
    let o = Outliers::classify(&[1, 2, 3, 4, 5, 6, 7, 8, 9, 100]).unwrap();
    assert_eq!(
        o.report(),
        Some(Report {
            total: 1,
            sample_size: 10,
            lines: vec![ReportLine { count: 1, label: Label::HighSevere }],
        })
    );
}

#[test]
fn report_lists_classes_in_fixed_order_and_skips_empty_ones() {
    let o = Outliers::classify(&[6, 11, 14, 11, 11, 11, 20, 11]).unwrap();
    assert_eq!(
        o.report(),
        Some(Report {
            total: 3,
            sample_size: 8,
            lines: vec![
                ReportLine { count: 1, label: Label::LowSevere },
                ReportLine { count: 1, label: Label::HighMild },
                ReportLine { count: 1, label: Label::HighSevere },
            ],
        })
    );
}

#[test]
fn report_has_a_line_for_every_class_of_outliers() {
    let sample = [9, -9, 0, 5, -5, 9, 3, -3, -9, 5, 9];
    let o = Outliers::with_thresholds(&sample, (-48, -24, 24, 48));
    assert_eq!(
        o.report(),
        Some(Report {
            total: 8,
            sample_size: 11,
            lines: vec![
                ReportLine { count: 2, label: Label::LowSevere },
                ReportLine { count: 1, label: Label::LowMild },
                ReportLine { count: 2, label: Label::HighMild },
                ReportLine { count: 3, label: Label::HighSevere },
            ],
        })
    );
}

#[test]
fn report_without_normal_values() {
    let o = Outliers::with_thresholds(&[4, 4], (0, 0, 8, 16));
    assert_eq!(
        o.report(),
        Some(Report {
            total: 2,
            sample_size: 2,
            lines: vec![ReportLine { count: 2, label: Label::HighSevere }],
        })
    );
}

#[test]
fn labels_have_their_words() {
    assert_eq!(Label::LowSevere.text(), "low severe");
    assert_eq!(Label::LowMild.text(), "low mild");
    assert_eq!(Label::Normal.text(), "normal");
    assert_eq!(Label::HighMild.text(), "high mild");
    assert_eq!(Label::HighSevere.text(), "high severe");
}
