use duplicant::progress::Progress;

#[test]
fn shares_are_rounded_down() {
    let progress = Progress { submitted: 2, total: 3, queued: 1 };
    assert_eq!(progress.submitted_percent(), 66);
    assert_eq!(progress.finished_percent(), 33);
    assert_eq!(progress.remaining(), 1);
}

#[test]
fn more_queued_than_submitted_means_nothing_is_finished() {
    let progress = Progress { submitted: 1, total: 4, queued: 2 };
    assert_eq!(progress.submitted_percent(), 25);
    assert_eq!(progress.finished_percent(), 0);
}

#[test]
fn at_the_end_both_shares_are_whole() {
    let progress = Progress { submitted: 7, total: 7, queued: 0 };
    assert_eq!(progress.submitted_percent(), 100);
    assert_eq!(progress.finished_percent(), 100);
    assert_eq!(progress.remaining(), 0);
}

#[test]
fn the_time_left_is_unknown_at_first() {
    let progress = Progress { submitted: 0, total: 7, queued: 0 };
    assert_eq!(progress.eta_text(9420, 0), "??");
}

#[test]
fn the_time_left_is_written_for_people() {
    let progress = Progress { submitted: 1, total: 7, queued: 0 };
    assert_eq!(progress.eta_text(9420, 0), "2h 37m");
    assert_eq!(progress.eta_text(0, 32_000_000), "32ms");
    assert_eq!(progress.eta_text(0, 0), "0s");
}
