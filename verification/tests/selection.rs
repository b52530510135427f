use rbedic::selection::{Answer, SelectedRow, SelectionSignal, TextSource};

fn row(history_mode: bool, shown: bool, bookmarked: bool) -> SelectedRow {
    SelectedRow { history_mode, shown, bookmarked }
}

#[test]
fn signal_starts_idle_and_wires() {
    let signal = SelectionSignal::new();
    assert_eq!(signal, SelectionSignal::Idle);
    assert!(signal.wires_handler());
    assert!(SelectionSignal::Active.wires_handler());
    assert!(!SelectionSignal::PendingSuppressed.wires_handler());
}

#[test]
fn bookmarked_row_shows_the_bookmark_and_cannot_be_added() {
    for signal in [SelectionSignal::Idle, SelectionSignal::Active, SelectionSignal::PendingSuppressed] {
        assert_eq!(
            signal.on_row_selected(row(false, true, true)),
            Answer { signal, text: TextSource::Bookmarked, add_enabled: Some(false) }
        );
    }
}

#[test]
fn row_that_is_not_bookmarked_can_be_added_and_suppresses_wiring() {
    assert_eq!(
        SelectionSignal::Idle.on_row_selected(row(false, true, false)),
        Answer {
            signal: SelectionSignal::PendingSuppressed,
            text: TextSource::Shown,
            add_enabled: Some(true),
        }
    );
    assert_eq!(
        SelectionSignal::Active.on_row_selected(row(false, false, false)),
        Answer {
            signal: SelectionSignal::PendingSuppressed,
            text: TextSource::Nothing,
            add_enabled: Some(true),
        }
    );
}

#[test]
fn row_of_the_history_list_leaves_the_button_and_suppresses_wiring() {
    assert_eq!(
        SelectionSignal::Active.on_row_selected(row(true, true, true)),
        Answer { signal: SelectionSignal::PendingSuppressed, text: TextSource::Shown, add_enabled: None }
    );
    assert_eq!(
        SelectionSignal::Idle.on_row_selected(row(true, false, false)),
        Answer {
            signal: SelectionSignal::PendingSuppressed,
            text: TextSource::Nothing,
            add_enabled: None,
        }
    );
    assert_eq!(
        SelectionSignal::Idle.on_row_selected(row(true, true, false)),
        Answer { signal: SelectionSignal::PendingSuppressed, text: TextSource::Shown, add_enabled: None }
    );
}

#[test]
fn bookmarked_row_that_is_not_shown_suppresses_wiring() {
    assert_eq!(
        SelectionSignal::Idle.on_row_selected(row(false, false, true)),
        Answer {
            signal: SelectionSignal::PendingSuppressed,
            text: TextSource::Bookmarked,
            add_enabled: Some(false),
        }
    );
}

#[test]
fn suppression_lasts_until_a_record_is_added() {
    let mut signal = SelectionSignal::new();
    signal = signal.on_row_selected(row(false, true, false)).signal;
    assert!(!signal.wires_handler());
    for history_mode in [false, true] {
        for shown in [false, true] {
            for bookmarked in [false, true] {
                signal = signal.on_row_selected(row(history_mode, shown, bookmarked)).signal;
                assert!(!signal.wires_handler());
            }
        }
    }
    signal = signal.on_record_added();
    assert_eq!(signal, SelectionSignal::Active);
    assert!(signal.wires_handler());
}

#[test]
fn unreadable_row_makes_the_next_list_wire() {
    let signal = SelectionSignal::PendingSuppressed.on_unreadable_row();
    assert_eq!(signal, SelectionSignal::Active);
    assert!(signal.wires_handler());
    assert_eq!(SelectionSignal::Idle.on_unreadable_row(), SelectionSignal::Active);
}
