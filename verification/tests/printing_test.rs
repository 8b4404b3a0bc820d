use chrono::TimeZone;
use chrono::Utc;
use todo::model::task::Timestamp;
use todo::printing::task_text;
use todo::printing::Action;
use todo::printing::BriefPrintableTask;
use todo::printing::Key;
use todo::printing::LogDate;
use todo::printing::PrintableError;
use todo::printing::PrintableTask;
use todo::printing::PrintableWarning;
use todo::printing::PrintingContext;
use todo::printing::Status::{Blocked, Complete, Incomplete};

fn ymdhms(y: i32, mo: u32, d: u32, h: u32, mi: u32, s: u32) -> Timestamp {
    let t = Utc.with_ymd_and_hms(y, mo, d, h, mi, s).unwrap();
    Timestamp::from_secs_nanos(t.timestamp(), t.timestamp_subsec_nanos())
}

fn plus(t: Timestamp, secs: i64) -> Timestamp {
    Timestamp { nanos: t.nanos + secs as i128 * 1_000_000_000 }
}

fn make_printing_context() -> PrintingContext {
    PrintingContext { max_index_digits: 3, width: 80, now: Timestamp::now() }
}

fn now_context(now: Timestamp) -> PrintingContext {
    PrintingContext { max_index_digits: 3, width: 80, now }
}

// What a printer for terminals writes for a task: its text and a newline.
fn print_task_with_context(context: PrintingContext, task: &PrintableTask) -> String {
    let mut text = task_text(task, &context, None).unwrap();
    text.push('\n');
    text
}

fn print_task(task: &PrintableTask) -> String {
    print_task_with_context(make_printing_context(), task)
}

fn warning_text(w: PrintableWarning) -> String {
    w.text().unwrap()
}

fn error_text(e: PrintableError) -> String {
    e.text()
}

#[test]
fn fmt_incomplete_task() {
    let fmt = print_task(&PrintableTask::new("a", 1, Incomplete));
    // The 1) is wrapped in ANSI codes painting it yellow.
    assert_eq!(fmt, "      \u{1b}[33m1)\u{1b}[0m a\n");
}

#[test]
fn fmt_complete_task() {
    let fmt = print_task(&PrintableTask::new("b", 0, Complete));
    // The 0) is wrapped in ANSI codes painting it green.
    assert_eq!(fmt, "      \u{1b}[32m0)\u{1b}[0m b\n");
}

#[test]
fn fmt_blocked_task() {
    let fmt = print_task(&PrintableTask::new("c", 2, Blocked));
    // The 2) is wrapped in ANSI codes painting it red.
    assert_eq!(fmt, "      \u{1b}[31m2)\u{1b}[0m c\n");
}

#[test]
fn fmt_double_digit_number_in_max_four_digit_environment() {
    let fmt = print_task_with_context(
        PrintingContext {
            max_index_digits: 4,
            width: 80,
            now: Timestamp::now(),
        },
        &PrintableTask::new("hello", 99, Blocked),
    );
    assert_eq!(fmt, "      \u{1b}[31m99)\u{1b}[0m hello\n");
}

#[test]
fn fmt_triple_digit_number_in_max_four_digit_environment() {
    let fmt = print_task_with_context(
        PrintingContext {
            max_index_digits: 4,
            width: 80,
            now: Timestamp::now(),
        },
        &PrintableTask::new("hello", 100, Blocked),
    );
    assert_eq!(fmt, "     \u{1b}[31m100)\u{1b}[0m hello\n");
}

#[test]
fn show_check_mark_on_check_action() {
    let fmt = print_task(
        &PrintableTask::new("done!", 0, Complete).action(Action::Check),
    );
    assert_eq!(
        fmt,
        "\u{1b}[32m[✓]\u{1b}[0m   \u{1b}[32m0)\u{1b}[0m done!\n"
    );
}

#[test]
fn show_empty_box_on_uncheck_action() {
    let fmt = print_task(
        &PrintableTask::new("oh", 1, Incomplete).action(Action::Uncheck),
    );
    assert_eq!(fmt, "\u{1b}[33m[ ]\u{1b}[0m   \u{1b}[33m1)\u{1b}[0m oh\n");
}

#[test]
fn text_wrapping() {
    let context = PrintingContext {
        max_index_digits: 3,
        width: 24,
        now: Timestamp::now(),
    };
    let fmt = print_task_with_context(
        context,
        &PrintableTask::new(
            &["this", " task has a long description, much longer than 24 chars"].concat(),
            1,
            Incomplete,
        ),
    );
    assert_eq!(
        fmt,
        ["      \u{1b}[33m1)\u{1b}[0m this", " task\n         has a long\n         description,\n",
            "         much longer\n         than 24 chars\n"].concat()
    );
}

#[test]
fn text_wrapping_with_log_date() {
    let context = PrintingContext {
        max_index_digits: 3,
        width: 34,
        now: Timestamp::now(),
    };
    let fmt = print_task_with_context(
        context,
        &PrintableTask::new(
            "what a long description, it needs multiple lines",
            0,
            Complete,
        )
        .log_date(LogDate::YearMonthDay(2020, 3, 15)),
    );
    assert_eq!(
        fmt,
        "2020-03-15       \u{1b}[32m0)\u{1b}[0m what a long\n                    description,\n                    it needs\n                    multiple lines\n"
    );
}

#[test]
fn visible_log_date() {
    let fmt = print_task(
        &PrintableTask::new(
            "yeah babi babi babi babi babi babi babi babiru",
            0,
            Complete,
        )
        .log_date(LogDate::ymd(2021, 2, 28).unwrap()),
    );
    assert_eq!(
        fmt,
        "2021-02-28       \u{1b}[32m0)\u{1b}[0m yeah babi babi babi babi babi babi babi babiru\n"
    );
}

#[test]
fn invisible_log_date() {
    let fmt = print_task(
        &PrintableTask::new(
            "yeah babi babi babi babi babi babi babi babiru",
            0,
            Complete,
        )
        .log_date(LogDate::Invisible),
    );
    assert_eq!(
        fmt,
        "                 \u{1b}[32m0)\u{1b}[0m yeah babi babi babi babi babi babi babi babiru\n"
    );
}

#[test]
fn show_priority_on_task() {
    let fmt = print_task(&PrintableTask::new("a", 1, Incomplete).priority(1));
    assert_eq!(
        fmt,
        "      \u{1b}[33m1)\u{1b}[0m \u{1b}[1;35mP1\u{1b}[0m a\n"
    );
}

#[test]
fn show_meh_due_date_on_task() {
    let now = ymdhms(2021, 4, 15, 10, 0, 0);
    let task = PrintableTask::new("a", 1, Incomplete)
        .due_date(plus(now, 2 * 86400));
    let fmt = print_task_with_context(now_context(now), &task);
    assert_eq!(
        fmt,
        "      \u{1b}[33m1)\u{1b}[0m \u{1b}[1;2;37mDue in 2 days\u{1b}[0m a\n"
    );
}

#[test]
fn show_moderate_due_date_on_task() {
    let now = ymdhms(2021, 4, 15, 10, 0, 0);
    let task = PrintableTask::new("a", 1, Incomplete)
        .due_date(plus(now, 9 * 3600));
    let fmt = print_task_with_context(now_context(now), &task);
    assert_eq!(
        fmt,
        "      \u{1b}[33m1)\u{1b}[0m \u{1b}[1;33mDue in 9 hours\u{1b}[0m a\n"
    );
}

#[test]
fn show_urgent_due_date_on_task() {
    let now = ymdhms(2021, 4, 15, 10, 0, 0);
    let task = PrintableTask::new("a", 1, Incomplete)
        .due_date(plus(now, -86400));
    let fmt = print_task_with_context(now_context(now), &task);
    assert_eq!(
        fmt,
        "      \u{1b}[33m1)\u{1b}[0m \u{1b}[1;31mDue 1 day ago\u{1b}[0m a\n"
    );
}

#[test]
fn show_priority_and_due_date_together() {
    let now = ymdhms(2021, 4, 15, 10, 0, 0);
    let task = PrintableTask::new("a", 1, Incomplete)
        .priority(1)
        .due_date(plus(now, -86400));
    let fmt = print_task_with_context(now_context(now), &task);
    assert_eq!(
        fmt,
        "      \u{1b}[33m1)\u{1b}[0m \u{1b}[1;35mP1\u{1b}[0m \u{1b}[1;31mDue 1 day ago\u{1b}[0m a\n",
    );
}

#[test]
fn show_lock_icon_on_lock_action() {
    let fmt = print_task(
        &PrintableTask::new("blocked", 5, Blocked).action(Action::Lock),
    );
    assert_eq!(
        fmt,
        " \u{1b}[31m🔒\u{1b}[0m   \u{1b}[31m5)\u{1b}[0m blocked\n"
    );
}

#[test]
fn show_unlock_icon_on_unlock_action() {
    let fmt = print_task(
        &PrintableTask::new("unblocked", 10, Incomplete).action(Action::Unlock),
    );
    assert_eq!(
        fmt,
        " \u{1b}[32m🔓\u{1b}[0m  \u{1b}[33m10)\u{1b}[0m unblocked\n"
    );
}

#[test]
fn show_punt_icon_on_punt_action() {
    let fmt = print_task(
        &PrintableTask::new("punt this", 5, Incomplete).action(Action::Punt),
    );
    assert_eq!(fmt, " ⏎    \u{1b}[33m5)\u{1b}[0m punt this\n");
}

#[test]
fn printing_test_display_no_match_found_warning() {
    let fmt = warning_text(PrintableWarning::NoMatchFoundForKey {
            requested_key: Key::ByNumber(10),
        });
    assert_eq!(
        fmt,
        "\u{1b}[1;33mwarning\u{1b}[0m: No match found for \"10\""
    );
}

#[test]
fn printing_test_display_no_match_found_for_name_warning() {
    let fmt = warning_text(PrintableWarning::NoMatchFoundForKey {
            requested_key: Key::ByName("blah".to_string()),
        });
    assert_eq!(
        fmt,
        "\u{1b}[1;33mwarning\u{1b}[0m: No match found for \"blah\""
    );
}

#[test]
fn printing_test_display_no_match_found_for_range_warning() {
    let fmt = warning_text(PrintableWarning::NoMatchFoundForKey {
            requested_key: Key::ByRange(10, 20),
        });
    assert_eq!(
        fmt,
        "\u{1b}[1;33mwarning\u{1b}[0m: No match found for range(10..20)"
    );
}

#[test]
fn printing_test_display_cannot_check_because_already_complete_warning() {
    let fmt = warning_text(PrintableWarning::CannotCheckBecauseAlreadyComplete {
            cannot_check: BriefPrintableTask::new(-2, Complete)
        });
    assert_eq!(
        fmt,
        "\u{1b}[1;33mwarning\u{1b}[0m: Task \u{1b}[32m-2)\u{1b}[0m is already complete"
    );
}

#[test]
fn printing_test_display_cannot_restore_because_already_incomplete_warning() {
    let fmt = warning_text(PrintableWarning::CannotRestoreBecauseAlreadyIncomplete {
            cannot_restore: BriefPrintableTask::new(3, Incomplete),
        });
    assert_eq!(
        fmt,
        "\u{1b}[1;33mwarning\u{1b}[0m: Task \u{1b}[33m3)\u{1b}[0m is already incomplete"
    );
}

#[test]
fn printing_test_display_cannot_unblock_because_task_is_not_blocked_warning() {
    let fmt = warning_text(PrintableWarning::CannotUnblockBecauseTaskIsNotBlocked {
            cannot_unblock: BriefPrintableTask::new(2, Incomplete),
            requested_unblock_from: BriefPrintableTask::new(1, Incomplete),
        });
    assert_eq!(
        fmt,
        "\u{1b}[1;33mwarning\u{1b}[0m: Task \u{1b}[33m2)\u{1b}[0m is not blocked by \u{1b}[33m1)\u{1b}[0m"
    );
}

#[test]
fn display_cannot_check_because_blocked_error() {
    let fmt = error_text(PrintableError::CannotCheckBecauseBlocked {
            cannot_check: BriefPrintableTask::new(3, Blocked),
            blocked_by: vec![
                BriefPrintableTask::new(1, Incomplete),
                BriefPrintableTask::new(2, Incomplete)
            ],
        });
    assert_eq!(
        fmt,
        "\u{1b}[1;31merror\u{1b}[0m: Cannot complete \u{1b}[31m3)\u{1b}[0m because it is blocked by \u{1b}[33m1)\u{1b}[0m, \u{1b}[33m2)\u{1b}[0m"
    );
}

#[test]
fn display_cannot_restore_because_antidependency_is_complete_error() {
    let fmt = error_text(PrintableError::CannotRestoreBecauseAntidependencyIsComplete {
            cannot_restore: BriefPrintableTask::new(-3, Complete),
            complete_antidependencies: vec![
                BriefPrintableTask::new(-1, Complete),
                BriefPrintableTask::new(0, Complete)
            ],
        });
    assert_eq!(
        fmt,
        "\u{1b}[1;31merror\u{1b}[0m: Cannot restore \u{1b}[32m-3)\u{1b}[0m because it blocks complete tasks \u{1b}[32m-1)\u{1b}[0m, \u{1b}[32m0)\u{1b}[0m"
    );
}

#[test]
fn display_cannot_block_because_would_cause_cycle_error() {
    let fmt = error_text(PrintableError::CannotBlockBecauseWouldCauseCycle {
            cannot_block: BriefPrintableTask::new(5, Incomplete),
            requested_dependency: BriefPrintableTask::new(6, Blocked),
        });
    assert_eq!(
        fmt,
        "\u{1b}[1;31merror\u{1b}[0m: Cannot block \u{1b}[33m5)\u{1b}[0m on \u{1b}[31m6)\u{1b}[0m because it would create a cycle"
    );
}

#[test]
fn display_cannot_edit_because_unexpected_number_error() {
    let fmt = error_text(PrintableError::CannotEditBecauseUnexpectedNumber { requested: 0 });
    assert_eq!(
        fmt,
        "\u{1b}[1;31merror\u{1b}[0m: Number 0) doesn't correspond to any of requested tasks"
    );
}

#[test]
fn display_cannot_edit_because_no_task_with_number_error() {
    let fmt = error_text(PrintableError::CannotEditBecauseNoTaskWithNumber { requested: 100 });
    assert_eq!(fmt, "\u{1b}[1;31merror\u{1b}[0m: No task with number 100)");
}

#[test]
fn display_failed_to_use_text_editor_error() {
    let fmt = error_text(PrintableError::FailedToUseTextEditor);
    assert_eq!(
        fmt,
        "\u{1b}[1;31merror\u{1b}[0m: Failed to open text editor"
    );
}

#[test]
fn printable_warning_test_display_no_match_found_warning() {
    let fmt = warning_text(PrintableWarning::NoMatchFoundForKey {
            requested_key: Key::ByNumber(10),
        });
    assert_eq!(
        fmt,
        "\u{1b}[1;33mwarning\u{1b}[0m: No match found for \"10\""
    );
}

#[test]
fn printable_warning_test_display_no_match_found_for_name_warning() {
    let fmt = warning_text(PrintableWarning::NoMatchFoundForKey {
            requested_key: Key::ByName("blah".to_string()),
        });
    assert_eq!(
        fmt,
        "\u{1b}[1;33mwarning\u{1b}[0m: No match found for \"blah\""
    );
}

#[test]
fn printable_warning_test_display_no_match_found_for_range_warning() {
    let fmt = warning_text(PrintableWarning::NoMatchFoundForKey {
            requested_key: Key::ByRange(10, 20),
        });
    assert_eq!(
        fmt,
        "\u{1b}[1;33mwarning\u{1b}[0m: No match found for range(10..20)"
    );
}

#[test]
fn printable_warning_test_display_cannot_check_because_already_complete_warning() {
    let fmt = warning_text(PrintableWarning::CannotCheckBecauseAlreadyComplete {
            cannot_check: BriefPrintableTask::new(-2, Complete)
        });
    assert_eq!(
        fmt,
        "\u{1b}[1;33mwarning\u{1b}[0m: Task \u{1b}[32m-2)\u{1b}[0m is already complete"
    );
}

#[test]
fn printable_warning_test_display_cannot_restore_because_already_incomplete_warning() {
    let fmt = warning_text(PrintableWarning::CannotRestoreBecauseAlreadyIncomplete {
            cannot_restore: BriefPrintableTask::new(3, Incomplete),
        });
    assert_eq!(
        fmt,
        "\u{1b}[1;33mwarning\u{1b}[0m: Task \u{1b}[33m3)\u{1b}[0m is already incomplete"
    );
}

#[test]
fn printable_warning_test_display_cannot_unblock_because_task_is_not_blocked_warning() {
    let fmt = warning_text(PrintableWarning::CannotUnblockBecauseTaskIsNotBlocked {
            cannot_unblock: BriefPrintableTask::new(2, Incomplete),
            requested_unblock_from: BriefPrintableTask::new(1, Incomplete),
        });
    assert_eq!(
        fmt,
        "\u{1b}[1;33mwarning\u{1b}[0m: Task \u{1b}[33m2)\u{1b}[0m is not blocked by \u{1b}[33m1)\u{1b}[0m"
    );
}
