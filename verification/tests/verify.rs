use luck::keyed_map::KeyedMap;
use luck::scheduler::ExecutionResult;
use luck::verify::{order_lines, output_preview, run_report, verify_not_empty, verify_shelf_life_ok, ShelfLife, VerifiedOutcome};

#[test]
fn not_empty_rejects_blank() {
    assert!(verify_not_empty("   ").is_err());
    assert!(verify_not_empty("ok").is_ok());
}

fn finished_run() -> ExecutionResult {
    let mut r = ExecutionResult::new();
    r.order = vec!["role".to_string(), "work".to_string()];
    r.outputs.insert("work".to_string(), "RESULT:done".to_string());
    r
}

#[test]
fn order_lines_show_each_output() {
    let r = finished_run();
    assert_eq!(
        order_lines(&r.order, &r.outputs),
        vec!["✓ role: ".to_string(), "✓ work: RESULT:done".to_string()]
    );
    let empty: KeyedMap<String> = KeyedMap::new();
    assert!(order_lines(&Vec::new(), &empty).is_empty());
}

#[test]
fn run_report_for_each_outcome() {
    let done = run_report(&Ok(VerifiedOutcome::Completed(finished_run())));
    assert_eq!(done.status, "completed");
    assert_eq!(done.result, "ok");
    assert_eq!(done.lines, vec!["✓ role: ".to_string(), "✓ work: RESULT:done".to_string()]);

    let refused = run_report(&Ok(VerifiedOutcome::Rejected {
        reason: "cash_ok failed".to_string(),
        partial: finished_run(),
    }));
    assert_eq!(refused.status, "rejected");
    assert_eq!(refused.result, "cash_ok failed");
    assert_eq!(refused.lines.len(), 3);
    assert_eq!(refused.lines[2], "ОТКАЗ: cash_ok failed");

    let fatal = run_report(&Err("transport down".to_string()));
    assert_eq!(fatal.status, "rejected");
    assert_eq!(fatal.result, "transport down");
    assert_eq!(fatal.lines, vec!["ФАТАЛЬНЫЙ СБОЙ: transport down".to_string()]);
}

#[test]
fn output_preview_cuts_long_outputs() {
    assert_eq!(output_preview("short"), "short");
    let exact: String = "x".repeat(120);
    assert_eq!(output_preview(&exact), exact);
    let long: String = "я".repeat(130);
    let p = output_preview(&long);
    assert_eq!(p.chars().count(), 121);
    assert_eq!(p, format!("{}…", "я".repeat(120)));
}

#[test]
fn shelf_life_compares_iso_dates() {
    let ok = ShelfLife { expires: "2026-08-20".into(), horizon: "2026-08-15".into() };
    assert_eq!(verify_shelf_life_ok(&ok), Ok(()));
    let same = ShelfLife { expires: "2026-08-15".into(), horizon: "2026-08-15".into() };
    assert_eq!(verify_shelf_life_ok(&same), Ok(()));
    let short = ShelfLife { expires: "2026-08-10".into(), horizon: "2026-08-15".into() };
    assert_eq!(
        verify_shelf_life_ok(&short),
        Err("shelf_life_ok: срок 2026-08-10 раньше горизонта 2026-08-15".to_string())
    );
}

#[test]
fn shelf_life_ok_compares_iso_dates() {
    let later = ShelfLife { expires: "2026-08-20".into(), horizon: "2026-08-15".into() };
    assert!(verify_shelf_life_ok(&later).is_ok());
    let earlier = ShelfLife { expires: "2026-08-10".into(), horizon: "2026-08-15".into() };
    assert!(verify_shelf_life_ok(&earlier).is_err());
}
