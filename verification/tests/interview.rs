use luck::icom::{map_to_graph_checked, Rule, Severity, Violation};
use luck::idef0::{Block, Idef0Model};
use luck::interview::{
    extract_context, extract_fix, extract_steps, first_gap, next_question, strip_fence, violation_to_question,
    ContextAnswer, Interview, Question,
};
use luck::scheduler::{MockBackend, Scheduler, ToolRegistry};

fn names(xs: &[&str]) -> Vec<String> {
    xs.iter().map(|s| s.to_string()).collect()
}

fn step(id: &str, function: &str, inputs: &[&str], controls: &[&str], outputs: &[&str]) -> Block {
    Block {
        id: id.into(),
        function: function.into(),
        kind: None,
        inputs: names(inputs),
        controls: names(controls),
        outputs: names(outputs),
        mechanisms: vec![],
        children: vec![],
        branches: vec![],
    }
}

/// The bakery frame the language model extracts from the first answer.
fn bakery_context() -> ContextAnswer {
    ContextAnswer {
        function: "Печь и продавать хлеб".into(),
        inputs: names(&["заявки"]),
        controls: names(&["рецептура"]),
        outputs: names(&["отгрузка"]),
    }
}

/// Steps with a gap on purpose: A3 needs an invoice nobody makes.
fn steps_with_gap() -> Vec<Block> {
    vec![
        step("A1", "Принять заявки", &["заявки"], &[], &["заказ"]),
        step("A2", "Испечь партию", &["заказ"], &["рецептура"], &["партия"]),
        step("A3", "Отгрузить клиенту", &["партия", "накладная"], &[], &["отгрузка"]),
    ]
}

/// The fix: A2 now also makes the invoice.
fn steps_fixed() -> Vec<Block> {
    vec![
        step("A1", "Принять заявки", &["заявки"], &[], &["заказ"]),
        step("A2", "Испечь партию", &["заказ"], &["рецептура"], &["партия", "накладная"]),
        step("A3", "Отгрузить клиенту", &["партия", "накладная"], &[], &["отгрузка"]),
    ]
}

#[test]
fn empty_state_asks_for_context() {
    assert_eq!(next_question(&None), Question::Context);
}

#[test]
fn frame_without_steps_asks_for_steps() {
    let m = Idef0Model {
        context: Block {
            id: "A0".into(),
            function: "Печь хлеб".into(),
            kind: None,
            inputs: vec!["мука".into()],
            controls: vec![],
            outputs: vec!["хлеб".into()],
            mechanisms: vec![],
            children: vec![],
            branches: vec![],
        },
    };
    assert_eq!(next_question(&Some(m)), Question::Steps);
}

#[test]
fn dangling_input_becomes_targeted_question() {
    let v = Violation {
        block: "A5".into(),
        rule: Rule::DanglingInput,
        severity: Severity::Error,
        arrow: Some("picked_order".into()),
        message: "…".into(),
    };
    let q = violation_to_question(&v);
    assert_eq!(q, Question::MissingProducer { block: "A5".into(), flow: "picked_order".into() });
    let text = q.text();
    assert!(text.contains("A5") && text.contains("picked_order"));
}

#[test]
fn errors_are_asked_before_warnings() {
    let warn = Violation {
        block: "A9".into(),
        rule: Rule::OrphanBlock,
        severity: Severity::Warning,
        arrow: None,
        message: "…".into(),
    };
    let err = Violation {
        block: "A5".into(),
        rule: Rule::DanglingInput,
        severity: Severity::Error,
        arrow: Some("x".into()),
        message: "…".into(),
    };
    let violations = [warn, err];
    let gap = first_gap(&violations).expect("есть пробел");
    assert_eq!(gap.block, "A5", "ошибка важнее предупреждения");
}

#[test]
fn fence_is_stripped() {
    assert_eq!(strip_fence("```json\n{\"a\":1}\n```"), "{\"a\":1}");
    assert_eq!(strip_fence("  {\"a\":1}  "), "{\"a\":1}");
}

#[test]
fn interview_reaches_executable_model() {
    let mut iv = Interview::new();

    // The first question is about the frame, before any language model.
    assert_eq!(iv.question(), Question::Context);

    // The answer about the business gives the frame; next come the steps.
    assert_eq!(iv.record("Мы небольшая пекарня: берём заявки и возим хлеб кафе"), Question::Context);
    let q = iv.accept_context(extract_context(bakery_context()).unwrap());
    assert_eq!(q, Question::Steps);

    // The steps hold a gap: the survey asks about exactly that gap.
    assert_eq!(iv.record("Принимаем заявки, печём, отгружаем"), Question::Steps);
    let q = iv.accept_steps(extract_steps(steps_with_gap()).unwrap());
    match &q {
        Question::MissingProducer { block, flow } => {
            assert_eq!(block, "A3");
            assert_eq!(flow, "накладная");
            assert!(q.text().contains("накладная"), "вопрос называет пробел: {}", q.text());
        }
        other => panic!("ожидался вопрос о недостающем источнике, получено {other:?}"),
    }

    // The client explains; the model is complete and consistent.
    assert_eq!(iv.record("Накладную печатает пекарь вместе с партией"), q);
    let q = iv.accept_fix(extract_fix(steps_fixed()).unwrap()).unwrap();
    assert_eq!(q, Question::Confirm);
    assert!(q.is_final());

    // The finished model passes the validator and runs as a graph.
    let model = iv.finished_model().expect("обследование завершено");
    let (mut graph, warnings) = map_to_graph_checked(model).expect("модель валидна");
    assert!(warnings.is_empty(), "лишних замечаний быть не должно: {warnings:#?}");

    let mut sched = Scheduler::new(MockBackend::new(), ToolRegistry::new());
    let res = sched.run(&mut graph, "interview").expect("граф исполним");
    assert_eq!(res.order.len(), 3, "исполнены все три шага: {:?}", res.order);

    // The log keeps the whole conversation.
    assert_eq!(iv.log.len(), 3, "три заданных вопроса и три ответа");
    assert!(iv.log[0].question.contains("Чем занимается предприятие"));
}

#[test]
fn worsening_fix_is_rejected() {
    let steps_worse = vec![
        step("A1", "Принять заявки", &["заявки"], &[], &["заказ"]),
        step("A2", "Испечь партию", &["ниоткуда"], &[], &["партия"]),
        step("A3", "Отгрузить клиенту", &["ещё_ниоткуда"], &[], &["отгрузка"]),
    ];

    let mut iv = Interview::new();
    iv.record("пекарня");
    iv.accept_context(extract_context(bakery_context()).unwrap());
    iv.record("заявки, выпечка, отгрузка");
    iv.accept_steps(extract_steps(steps_with_gap()).unwrap());

    let before = format!("{:?}", iv.model.as_ref().expect("модель есть").context.children);
    iv.record("запутанный ответ");
    let err = iv.accept_fix(extract_fix(steps_worse).unwrap()).expect_err("ухудшающая правка должна быть отклонена");
    assert!(err.contains("отклонена"), "внятная причина отказа: {err}");

    let after = format!("{:?}", iv.model.as_ref().expect("модель на месте").context.children);
    assert_eq!(before, after, "после отклонённой правки модель обязана остаться прежней");
}

#[test]
fn failed_extraction_leaves_model_unchanged() {
    let mut iv = Interview::new();
    assert_eq!(iv.record("что-то"), Question::Context);
    let empty = ContextAnswer { function: "   ".into(), inputs: vec![], controls: vec![], outputs: vec![] };
    let err = extract_context(empty).expect_err("пустая рамка отклоняется");
    assert!(err.contains("главный процесс"), "внятная диагностика: {err}");
    assert!(iv.model.is_none(), "модель не должна появиться из негодного ответа");
    assert_eq!(iv.question(), Question::Context);
    assert!(extract_steps(vec![]).is_err());
}
