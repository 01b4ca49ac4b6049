use luck::icom::{has_errors, map_to_graph_checked, validate_model, validate_spawned, Rule, Severity};
use luck::idef0::{map_to_graph, Block, Idef0Model};
use luck::keyed_map::KeyedMap;
use luck::parser::{parse, EdgeType, IntentGraph, Node, SlotData};
use luck::registry::{Kind, Subtype};
use luck::scheduler::{ExecutionResult, MockBackend, Scheduler, ToolRegistry};

fn blk(id: &str, f: &str, inputs: &[&str], outputs: &[&str]) -> Block {
    Block {
        id: id.into(),
        function: f.into(),
        kind: None,
        inputs: inputs.iter().map(|s| s.to_string()).collect(),
        controls: vec![],
        outputs: outputs.iter().map(|s| s.to_string()).collect(),
        mechanisms: vec![],
        children: vec![],
        branches: vec![],
    }
}

fn model(root_in: &[&str], root_out: &[&str], children: Vec<Block>) -> Idef0Model {
    Idef0Model {
        context: Block {
            inputs: root_in.iter().map(|s| s.to_string()).collect(),
            outputs: root_out.iter().map(|s| s.to_string()).collect(),
            children,
            ..blk("A0", "рамка", &[], &[])
        },
    }
}

#[test]
fn rule1_missing_output_detected() {
    let model = Idef0Model {
        context: Block {
            outputs: vec!["отчёт".into()],
            children: vec![blk("A1", "шаг", &["заказы"], &["нечто_другое"])],
            ..blk("A0", "рамка", &["заказы"], &[])
        },
    };
    let v = validate_model(&model);
    let hit = v.iter().find(|x| x.rule == Rule::MissingOutput).expect("найдено");
    assert_eq!(hit.block, "A0");
    assert_eq!(hit.arrow.as_deref(), Some("отчёт"));
    assert_eq!(hit.severity, Severity::Error);
}

#[test]
fn rule2_dangling_input_detected() {
    let model = Idef0Model {
        context: Block {
            outputs: vec!["out".into()],
            children: vec![blk("A1", "шаг", &["ниоткуда"], &["out"])],
            ..blk("A0", "рамка", &["заказы"], &[])
        },
    };
    let v = validate_model(&model);
    let hit = v.iter().find(|x| x.rule == Rule::DanglingInput).expect("найдено");
    assert_eq!(hit.block, "A1");
    assert_eq!(hit.arrow.as_deref(), Some("ниоткуда"));
}

#[test]
fn rule3_unused_parent_input_is_warning() {
    let model = Idef0Model {
        context: Block {
            outputs: vec!["out".into()],
            children: vec![blk("A1", "шаг", &[], &["out"])],
            ..blk("A0", "рамка", &["никому_не_нужен"], &[])
        },
    };
    let v = validate_model(&model);
    let hit = v.iter().find(|x| x.rule == Rule::UnusedParentInput).expect("найдено");
    assert_eq!(hit.severity, Severity::Warning);
    assert_eq!(hit.arrow.as_deref(), Some("никому_не_нужен"));
    assert!(!has_errors(&v), "мёртвый вход не должен блокировать модель");
}

#[test]
fn rule4_empty_block_detected() {
    let model = Idef0Model {
        context: Block {
            outputs: vec!["out".into()],
            children: vec![blk("A1", "   ", &[], &["out"])],
            ..blk("A0", "рамка", &[], &[])
        },
    };
    let v = validate_model(&model);
    let hit = v.iter().find(|x| x.rule == Rule::EmptyBlock).expect("найдено");
    assert_eq!(hit.block, "A1");
}

#[test]
fn rule5_branch_target_missing_detected() {
    let mut b = blk("A1", "решить", &[], &["out"]);
    b.kind = Some("branch".into());
    b.branches = vec![("ok".into(), "A9".into())];
    let model = Idef0Model {
        context: Block {
            outputs: vec!["out".into()],
            children: vec![b],
            ..blk("A0", "рамка", &[], &[])
        },
    };
    let v = validate_model(&model);
    let hit = v.iter().find(|x| x.rule == Rule::BranchTargetMissing).expect("найдено");
    assert_eq!(hit.block, "A1");
    assert_eq!(hit.arrow.as_deref(), Some("ok"));
}

#[test]
fn rule5_branches_without_branch_kind_detected() {
    let mut b = blk("A1", "решить", &[], &["out"]);
    b.branches = vec![("ok".into(), "A1".into())];
    let model = Idef0Model {
        context: Block {
            outputs: vec!["out".into()],
            children: vec![b],
            ..blk("A0", "рамка", &[], &[])
        },
    };
    let v = validate_model(&model);
    assert!(v.iter().any(|x| x.rule == Rule::BranchKindMismatch));
}

#[test]
fn duplicate_id_detected_before_mapper_panics() {
    let model = Idef0Model {
        context: Block {
            outputs: vec!["out".into()],
            children: vec![blk("A1", "шаг", &[], &["mid"]), blk("A1", "дубль", &["mid"], &["out"])],
            ..blk("A0", "рамка", &[], &[])
        },
    };
    let v = validate_model(&model);
    assert!(v.iter().any(|x| x.rule == Rule::DuplicateId));
    assert!(map_to_graph_checked(&model).is_err(), "дубль не должен дойти до маппера");
}

#[test]
fn attack_cycle_must_be_rejected() {
    let m = model(
        &["старт"],
        &["итог"],
        vec![blk("A1", "первый", &["старт", "y"], &["x"]), blk("A2", "второй", &["x"], &["y", "итог"])],
    );
    let v = validate_model(&m);
    assert!(has_errors(&v), "цикл A1->A2->A1 должен быть ошибкой, а валидатор молчит: {v:#?}");
}

#[test]
fn attack_self_loop_must_be_rejected() {
    let m = model(&["старт"], &["итог"], vec![blk("A1", "сам себя", &["старт", "итог"], &["итог"])]);
    let v = validate_model(&m);
    assert!(has_errors(&v), "самопитание блока должно быть ошибкой: {v:#?}");
}

#[test]
fn attack_duplicate_output_must_be_flagged() {
    let m = model(
        &["старт"],
        &["итог"],
        vec![
            blk("A1", "первый", &["старт"], &["общий"]),
            blk("A2", "второй", &["старт"], &["общий"]),
            blk("A3", "третий", &["общий"], &["итог"]),
        ],
    );
    let v = validate_model(&m);
    assert!(!v.is_empty(), "две разные функции с одним именем выхода — как минимум предупреждение");
}

#[test]
fn attack_branch_output_consumer_must_be_flagged() {
    let mut br = blk("A2", "решить", &["данные"], &["вердикт"]);
    br.kind = Some("branch".into());
    br.branches = vec![("ok".into(), "A3".into())];
    let m = model(
        &["старт"],
        &["итог"],
        vec![
            blk("A1", "подготовить", &["старт"], &["данные"]),
            br,
            blk("A3", "закрыть", &["данные"], &["итог"]),
            blk("A4", "отчитаться", &["вердикт"], &["побочный"]),
        ],
    );
    let v = validate_model(&m);
    assert!(
        v.iter().any(|x| x.block == "A4"),
        "A4 читает выход branch-блока, не будучи его веткой — ребра не будет: {v:#?}"
    );
}

#[test]
fn branch_target_consumer_is_legal() {
    let mut br = blk("A2", "решить", &["данные"], &["вердикт"]);
    br.kind = Some("branch".into());
    br.branches = vec![("ok".into(), "A3".into())];
    let m = model(
        &["старт"],
        &["итог"],
        vec![blk("A1", "подготовить", &["старт"], &["данные"]), br, blk("A3", "закрыть", &["вердикт"], &["итог"])],
    );
    let v = validate_model(&m);
    assert!(
        !v.iter().any(|x| x.block == "A3"),
        "цель ветки получает Branch-ребро, ложной тревоги быть не должно: {v:#?}"
    );
}

#[test]
fn attack_orphan_block_must_be_flagged() {
    let m = model(
        &["старт"],
        &["итог"],
        vec![blk("A1", "полезный", &["старт"], &["итог"]), blk("A2", "сирота", &[], &["никому"])],
    );
    let v = validate_model(&m);
    assert!(!v.is_empty(), "блок вне потока должен быть замечен: {v:#?}");
}

#[test]
fn attack_nested_parent_also_executes() {
    let mut parent = blk("A1", "родитель", &["старт"], &["итог"]);
    parent.children = vec![blk("A11", "ребёнок", &["старт"], &["итог"])];
    let m = model(&["старт"], &["итог"], vec![parent]);
    let v = validate_model(&m);
    let graph = map_to_graph(&m);
    assert!(
        !v.is_empty(),
        "родитель с детьми исполняется наравне с ними ({} узлов) — надо предупредить",
        graph.nodes.len()
    );
}

#[test]
fn attack_valid_model_always_runs() {
    let m = model(
        &["старт"],
        &["итог"],
        vec![blk("A1", "первый", &["старт"], &["mid"]), blk("A2", "второй", &["mid"], &["итог"])],
    );
    let v = validate_model(&m);
    assert!(!has_errors(&v), "модель корректна: {v:#?}");
    let mut graph = map_to_graph(&m);
    let mut sched = Scheduler::new(MockBackend::new(), ToolRegistry::new());
    let res = sched.run(&mut graph, "attack");
    assert!(res.is_ok(), "валидная модель не исполнилась: {:?}", res.err());
}

#[test]
fn cycle_model_really_breaks_scheduler() {
    let m = model(
        &["старт"],
        &["итог"],
        vec![blk("A1", "первый", &["старт", "y"], &["x"]), blk("A2", "второй", &["x"], &["y", "итог"])],
    );
    let mut graph = map_to_graph(&m);
    let mut sched = Scheduler::new(MockBackend::new(), ToolRegistry::new());
    let res = sched.run(&mut graph, "attack");
    assert!(res.is_err(), "ожидался отказ на цикле, получено: {res:?}");
}

const SPAWN_SRC: &str = r#"
NODE plan: SPAWN [GENERATIVE]
  PLAN "разложить задачу на шаги"
  INTO sub
END

EDGES:
END
"#;

fn run_spawn() -> (IntentGraph, ExecutionResult) {
    let mut graph = parse(SPAWN_SRC).expect("исходник SPAWN разбирается");
    let mut sched = Scheduler::new(MockBackend::new(), ToolRegistry::new());
    let result = sched.run(&mut graph, "spawn-test").expect("граф исполним");
    (graph, result)
}

#[test]
fn spawned_healthy_subgraph_has_no_violations() {
    let (graph, result) = run_spawn();
    assert!(!result.spawned.is_empty(), "SPAWN обязан был породить узлы, иначе тест ничего не проверяет");
    let v = validate_spawned(&graph, &result);
    assert!(v.is_empty(), "здоровый подграф не должен давать нарушений: {v:#?}");
}

#[test]
fn spawned_dangling_reference_detected() {
    let (mut graph, mut result) = run_spawn();
    let mut slots: KeyedMap<SlotData> = KeyedMap::new();
    slots.insert("where".to_string(), SlotData::Cond("нет_такого".into(), "=".into(), "\"да\"".into()));
    slots.insert("into".to_string(), SlotData::Ident("решение".into()));
    let node = Node::new("подделка".into(), Subtype::Generative, Kind::Filter, slots);
    let id = node.node_id.clone();
    graph.add_node(node).expect("узел добавляется");
    result.spawned.push(id.clone());
    let v = validate_spawned(&graph, &result);
    let hit = v
        .iter()
        .find(|x| x.rule == Rule::SpawnDanglingRef)
        .unwrap_or_else(|| panic!("висячая ссылка не найдена: {v:#?}"));
    assert_eq!(hit.block, id);
    assert_eq!(hit.arrow.as_deref(), Some("нет_такого"));
    assert!(has_errors(&v));
}

#[test]
fn spawned_reference_to_existing_ident_is_legal() {
    let (mut graph, mut result) = run_spawn();
    let mut existing: Option<String> = None;
    for k in graph.nodes.keys() {
        if let Some(SlotData::Ident(id)) = graph.nodes.get(&k).unwrap().slots.get("into") {
            if !id.is_empty() {
                existing = Some(id.clone());
                break;
            }
        }
    }
    let existing = existing.expect("хоть один узел что-то пишет");
    let mut slots: KeyedMap<SlotData> = KeyedMap::new();
    slots.insert("where".to_string(), SlotData::Cond(existing.clone(), "=".into(), "\"да\"".into()));
    slots.insert("into".to_string(), SlotData::Ident("решение".into()));
    let node = Node::new("честный".into(), Subtype::Generative, Kind::Filter, slots);
    let id = node.node_id.clone();
    graph.add_node(node).expect("узел добавляется");
    result.spawned.push(id);
    let v = validate_spawned(&graph, &result);
    assert!(
        !v.iter().any(|x| x.rule == Rule::SpawnDanglingRef),
        "ссылка на существующий «{existing}» не должна быть нарушением: {v:#?}"
    );
}

#[test]
fn spawned_producing_nothing_warns() {
    let mut graph = IntentGraph::new();
    let mut slots: KeyedMap<SlotData> = KeyedMap::new();
    slots.insert("tool".to_string(), SlotData::Ident("notify".into()));
    slots.insert("args".to_string(), SlotData::Args(Vec::new()));
    slots.insert("policy".to_string(), SlotData::Args(Vec::new()));
    let node = Node::new("только_вызов".into(), Subtype::External, Kind::Tool, slots);
    let id = node.node_id.clone();
    graph.add_node(node).expect("узел добавляется");
    let mut result = ExecutionResult::new();
    result.spawned.push(id);
    let v = validate_spawned(&graph, &result);
    assert!(
        v.iter().any(|x| x.rule == Rule::SpawnProducesNothing),
        "подграф без единого производителя должен дать предупреждение: {v:#?}"
    );
    assert!(!has_errors(&v), "это предупреждение, а не ошибка");
}

#[test]
fn no_spawn_no_violations() {
    let graph = parse(SPAWN_SRC).expect("разбирается");
    let result = ExecutionResult::new();
    assert!(validate_spawned(&graph, &result).is_empty());
}

fn horeca_model() -> Idef0Model {
    Idef0Model {
        context: Block {
            id: "A0".into(),
            function: "Обеспечивать производство и торговлю HoReCa".into(),
            kind: None,
            inputs: vec!["заказы".into()],
            controls: vec!["нормы".into()],
            outputs: vec!["отчёт_дня".into()],
            mechanisms: vec![],
            children: vec![
                Block {
                    id: "A1".into(),
                    function: "Принять заказы клиентов".into(),
                    kind: None,
                    inputs: vec!["заказы".into()],
                    controls: vec![],
                    outputs: vec!["orders".into()],
                    mechanisms: vec![],
                    children: vec![],
                    branches: vec![],
                },
                Block {
                    id: "A2".into(),
                    function: "Составить план производства".into(),
                    kind: None,
                    inputs: vec!["orders".into()],
                    controls: vec![],
                    outputs: vec!["production_plan".into()],
                    mechanisms: vec![],
                    children: vec![],
                    branches: vec![],
                },
                Block {
                    id: "A3".into(),
                    function: "Произвести продукцию".into(),
                    kind: None,
                    inputs: vec!["production_plan".into()],
                    controls: vec![],
                    outputs: vec!["finished_goods".into()],
                    mechanisms: vec![],
                    children: vec![],
                    branches: vec![],
                },
                Block {
                    id: "A4".into(),
                    function: "Скомплектовать заказ".into(),
                    kind: None,
                    inputs: vec!["finished_goods".into()],
                    controls: vec![],
                    outputs: vec!["picked_order".into()],
                    mechanisms: vec![],
                    children: vec![],
                    branches: vec![],
                },
                Block {
                    id: "A5".into(),
                    function: "Проверить полноту комплектации".into(),
                    kind: Some("verify".into()),
                    inputs: vec!["picked_order".into()],
                    controls: vec![],
                    outputs: vec!["full_order".into()],
                    mechanisms: vec![],
                    children: vec![],
                    branches: vec![],
                },
                Block {
                    id: "A6".into(),
                    function: "Доставить заказ клиенту".into(),
                    kind: None,
                    inputs: vec!["full_order".into()],
                    controls: vec![],
                    outputs: vec!["delivery_note".into()],
                    mechanisms: vec![],
                    children: vec![],
                    branches: vec![],
                },
                Block {
                    id: "A7".into(),
                    function: "Выставить счёт".into(),
                    kind: None,
                    inputs: vec!["delivery_note".into()],
                    controls: vec![],
                    outputs: vec!["invoice".into()],
                    mechanisms: vec![],
                    children: vec![],
                    branches: vec![],
                },
                Block {
                    id: "A8".into(),
                    function: "Сформировать отчёт дня".into(),
                    kind: None,
                    inputs: vec!["invoice".into()],
                    controls: vec!["нормы".into()],
                    outputs: vec!["отчёт_дня".into()],
                    mechanisms: vec![],
                    children: vec![],
                    branches: vec![],
                },
            ],
            branches: vec![],
        },
    }
}


#[test]
fn map_horeca_model_to_valid_graph() {
    let model = horeca_model();
    let graph = map_to_graph(&model);
    assert!(!graph.nodes.contains_key("A0"));
    assert_eq!(graph.nodes.len(), 8);
    graph.validate_edge_endpoints().expect("граф из IDEF0-модели должен быть валиден");
    let e12 = graph.edges.iter().any(|e| e.source == "A1" && e.target == "A2");
    let e78 = graph.edges.iter().any(|e| e.source == "A7" && e.target == "A8");
    assert!(e12, "A1→A2 по orders");
    assert!(e78, "A7→A8 по invoice");
    let a1 = graph.nodes.get("A1").unwrap();
    assert_eq!(a1.slots.get("into"), Some(&SlotData::Ident("orders".to_string())));
    let a5 = graph.nodes.get("A5").unwrap();
    match a5.slots.get("verify") {
        Some(SlotData::Args(pairs)) => {
            assert!(pairs.iter().any(|(k, v)| k == "checker" && v.contains("not_empty")));
        }
        other => panic!("A5 должен иметь непустой verify-слот, получено {other:?}"),
    }
}

#[test]
fn branch_block_produces_branch_edges() {
    let model = Idef0Model {
        context: Block {
            id: "R".into(),
            function: "root".into(),
            kind: None,
            inputs: vec![],
            controls: vec![],
            outputs: vec![],
            mechanisms: vec![],
            branches: vec![],
            children: vec![
                Block {
                    id: "gate".into(),
                    function: "оценить состояние".into(),
                    kind: Some("branch".into()),
                    inputs: vec![],
                    controls: vec![],
                    outputs: vec![],
                    mechanisms: vec![],
                    branches: vec![("ok".into(), "go".into()), ("bad".into(), "stop".into())],
                    children: vec![],
                },
                Block {
                    id: "go".into(),
                    function: "продолжить".into(),
                    kind: None,
                    inputs: vec![],
                    controls: vec![],
                    outputs: vec![],
                    mechanisms: vec![],
                    branches: vec![],
                    children: vec![],
                },
                Block {
                    id: "stop".into(),
                    function: "остановиться".into(),
                    kind: None,
                    inputs: vec![],
                    controls: vec![],
                    outputs: vec![],
                    mechanisms: vec![],
                    branches: vec![],
                    children: vec![],
                },
            ],
        },
    };
    let graph = map_to_graph(&model);
    assert_eq!(graph.nodes.get("gate").unwrap().kind, Kind::Classify);
    let branch_edges: Vec<_> = graph.edges.iter().filter(|e| e.edge_type == EdgeType::Branch).collect();
    assert_eq!(branch_edges.len(), 2);
    assert!(branch_edges.iter().any(|e| e.source == "gate" && e.target == "go" && e.label.as_deref() == Some("ok")));
}

struct Rng(u64);
impl Rng {
    fn next(&mut self) -> u64 {
        // xorshift64*
        self.0 ^= self.0 >> 12;
        self.0 ^= self.0 << 25;
        self.0 ^= self.0 >> 27;
        self.0.wrapping_mul(0x2545_F491_4F6C_DD1D)
    }
    fn upto(&mut self, n: usize) -> usize {
        (self.next() % n as u64) as usize
    }
}

/// Корректная по построению цепочка A0 -> A1 -> ... -> An, затем ОДНА
/// случайная мутация. Чисто случайные модели не годятся: при узком алфавите
/// потоков валидатор отвергает практически все (проверено — 0 принятых из
/// 3000), и инвариант остаётся непроверенным. Мутация даёт смесь, в которой
/// есть и валидные модели, и дефектные, причём дефекты — реалистичные.
fn random_model(rng: &mut Rng) -> Idef0Model {
    let n = 2 + rng.upto(5);
    let flow = |i: usize| format!("f{i}");
    let mut children: Vec<Block> = (0..n)
        .map(|i| {
            let ins = if i == 0 { "старт".to_string() } else { flow(i - 1) };
            let outs = if i == n - 1 { "итог".to_string() } else { flow(i) };
            blk(
                &format!("B{i}"),
                &format!("шаг {i}"),
                &[ins.as_str()],
                &[outs.as_str()],
            )
        })
        .collect();

    match rng.upto(8) {
        // 0 — без мутации: заведомо валидная модель.
        0 => {}
        // 1 — опечатка в имени потока (самый частый реальный дефект).
        1 => {
            let i = rng.upto(n);
            children[i].outputs = vec![format!("{}_опечатка", flow(i))];
        }
        // 2 — цикл: ранний блок начинает читать поздний поток.
        2 if n > 2 => {
            let last = flow(n - 2);
            children[0].inputs.push(last);
        }
        // 3 — петля на себе.
        3 => {
            let i = rng.upto(n);
            let own = children[i].outputs[0].clone();
            children[i].inputs.push(own);
        }
        // 4 — дублирующий источник потока.
        4 if n > 1 => {
            let i = rng.upto(n - 1);
            children[i].outputs.push(flow(i + 1 - 1));
        }
        // 5 — сирота.
        5 => children.push(blk("BX", "сирота", &[], &["ничей"])),
        // 6 — ветвление (иногда с целью «в никуда»).
        6 if n > 1 => {
            let i = rng.upto(n);
            children[i].kind = Some("branch".into());
            let target = if rng.upto(3) == 0 {
                "B999".to_string()
            } else {
                format!("B{}", rng.upto(n))
            };
            children[i].branches = vec![("ok".into(), target)];
        }
        // 7 — пустая формулировка функции.
        _ => {
            let i = rng.upto(n);
            children[i].function = String::new();
        }
    }
    model(&["старт"], &["итог"], children)
}

#[test]
fn invariant_accepted_model_always_executes() {
    let mut rng = Rng(0x5EED_1234_ABCD_0001);
    let mut accepted = 0usize;
    let mut rejected = 0usize;

    for case in 0..3000 {
        let m = random_model(&mut rng);
        let v = validate_model(&m);
        if has_errors(&v) {
            rejected += 1;
            continue;
        }
        accepted += 1;
        let mut graph = map_to_graph(&m);
        let mut sched = Scheduler::new(MockBackend::new(), ToolRegistry::new());
        let res = sched.run(&mut graph, "fuzz");
        assert!(
            res.is_ok(),
            "НАРУШЕН ИНВАРИАНТ (случай {case}): валидатор принял модель, \
             планировщик отказал: {:?}\nмодель: {m:#?}\nзамечания: {v:#?}",
            res.err()
        );
    }
    // Обе доли должны быть непустыми: если принято 0 — тест ничего не проверяет,
    // если отвергнуто 0 — генератор не производит дефектных моделей.
    assert!(accepted > 100, "принято слишком мало моделей: {accepted}");
    assert!(rejected > 100, "отвергнуто слишком мало моделей: {rejected}");
}

/// Обратный инвариант — против ложных тревог: если валидатор отверг модель
/// ИМЕННО за цикл (и больше ни за что), планировщик обязан на ней отказать.
/// Ошибочный диагноз «цикл» на исполнимой модели заблокировал бы работающий
/// процесс — для валидатора это худший вид дефекта.
#[test]
fn invariant_cycle_verdict_is_never_false_alarm() {
    let mut rng = Rng(0xC0FF_EE00_1234_5678);
    let mut checked = 0usize;

    for case in 0..3000 {
        let m = random_model(&mut rng);
        let v = validate_model(&m);
        let errs: Vec<_> = v.iter().filter(|x| x.severity == Severity::Error).collect();
        if errs.is_empty() || !errs.iter().all(|x| x.rule == Rule::Cycle) {
            continue;
        }
        checked += 1;
        let mut graph = map_to_graph(&m);
        let mut sched = Scheduler::new(MockBackend::new(), ToolRegistry::new());
        let res = sched.run(&mut graph, "fuzz");
        assert!(
            res.is_err(),
            "ЛОЖНАЯ ТРЕВОГА (случай {case}): валидатор объявил цикл, \
             а планировщик исполнил модель без ошибок\nмодель: {m:#?}"
        );
    }
    assert!(checked > 20, "слишком мало моделей с вердиктом «цикл»: {checked}");
}

#[test]
fn parents_run_before_children() {
    // The ids run against the flow, so ascending order alone would be wrong.
    let m = model(
        &["старт"],
        &["итог"],
        vec![
            blk("A3", "первый", &["старт"], &["a"]),
            blk("A1", "второй", &["a"], &["b"]),
            blk("A2", "третий", &["b"], &["итог"]),
        ],
    );
    let mut graph = map_to_graph(&m);
    let mut sched = Scheduler::new(MockBackend::new(), ToolRegistry::new());
    let res = sched.run(&mut graph, "order").expect("граф исполним");
    let pos = |id: &str| res.order.iter().position(|x| x.as_str() == id);
    let (p3, p1, p2) = (pos("A3").unwrap(), pos("A1").unwrap(), pos("A2").unwrap());
    assert!(p3 < p1 && p1 < p2, "родители раньше детей: {:?}", res.order);
    for e in &graph.edges {
        if let (Some(s), Some(t)) = (pos(e.source.as_str()), pos(e.target.as_str())) {
            assert!(s < t, "ребро {} -> {} нарушает порядок: {:?}", e.source, e.target, res.order);
        }
    }
}
