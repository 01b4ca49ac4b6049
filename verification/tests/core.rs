use luck::decoding::{self, Constraint};
use luck::keyed_map::KeyedMap;
use luck::parser::{parse, parse_fragment, EdgeType, IntentGraph, Node, SlotData};
use luck::presentation::{self, Style};
use luck::registry::{self, Kind, Subtype};
use luck::validation::{after_reply, instruction, retry_instruction, ReplyStep};
use luck::scheduler::{InvalidModelOutput, MockBackend, ModelBackend, Scheduler, ToolRegistry};
use std::collections::BTreeSet;

const SAMPLE: &str = r#"
    NODE n1: ROLE [GENERATIVE]
      AS "senior architect"
    END

    NODE n2: FILTER [GENERATIVE]
      WHERE status = "draft"
      INTO n3
    END

    NODE n3: TOOL [EXTERNAL]
      CALL search WITH query="Luck grammar", limit=5
    END

    EDGES:
      n1 -> n2
      n2 => n3 [on_match]
    END
    "#;

fn node<'a>(g: &'a IntentGraph, id: &str) -> &'a Node {
    g.nodes.get(id).unwrap()
}

#[test]
fn parses_all_node_kinds() {
    let g = parse(SAMPLE).expect("парсится");
    assert_eq!(g.nodes.len(), 3);
    assert_eq!(node(&g, "n1").kind, Kind::Role);
    assert_eq!(node(&g, "n2").kind, Kind::Filter);
    assert_eq!(node(&g, "n3").kind, Kind::Tool);
    assert_eq!(g.edges.len(), 2);
}

#[test]
fn cache_key_independent_of_branch() {
    let g1 = parse(SAMPLE).unwrap();
    let g2 = parse(SAMPLE).unwrap();
    let mut nodes2 = Vec::new();
    for id in g2.nodes.keys() {
        let mut n = node(&g2, &id).duplicate();
        n.branch_id = "bob".to_string();
        nodes2.push(n);
    }
    for n2 in &nodes2 {
        assert_eq!(node(&g1, &n2.node_id).cache_key, n2.cache_key, "узел {}", n2.node_id);
    }
}

#[test]
fn prefix_stability_and_normalization() {
    let a = parse(r#"NODE t: TOOL [EXTERNAL] CALL s WITH q="x", n=5 END EDGES: END"#).unwrap();
    let b = parse(r#"NODE t: TOOL [EXTERNAL] CALL s WITH n=5, q="x" END EDGES: END"#).unwrap();
    assert_eq!(node(&a, "t").cache_key, node(&b, "t").cache_key, "порядок ARGS не влияет на cache_key");
    let c = parse(r#"NODE t: TOOL [EXTERNAL] CALL s WITH q="y", n=5 END EDGES: END"#).unwrap();
    assert_ne!(node(&a, "t").cache_key, node(&c, "t").cache_key, "разное значение -> разный cache_key");
}

#[test]
fn decoding_only_for_generative() {
    assert!(registry::spec(Kind::Role).has_decoding());
    assert!(registry::spec(Kind::Filter).has_decoding());
    assert!(!registry::spec(Kind::Tool).has_decoding());
    assert!(!registry::spec(Kind::Document).has_decoding());
    assert!(!registry::spec(Kind::RejectMark).has_decoding());
}

#[test]
fn kind_subtype_mismatch_is_parse_error() {
    let src = r#"NODE n: ROLE [EXTERNAL] AS "x" END EDGES: END"#;
    assert!(parse(src).is_err());
}

#[test]
fn dangling_edge_is_parse_error() {
    let src = r#"NODE n: ROLE [GENERATIVE] AS "x" END EDGES: n -> ghost END"#;
    assert!(parse(src).is_err());
}

#[test]
fn registry_covers_all_kinds() {
    assert_eq!(Kind::all().len(), 9);
    for k in Kind::all() {
        let spec = registry::spec(k);
        assert_eq!(spec.kind, k);
    }
}

#[test]
fn parse_fragment_without_edges() {
    let nodes = parse_fragment(r#"NODE x: STEP [GENERATIVE] DO "y" INTO out END"#).unwrap();
    assert_eq!(nodes.len(), 1);
    assert_eq!(nodes[0].kind, Kind::Step);
}

#[test]
fn singleton_output_only_for_degenerate_grammar() {
    let role = parse(r#"NODE r: ROLE [GENERATIVE] AS "x" END EDGES: END"#).unwrap();
    assert_eq!(decoding::singleton_output(Kind::Role, &node(&role, "r").slots), Some(String::new()));
    let filter = parse(r#"NODE f: FILTER [GENERATIVE] WHERE a = "b" INTO out END EDGES: END"#).unwrap();
    assert_eq!(decoding::singleton_output(Kind::Filter, &node(&filter, "f").slots), None);
}

#[test]
fn validate_output_forms() {
    let f = parse(r#"NODE f: FILTER [GENERATIVE] WHERE a = "b" INTO out END EDGES: END"#).unwrap();
    let slots = &node(&f, "f").slots;
    assert!(decoding::validate_output(Kind::Filter, slots, "MATCH").is_ok());
    assert!(decoding::validate_output(Kind::Filter, slots, "maybe").is_err());

    let s = parse(r#"NODE s: STEP [GENERATIVE] DO "x" INTO out END EDGES: END"#).unwrap();
    let slots = &node(&s, "s").slots;
    assert!(decoding::validate_output(Kind::Step, slots, "RESULT:done").is_ok());
    assert!(decoding::validate_output(Kind::Step, slots, "без префикса").is_err());
    assert!(decoding::validate_output(Kind::Step, slots, "RESULT:").is_err());

    let r = parse(r#"NODE r: ROLE [GENERATIVE] AS "x" END EDGES: END"#).unwrap();
    assert!(decoding::validate_output(Kind::Role, &node(&r, "r").slots, "").is_ok());
    assert!(decoding::validate_output(Kind::Role, &node(&r, "r").slots, "лишний текст").is_err());

    let sp = parse(r#"NODE p: SPAWN [GENERATIVE] PLAN "x" INTO out END EDGES: END"#).unwrap();
    let slots = &node(&sp, "p").slots;
    assert!(decoding::validate_output(Kind::Spawn, slots, "Конечно! Вот шаги:").is_err());
    assert!(decoding::validate_output(Kind::Spawn, slots, r#"NODE n: ROLE [GENERATIVE] AS "a" END"#).is_ok());
}

#[test]
fn classify_grammar_depends_on_node_content() {
    let c = parse(
        r#"NODE c: CLASSIFY [GENERATIVE] INPUT "x" LABELS a="urgent", b="normal" INTO out END EDGES: END"#,
    )
    .unwrap();
    let slots = &node(&c, "c").slots;
    assert!(decoding::validate_output(Kind::Classify, slots, "urgent").is_ok());
    assert!(decoding::validate_output(Kind::Classify, slots, "normal").is_ok());
    assert!(decoding::validate_output(Kind::Classify, slots, "other").is_err());
}

const ALL_KINDS_SRC: &str = r#"
        NODE role: ROLE [GENERATIVE] AS "incident triage engineer" END
        NODE task1: TASK [GENERATIVE] GIVEN "raw" PRODUCE "summary" END
        NODE filter1: FILTER [GENERATIVE] WHERE level = "critical" INTO branch END
        NODE step1: STEP [GENERATIVE] DO "ack" INTO out END
        NODE classify1: CLASSIFY [GENERATIVE] INPUT "x" LABELS a="critical", b="warning" INTO level END
        NODE spawn1: SPAWN [GENERATIVE] PLAN "decompose" INTO subgraph END
        NODE tool1: TOOL [EXTERNAL] CALL notify WITH target="ops", level=2 END
        NODE doc1: DOCUMENT [EXTERNAL] FROM "guide.md" END
        NODE reject1: REJECT_MARK [REJECT] CAUSE plan REASON SYNTAX END
        EDGES: END
        "#;

#[test]
fn surface_form_round_trips_for_all_kinds() {
    let g = parse(ALL_KINDS_SRC).unwrap();
    assert_eq!(g.nodes.len(), Kind::all().len(), "тест покрывает все типы реестра");
    for id in g.nodes.keys() {
        let n = node(&g, &id);
        let surface = decoding::node_surface_form(n.kind, n.subtype, &n.node_id, &n.slots);
        assert_ne!(surface, n.canonical_form(), "surface != внутренняя pipe-форма, узел {id}");
        let reparsed = &parse_fragment(&surface).unwrap()[0];
        assert_eq!(reparsed.cache_key, n.cache_key, "round-trip cache_key, узел {id}");
    }
}

#[test]
fn example_node_source_valid_for_all_kinds() {
    for k in Kind::all() {
        let src = decoding::example_node_source(k, "example");
        let nodes = parse_fragment(&src).unwrap_or_else(|e| panic!("{k:?}: {} \n{src}", e.describe()));
        assert_eq!(nodes.len(), 1);
        assert_eq!(nodes[0].kind, k);
    }
}

const CHAIN_SRC: &str = r#"
    NODE role: ROLE [GENERATIVE] AS "analyst" END
    NODE work: STEP [GENERATIVE] DO "analyze" INTO result END
    EDGES:
      role -> work
    END
    "#;

#[test]
fn two_branches_share_cache() {
    let mut sched = Scheduler::new(MockBackend::new(), ToolRegistry::new());
    let mut g1 = parse(CHAIN_SRC).unwrap();
    let r1 = sched.run(&mut g1, "alice").unwrap();
    let calls_1 = r1.model_calls;
    let mut g2 = parse(CHAIN_SRC).unwrap();
    let r2 = sched.run(&mut g2, "bob").unwrap();
    let calls_2 = r2.model_calls;
    assert_eq!(calls_1, calls_2, "вторая ветка не должна добавлять вызовов модели");
    assert_eq!(r1.outputs, r2.outputs, "выводы веток идентичны");
}

const BRANCH_SRC: &str = r#"
    NODE gate: FILTER [GENERATIVE] WHERE a = "b" INTO out END
    NODE yes: STEP [GENERATIVE] DO "match path" INTO r1 END
    NODE no: STEP [GENERATIVE] DO "no-match path" INTO r2 END
    EDGES:
      gate => yes [on_match]
      gate => no [on_no_match]
    END
    "#;

#[test]
fn dead_branch_is_skipped_not_rejected() {
    let mut sched = Scheduler::new(MockBackend::new(), ToolRegistry::new());
    let mut g = parse(BRANCH_SRC).unwrap();
    let r = sched.run(&mut g, "root").unwrap();
    assert!(r.rejects.is_empty(), "мёртвая ветка — не отказ");
    let gate_output = r.outputs.get("gate").unwrap().clone();
    let executed_branch = if gate_output == "MATCH" { "yes" } else { "no" };
    let dead_branch = if gate_output == "MATCH" { "no" } else { "yes" };
    assert!(r.outputs.contains_key(executed_branch));
    assert!(r.skipped.contains(&dead_branch.to_string()));
}

const SPAWN_SRC: &str = r#"
    NODE plan: SPAWN [GENERATIVE] PLAN "decompose" INTO subgraph END
    EDGES: END
    "#;

#[test]
fn spawn_grows_graph_and_children_execute() {
    let mut tools = ToolRegistry::new();
    tools.register("notify", Box::new(luck::scheduler::ConstantTool::new("notified")));
    let mut sched = Scheduler::new(MockBackend::new(), tools);
    let mut g = parse(SPAWN_SRC).unwrap();
    let r = sched.run(&mut g, "alice").unwrap();
    assert!(r.rejects.is_empty());
    assert_eq!(r.spawned.len(), 2, "MockBackend SPAWN выдаёт ровно 2 узла");
    for spawned_id in &r.spawned {
        assert!(r.outputs.contains_key(spawned_id), "порождённый узел исполнен: {spawned_id}");
        assert_eq!(node(&g, spawned_id).branch_id, "alice", "branch_id унаследован от актора");
    }
}

#[test]
fn spawn_over_depth_budget_yields_reject() {
    let mut sched = Scheduler::new(MockBackend::new(), ToolRegistry::new()).with_limits(0, 64);
    let mut g = parse(SPAWN_SRC).unwrap();
    let r = sched.run(&mut g, "root").unwrap();
    assert!(r.spawned.is_empty());
    assert_eq!(r.rejects.len(), 1);
    assert_eq!(r.rejects[0].slots.get("reason"), Some(&SlotData::Ident("BUDGET".to_string())));
}

struct AlwaysInvalidBackend;

impl ModelBackend for AlwaysInvalidBackend {
    fn generate(
        &mut self,
        _prompt: &str,
        _c: &Constraint,
        _k: Kind,
        _s: &KeyedMap<SlotData>,
    ) -> Result<String, InvalidModelOutput> {
        Err(InvalidModelOutput::new("мусор"))
    }
}

#[test]
fn invalid_model_output_becomes_reject_syntax_not_panic() {
    let mut sched = Scheduler::new(AlwaysInvalidBackend, ToolRegistry::new());
    let mut g = parse(CHAIN_SRC).unwrap();
    let r = sched.run(&mut g, "root").unwrap();
    assert_eq!(r.rejects.len(), 1);
    assert_eq!(r.rejects[0].slots.get("reason"), Some(&SlotData::Ident("SYNTAX".to_string())));
    assert!(!r.outputs.contains_key("work"), "потомок не исполняется после отказа");
}

struct AlwaysFatalBackend;

impl ModelBackend for AlwaysFatalBackend {
    fn generate(
        &mut self,
        _prompt: &str,
        _c: &Constraint,
        _k: Kind,
        _s: &KeyedMap<SlotData>,
    ) -> Result<String, InvalidModelOutput> {
        Err(InvalidModelOutput::fatal("HTTP 401: invalid x-api-key"))
    }
}

#[test]
fn fatal_backend_error_aborts_whole_run_not_a_single_reject() {
    let mut sched = Scheduler::new(AlwaysFatalBackend, ToolRegistry::new());
    let mut g = parse(CHAIN_SRC).unwrap();
    let err = sched.run(&mut g, "root").expect_err("fatal обязан прервать run() целиком");
    assert!(err.contains("401"), "причина фатального сбоя видна в сообщении: {err}");
}

#[test]
fn unknown_tool_yields_reject_type() {
    let mut sched = Scheduler::new(MockBackend::new(), ToolRegistry::new());
    let mut g = parse(r#"NODE t: TOOL [EXTERNAL] CALL save WITH path="x" END EDGES: END"#).unwrap();
    let r = sched.run(&mut g, "root").unwrap();
    assert_eq!(r.rejects.len(), 1);
    assert_eq!(r.rejects[0].slots.get("reason"), Some(&SlotData::Ident("TYPE".to_string())));
}

#[test]
fn presentation_round_trip_preserves_cache_key_all_kinds() {
    let src = r#"
        NODE role: ROLE [GENERATIVE] AS "senior architect" END
        NODE task1: TASK [GENERATIVE] GIVEN "raw" PRODUCE "summary" END
        NODE filter1: FILTER [GENERATIVE] WHERE status = "draft" INTO n3 END
        NODE step1: STEP [GENERATIVE] DO "ack" INTO out END
        NODE classify1: CLASSIFY [GENERATIVE] INPUT "x" LABELS a="urgent", b="normal" INTO level END
        NODE spawn1: SPAWN [GENERATIVE] PLAN "decompose" INTO subgraph END
        NODE tool1: TOOL [EXTERNAL] CALL search WITH query="Luck grammar", limit=5 END
        NODE doc1: DOCUMENT [EXTERNAL] FROM "guide.md" END
        NODE reject1: REJECT_MARK [REJECT] CAUSE plan REASON SYNTAX END
        EDGES: END
        "#;
    let g = parse(src).unwrap();
    assert_eq!(g.nodes.len(), Kind::all().len());
    for id in g.nodes.keys() {
        let n = node(&g, &id);
        let rt = presentation::node_round_trip(n).unwrap_or_else(|e| panic!("{id}: {}", e.0));
        assert_eq!(rt.cache_key, n.cache_key, "cache_key сохранён, узел {id}");
        assert_eq!(rt.slots, n.slots, "слоты сохранены, узел {id}");
    }
}

#[test]
fn style_does_not_affect_parse() {
    let g = parse(SAMPLE).unwrap();
    let expanded = presentation::to_presentation(&g, Style::Expanded);
    let compact = presentation::to_presentation(&g, Style::Compact);
    assert_ne!(expanded, compact, "тексты разные (иначе тест бессмыслен)");
    let g1 = presentation::from_presentation(&expanded, "root").unwrap();
    let g2 = presentation::from_presentation(&compact, "root").unwrap();
    for id in g1.nodes.keys() {
        assert_eq!(node(&g1, &id).cache_key, node(&g2, &id).cache_key, "узел {id}");
    }
    assert_eq!(g1.edges.len(), g2.edges.len());
}

#[test]
fn full_graph_round_trip_via_presentation() {
    let g = parse(SAMPLE).unwrap();
    let text = presentation::to_presentation(&g, Style::Expanded);
    let g2 = presentation::from_presentation(&text, "root").unwrap();
    assert_eq!(g.nodes.len(), g2.nodes.len());
    assert_eq!(g.edges.len(), g2.edges.len());
    for id in g.nodes.keys() {
        assert_eq!(node(&g, &id).cache_key, node(&g2, &id).cache_key, "узел {id}");
    }
    let branch_edge = g2.edges.iter().find(|e| e.edge_type == EdgeType::Branch).unwrap();
    assert_eq!(branch_edge.label.as_deref(), Some("on_match"));
}

#[test]
fn malformed_presentation_is_error_not_panic() {
    assert!(presentation::from_presentation("<luck><nodes><ghost id=\"x\"/></nodes><edges/></luck>", "root").is_err());
    assert!(presentation::from_presentation("<luck><nodes><role id=\"x\"/></nodes><edges/></luck>", "root").is_err());
}

#[test]
fn canonical_form_cost_is_measured_not_guessed() {
    const N: usize = 50_000;
    let mut keys = BTreeSet::new();
    for i in 0..N {
        let mut slots: KeyedMap<SlotData> = KeyedMap::new();
        slots.insert("given".to_string(), SlotData::Str(format!("raw incident payload number {i}")));
        slots.insert("produce".to_string(), SlotData::Str("structured summary".to_string()));
        let n = Node::new(format!("n{i}"), Subtype::Generative, Kind::Task, slots);
        keys.insert(n.cache_key);
    }
    assert_eq!(keys.len(), N, "N узлов с разным содержимым -> N разных cache_key, коллизий нет");
}

#[test]
fn ebnf_production_lists_slots_in_order() {
    assert_eq!(
        registry::spec(Kind::Role).ebnf_production(),
        "role_body = \"AS\" , string_literal ;"
    );
    assert_eq!(
        registry::spec(Kind::RejectMark).ebnf_production(),
        "reject_mark_body = \"CAUSE\" , identifier , \"REASON\" , ( \"SYNTAX\" | \"TYPE\" | \"BUDGET\" ) ;"
    );
}

#[test]
fn subtype_table_is_derived_from_registry() {
    let table = registry::subtype_kinds();
    assert_eq!(
        table,
        vec![
            (
                Subtype::Generative,
                vec![Kind::Role, Kind::Task, Kind::Filter, Kind::Step, Kind::Classify, Kind::Spawn]
            ),
            (Subtype::External, vec![Kind::Tool, Kind::Document]),
            (Subtype::Reject, vec![Kind::RejectMark]),
        ]
    );
}

#[test]
fn canonical_slot_order_follows_registry() {
    assert_eq!(registry::canonical_slot_order(Kind::Tool), vec!["tool", "args"]);
    assert_eq!(registry::canonical_slot_order(Kind::Classify), vec!["input", "labels", "into"]);
}

#[test]
fn graph_node_id_pairs_cache_key_and_branch() {
    let g = parse(SAMPLE).unwrap();
    let n = g.nodes.get("n1").unwrap();
    let (key, branch) = n.graph_node_id();
    assert_eq!(key, n.cache_key);
    assert_eq!(branch, "root");
    assert_eq!(key.len(), 16);
}

#[test]
fn digest_prefix_is_sha256_in_hex() {
    assert_eq!(luck::digest::digest_hex_prefix("abc", 16), "ba7816bf8f01cfea");
    assert_eq!(luck::digest::digest_hex_prefix("", 64), "e3b0c44298fc1c149afbf4c8996fb92427ae41e4649b934ca495991b7852b855");
}

fn classify_slots(labels: &[(&str, &str)]) -> KeyedMap<SlotData> {
    let mut slots: KeyedMap<SlotData> = KeyedMap::new();
    slots.insert("input".to_string(), SlotData::Str("i".into()));
    slots.insert(
        "labels".to_string(),
        SlotData::Args(labels.iter().map(|(k, v)| (k.to_string(), v.to_string())).collect()),
    );
    slots.insert("into".to_string(), SlotData::Ident("o".into()));
    slots
}

#[test]
fn singleton_output_when_all_labels_agree() {
    let same = classify_slots(&[("a", "\"x\""), ("b", "\"x\"")]);
    assert_eq!(decoding::singleton_output(Kind::Classify, &same), Some("x".to_string()));
    let one = classify_slots(&[("a", "\"only\"")]);
    assert_eq!(decoding::singleton_output(Kind::Classify, &one), Some("only".to_string()));
    let two = classify_slots(&[("a", "\"x\""), ("b", "\"y\"")]);
    assert_eq!(decoding::singleton_output(Kind::Classify, &two), None);
}

#[test]
fn presentation_round_trip_keeps_leading_spaces() {
    let g = parse(r#"NODE r: ROLE [GENERATIVE] AS "  x" END EDGES: END"#).unwrap();
    let n = node(&g, "r");
    let rt = presentation::node_round_trip(n).unwrap_or_else(|e| panic!("{}", e.0));
    assert_eq!(rt.slots, n.slots, "слоты сохранены");
    assert_eq!(rt.cache_key, n.cache_key, "cache_key сохранён");
}

#[test]
fn validating_steps_take_ask_again_or_give_up() {
    let filter = classify_slots(&[("a", "\"yes\""), ("b", "\"no\"")]);
    match after_reply(Kind::Classify, &filter, "  yes \n", 1, 3) {
        ReplyStep::Done(t) => assert_eq!(t, "yes"),
        other => panic!("ожидался ответ, получено {other:?}"),
    }
    match after_reply(Kind::Classify, &filter, "maybe", 1, 3) {
        ReplyStep::AskAgain(r) => assert!(!r.is_empty()),
        other => panic!("ожидался повтор, получено {other:?}"),
    }
    match after_reply(Kind::Classify, &filter, "maybe", 3, 3) {
        ReplyStep::GiveUp(r) => assert!(!r.is_empty()),
        other => panic!("ожидался отказ, получено {other:?}"),
    }
    let c = Constraint { definition: "output = \"yes\" | \"no\" ;".to_string(), stop: vec![] };
    let req = instruction("PROMPT", &c, Kind::Classify);
    assert!(req.starts_with("PROMPT\n\n") && req.ends_with("output = \"yes\" | \"no\" ;"));
    assert_eq!(retry_instruction("A", "B"), "A\n\nПредыдущий ответ отвергнут: B");
}
