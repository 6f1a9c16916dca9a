use atlas::control::AnalysisControl;
use atlas::envelope::AnalysisError;
use atlas::graph::{
    analyze_graph, find_path, Definition, GraphAnalysis, PathAnalysis, PathOutcome, Relation,
    SelectedGraph, SourceMetrics, Target,
};
use atlas::limits::AnalysisLimits;
use atlas::model::{CfgStatus, Coverage, Status, UnknownReason};
use std::time::Duration;

fn node(id: &str) -> Definition {
    Definition {
        id: id.into(),
        context_id: "context".into(),
        cfg_status: CfgStatus::Active,
        visibility: "pub".into(),
        metrics: SourceMetrics {
            lines: 5,
            branches: 2,
            ..Default::default()
        },
    }
}

fn edge(id: &str, source: &str, target: &str) -> Relation {
    Relation {
        id: id.into(),
        source: source.into(),
        target: Target::Resolved { id: target.into() },
        kind: "calls".into(),
    }
}

fn control() -> AnalysisControl {
    AnalysisControl::new(Duration::from_secs(5))
}

/// The caller measures the serialized selection; its debug rendering stands in here.
fn input_size(graph: &SelectedGraph) -> usize {
    format!("{:?}{:?}{:?}", graph.nodes, graph.edges, graph.coverage).len()
}

/// The size of a report as the caller measures it; its debug rendering stands in for the
/// serialized report here.
fn response_size<T: std::fmt::Debug>(report: &T) -> usize {
    format!("{:?}", report).len()
}

fn run_analysis(graph: &SelectedGraph, limits: AnalysisLimits, control: &AnalysisControl) -> Result<GraphAnalysis, AnalysisError> {
    analyze_graph(graph, limits, control, input_size(graph), response_size::<GraphAnalysis>)
}

fn run_path(
    graph: &SelectedGraph,
    start: &str,
    target: Option<&str>,
    limits: AnalysisLimits,
    control: &AnalysisControl,
) -> Result<PathAnalysis, AnalysisError> {
    let start = start.to_string();
    let target = target.map(|t| t.to_string());
    find_path(graph, &start, target.as_ref(), limits, control, input_size(graph), response_size::<PathAnalysis>)
}

fn analyze(nodes: &[Definition], edges: &[Relation]) -> GraphAnalysis {
    let coverage = Coverage::complete();
    run_analysis(
        &SelectedGraph {
            nodes,
            edges,
            coverage: &coverage,
            input_truncated: false,
        },
        AnalysisLimits::default(),
        &control(),
    )
    .unwrap()
}

fn path(nodes: &[Definition], edges: &[Relation], target: &str, limits: AnalysisLimits) -> PathAnalysis {
    let coverage = Coverage::complete();
    run_path(
        &SelectedGraph {
            nodes,
            edges,
            coverage: &coverage,
            input_truncated: false,
        },
        "a",
        Some(target),
        limits,
        &control(),
    )
    .unwrap()
}

#[test]
fn components_include_recursion_and_deterministic_condensation() {
    let nodes = [node("a"), node("b"), node("c"), node("d")];
    let edges = [
        edge("1", "a", "b"),
        edge("2", "b", "a"),
        edge("3", "b", "c"),
        edge("4", "d", "d"),
    ];
    let report = analyze(&nodes, &edges);
    assert_eq!(report.components.len(), 3);
    assert_eq!(report.components[0].members, ["a".to_string(), "b".to_string()]);
    assert!(report.components[0].recursive);
    assert!(!report.components[1].recursive);
    assert!(report.components[2].recursive);
    assert_eq!(report.component_links.len(), 1);
    assert!(report
        .envelope
        .assumptions
        .iter()
        .any(|text| text.contains("entire repository")));
    let reversed = analyze(
        &nodes.clone().into_iter().rev().collect::<Vec<_>>(),
        &edges.clone().into_iter().rev().collect::<Vec<_>>(),
    );
    assert_eq!(format!("{:?}", report), format!("{:?}", reversed));
}

#[test]
fn distinct_fan_counts_do_not_count_repeated_sites_as_distinct_targets() {
    let nodes = [node("a"), node("b")];
    let mut unknown = edge("3", "a", "b");
    unknown.target = Target::Unknown {
        reason: UnknownReason::IndirectTargetUnknown,
        label: "callback".into(),
    };
    let report = analyze(&nodes, &[edge("1", "a", "b"), edge("2", "a", "b"), unknown]);
    let a = &report.metrics[0];
    assert_eq!(
        (a.distinct_callees, a.outgoing_call_sites, a.unknown_call_sites),
        (1, 3, 1)
    );
    let b = &report.metrics[1];
    assert_eq!((b.distinct_callers, b.incoming_call_sites), (1, 2));
    assert_eq!(report.envelope.coverage.status, Status::Partial);
    assert_eq!(report.unknown_frontier.len(), 1);
    assert_eq!(report.distributions[0].median, 5);
}

#[test]
fn shortest_path_is_deterministic_with_parallel_edges_and_cycles() {
    let nodes = [node("a"), node("b"), node("c"), node("d")];
    let edges = [
        edge("ab2", "a", "b"),
        edge("ab1", "a", "b"),
        edge("ac", "a", "c"),
        edge("ba", "b", "a"),
        edge("bd", "b", "d"),
        edge("cd", "c", "d"),
    ];
    let report = path(&nodes, &edges, "d", AnalysisLimits::default());
    assert_eq!(report.outcome, PathOutcome::Found);
    assert_eq!(report.path, ["a", "b", "d"].map(String::from));
    assert_eq!(report.relations, ["ab1", "bd"].map(String::from));
    let reversed = path(
        &nodes.clone().into_iter().rev().collect::<Vec<_>>(),
        &edges.clone().into_iter().rev().collect::<Vec<_>>(),
        "d",
        AnalysisLimits::default(),
    );
    assert_eq!(format!("{:?}", report), format!("{:?}", reversed));
}

#[test]
fn zero_length_path_and_depth_zero_are_well_defined() {
    let nodes = [node("a"), node("b")];
    let edges = [edge("ab", "a", "b")];
    assert_eq!(
        path(
            &nodes,
            &edges,
            "a",
            AnalysisLimits {
                max_depth: 0,
                ..Default::default()
            }
        )
        .path,
        ["a".to_string()]
    );
    let report = path(
        &nodes,
        &edges,
        "b",
        AnalysisLimits {
            max_depth: 0,
            ..Default::default()
        },
    );
    assert_eq!(report.outcome, PathOutcome::Unknown);
    assert!(report.envelope.truncated);
    assert_eq!(report.reachable, ["a".to_string()]);
}

#[test]
fn missing_path_is_only_a_negative_inside_complete_selection() {
    let nodes = [node("a"), node("b")];
    assert_eq!(
        path(&nodes, &[], "b", AnalysisLimits::default()).outcome,
        PathOutcome::NotFoundInSelection
    );
    assert_eq!(
        path(&nodes, &[], "missing", AnalysisLimits::default()).outcome,
        PathOutcome::Unknown
    );
    let coverage = Coverage::partial(UnknownReason::MissingDependency, "Dependency unavailable");
    let report = run_path(
        &SelectedGraph {
            nodes: &nodes,
            edges: &[],
            coverage: &coverage,
            input_truncated: false,
        },
        "a",
        Some("b"),
        AnalysisLimits::default(),
        &control(),
    )
    .unwrap();
    assert_eq!(report.outcome, PathOutcome::Unknown);
}

#[test]
fn unknown_frontier_prevents_false_complete_negative() {
    let nodes = [node("a"), node("b")];
    let mut unknown = edge("unknown", "a", "b");
    unknown.target = Target::Unknown {
        reason: UnknownReason::IndirectTargetUnknown,
        label: "fn pointer".into(),
    };
    let report = path(&nodes, &[unknown], "b", AnalysisLimits::default());
    assert_eq!(report.outcome, PathOutcome::Unknown);
    assert_eq!(report.unknown_frontier.len(), 1);
    let outside = path(
        &nodes,
        &[edge("outside", "a", "external")],
        "b",
        AnalysisLimits::default(),
    );
    assert_eq!(
        outside.unknown_frontier[0].target_definition_id,
        Some("external".to_string())
    );
}

#[test]
fn edge_node_visit_and_input_caps_are_reported() {
    let nodes = [node("a"), node("b"), node("c")];
    let edges = [edge("1", "a", "b"), edge("2", "b", "c")];
    for limits in [
        AnalysisLimits {
            max_nodes: 1,
            ..Default::default()
        },
        AnalysisLimits {
            max_edges: 1,
            ..Default::default()
        },
        AnalysisLimits {
            max_visits: 1,
            ..Default::default()
        },
    ] {
        let report = path(&nodes, &edges, "c", limits);
        assert_eq!(report.outcome, PathOutcome::Unknown);
        assert!(report.envelope.truncated);
    }
    let coverage = Coverage::complete();
    let report = run_path(
        &SelectedGraph {
            nodes: &nodes,
            edges: &edges,
            coverage: &coverage,
            input_truncated: true,
        },
        "c",
        Some("a"),
        AnalysisLimits::default(),
        &control(),
    )
    .unwrap();
    assert_eq!(report.outcome, PathOutcome::Unknown);
}

#[test]
fn cancellation_and_deadline_never_return_complete_negative() {
    let nodes = [node("a")];
    let cancelled = control();
    cancelled.cancel();
    for control in [cancelled, AnalysisControl::new(Duration::ZERO)] {
        let coverage = Coverage::complete();
        let graph = SelectedGraph {
            nodes: &nodes,
            edges: &[],
            coverage: &coverage,
            input_truncated: false,
        };
        let report = run_path(&graph, "a", None, AnalysisLimits::default(), &control).unwrap();
        assert_eq!(report.outcome, PathOutcome::Unknown);
        assert!(report.envelope.cancelled || report.envelope.deadline_reached);
        let summary = run_analysis(&graph, AnalysisLimits::default(), &control).unwrap();
        assert!(summary.envelope.truncated);
        assert!(summary.components.is_empty());
    }
}

#[test]
fn rejects_invalid_limits_duplicate_ids_mixed_contexts_and_byte_overflow() {
    let node_a = node("a");
    let mut other = node("b");
    other.context_id = "other".into();
    for nodes in [vec![node_a.clone(), node_a.clone()], vec![node_a.clone(), other]] {
        let coverage = Coverage::complete();
        assert!(matches!(
            run_analysis(
                &SelectedGraph {
                    nodes: &nodes,
                    edges: &[],
                    coverage: &coverage,
                    input_truncated: false
                },
                AnalysisLimits::default(),
                &control()
            ),
            Err(AnalysisError::InvalidInput(_))
        ));
    }
    let coverage = Coverage::complete();
    let graph = SelectedGraph {
        nodes: std::slice::from_ref(&node_a),
        edges: &[],
        coverage: &coverage,
        input_truncated: false,
    };
    assert!(matches!(
        run_analysis(
            &graph,
            AnalysisLimits {
                max_nodes: 0,
                ..Default::default()
            },
            &control()
        ),
        Err(AnalysisError::InvalidInput(_))
    ));
    assert!(matches!(
        run_analysis(
            &graph,
            AnalysisLimits {
                max_response_bytes: 256,
                ..Default::default()
            },
            &control()
        ),
        Err(AnalysisError::BudgetExhausted)
    ));
    let duplicate = [edge("x", "a", "a"), edge("x", "a", "a")];
    assert!(run_analysis(
        &SelectedGraph {
            edges: &duplicate,
            ..graph
        },
        AnalysisLimits::default(),
        &control()
    )
    .is_err());
}

#[test]
fn empty_graph_has_no_metrics_and_noncall_relations_are_not_calls() {
    let report = analyze(&[], &[]);
    assert!(report.components.is_empty());
    assert!(report.distributions.is_empty());
    let mut relation = edge("1", "a", "a");
    relation.kind = "declares".into();
    let report = analyze(&[node("a")], &[relation]);
    assert!(!report.components[0].recursive);
    assert_eq!(report.selected_call_sites, 0);
}

#[test]
fn reachability_does_not_enumerate_paths_or_loop_on_cycles() {
    let nodes = [node("a"), node("b"), node("c")];
    let edges = [edge("ab", "a", "b"), edge("ba", "b", "a")];
    let coverage = Coverage::complete();
    let report = run_path(
        &SelectedGraph {
            nodes: &nodes,
            edges: &edges,
            coverage: &coverage,
            input_truncated: false,
        },
        "a",
        None,
        AnalysisLimits::default(),
        &control(),
    )
    .unwrap();
    assert_eq!(report.outcome, PathOutcome::ReachabilityComplete);
    assert_eq!(report.reachable, ["a".to_string(), "b".to_string()]);
    assert!(report.path.is_empty());
}

#[test]
fn hard_input_caps_refuse_work_before_quadratic_growth() {
    let nodes = (0..10_001).map(|index| node(&index.to_string())).collect::<Vec<_>>();
    let coverage = Coverage::complete();
    assert!(matches!(
        analyze_graph(
            &SelectedGraph {
                nodes: &nodes,
                edges: &[],
                coverage: &coverage,
                input_truncated: false
            },
            AnalysisLimits::default(),
            &control(),
            0,
            response_size::<GraphAnalysis>
        ),
        Err(AnalysisError::BudgetExhausted)
    ));
}

#[test]
fn exhaustive_three_node_graphs_match_independent_transitive_closure() {
    let nodes = [node("a"), node("b"), node("c")];
    for mask in 0u16..512 {
        let mut closure = [[false; 3]; 3];
        let mut edges = Vec::new();
        for (source, row) in closure.iter_mut().enumerate() {
            for (target, reachable) in row.iter_mut().enumerate() {
                if mask & (1 << (source * 3 + target)) != 0 {
                    *reachable = true;
                    edges.push(edge(
                        &format!("{source}:{target}"),
                        &nodes[source].id,
                        &nodes[target].id,
                    ));
                }
            }
        }
        for (index, row) in closure.iter_mut().enumerate() {
            row[index] = true;
        }
        for through in 0..3 {
            for source in 0..3 {
                for target in 0..3 {
                    closure[source][target] |= closure[source][through] && closure[through][target];
                }
            }
        }
        let report = analyze(&nodes, &edges);
        for source in 0..3 {
            for target in 0..3 {
                let same_component = report.components.iter().any(|component| {
                    component.members.contains(&nodes[source].id)
                        && component.members.contains(&nodes[target].id)
                });
                assert_eq!(
                    same_component,
                    closure[source][target] && closure[target][source],
                    "SCC mismatch for mask {mask}"
                );
                let coverage = Coverage::complete();
                let graph = SelectedGraph {
                    nodes: &nodes,
                    edges: &edges,
                    coverage: &coverage,
                    input_truncated: false,
                };
                let report = run_path(
                    &graph,
                    &nodes[source].id,
                    Some(nodes[target].id.as_str()),
                    AnalysisLimits::default(),
                    &control(),
                )
                .unwrap();
                assert_eq!(
                    report.outcome == PathOutcome::Found,
                    closure[source][target],
                    "BFS mismatch for mask {mask}"
                );
            }
        }
    }
}

#[test]
fn component_identities_links_and_distributions_are_exact() {
    let nodes = [node("a"), node("b"), node("c")];
    let edges = [edge("1", "a", "b"), edge("2", "b", "a"), edge("3", "b", "c"), edge("4", "a", "c")];
    let report = analyze(&nodes, &edges);
    assert_eq!(report.components.len(), 2);
    assert_eq!(report.components[1].members, ["c".to_string()]);
    assert_eq!(report.components[0].id.len(), 64);
    assert_ne!(report.components[0].id, report.components[1].id);
    // Two crossing call sites join the same pair of components: one link.
    assert_eq!(report.component_links.len(), 1);
    assert_eq!(report.component_links[0].source, report.components[0].id);
    assert_eq!(report.component_links[0].target, report.components[1].id);
    let c = &report.metrics[2];
    assert_eq!((c.distinct_callers, c.incoming_call_sites, c.outgoing_call_sites), (2, 2, 0));
    assert_eq!(report.distributions.len(), 4);
    assert_eq!(report.distributions[1].metric, "distinct_callers");
    assert_eq!(
        (report.distributions[1].minimum, report.distributions[1].maximum),
        (1, 2)
    );
    assert_eq!(report.selected_nodes, 3);
    assert_eq!(report.selected_call_sites, 4);
}

#[test]
fn selection_truncation_and_frontier_order_are_reported() {
    let nodes = [node("b"), node("a"), node("c")];
    let edges = [edge("z", "a", "outside"), edge("y", "b", "gone"), edge("x", "zz", "a")];
    let coverage = Coverage::complete();
    let report = run_analysis(
        &SelectedGraph {
            nodes: &nodes,
            edges: &edges,
            coverage: &coverage,
            input_truncated: false,
        },
        AnalysisLimits {
            max_nodes: 2,
            ..Default::default()
        },
        &control(),
    )
    .unwrap();
    assert!(report.envelope.truncated);
    assert_eq!(report.selected_nodes, 2);
    let sources: Vec<&str> = report
        .unknown_frontier
        .iter()
        .map(|f| f.source.as_str())
        .collect();
    assert_eq!(sources, ["a", "b", "zz"]);
    assert_eq!(report.selected_call_sites, 2);
}
