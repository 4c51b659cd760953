use spm::dispatch::{dispatch_plan, BatchEntry, Call, Forwarder};
use spm::names::layer_name;
use spm::session::{token_action, Session, TurnAction};
use spm::topology::{first_unserved, layer_pattern_matches, load_forwarders, node_serves, Node, Topology};

fn fwd(i: usize, ident: &str) -> Forwarder {
    if ident == "local" {
        Forwarder::Local { layer_name: layer_name(i) }
    } else {
        Forwarder::Remote {
            layer_name: layer_name(i),
            node_name: ident.to_string(),
            host: format!("{}:10128", ident),
        }
    }
}

/// Renders a plan as `local(i)` / `batch(node,[i,j])` strings.
fn render(calls: &[Call]) -> Vec<String> {
    calls
        .iter()
        .map(|c| match c {
            Call::Local { layer_index } => format!("local({})", layer_index),
            Call::Batch { node, entries } => {
                let idx: Vec<String> = entries.iter().map(|e| e.layer_index.to_string()).collect();
                format!("batch({},[{}])", node, idx.join(","))
            }
        })
        .collect()
}

#[test]
fn plan_batches_maximal_runs() {
    let ids = ["local", "A", "A", "local", "B", "B", "B"];
    let blocks: Vec<Forwarder> = ids.iter().enumerate().map(|(i, id)| fwd(i, id)).collect();
    let calls = dispatch_plan(&blocks, 9);
    assert_eq!(
        render(&calls),
        vec!["local(0)", "batch(A,[1,2])", "local(3)", "batch(B,[4,5,6])"]
    );
    if let Call::Batch { entries, .. } = &calls[1] {
        assert_eq!(entries[0].layer_name, "model.layers.1");
        assert_eq!(entries[1].layer_name, "model.layers.2");
        assert!(entries.iter().all(|e| e.position == 9));
    } else {
        panic!("expected a batch");
    }
}

#[test]
fn plan_covers_last_layer() {
    let blocks: Vec<Forwarder> = ["A", "local"].iter().enumerate().map(|(i, id)| fwd(i, id)).collect();
    assert_eq!(render(&dispatch_plan(&blocks, 0)), vec!["batch(A,[0])", "local(1)"]);
    let blocks: Vec<Forwarder> = ["local", "local"].iter().enumerate().map(|(i, id)| fwd(i, id)).collect();
    assert_eq!(render(&dispatch_plan(&blocks, 0)), vec!["local(0)", "local(1)"]);
}

#[test]
fn plan_splits_runs_of_different_nodes() {
    let blocks: Vec<Forwarder> = ["A", "B", "A"].iter().enumerate().map(|(i, id)| fwd(i, id)).collect();
    assert_eq!(render(&dispatch_plan(&blocks, 0)), vec!["batch(A,[0])", "batch(B,[1])", "batch(A,[2])"]);
}

#[test]
fn plan_of_no_layers_is_empty() {
    assert!(dispatch_plan(&Vec::new(), 0).is_empty());
}

fn node(host: &str, layers: &[usize]) -> Node {
    Node { host: host.to_string(), description: None, layers: layers.iter().map(|i| layer_name(*i)).collect() }
}

#[test]
fn end_to_end_topology_plan_and_turn() {
    let topology = Topology {
        nodes: vec![("A".to_string(), node("10.0.0.1:10128", &[0, 1])), ("B".to_string(), node("10.0.0.2:10128", &[2]))],
    };
    let blocks = load_forwarders(&topology, 4);
    assert_eq!(blocks.len(), 4);
    assert!(blocks[3].is_local());
    match &blocks[0] {
        Forwarder::Remote { host, node_name, .. } => {
            assert_eq!(host, "10.0.0.1:10128");
            assert_eq!(node_name, "A");
        }
        _ => panic!("layer 0 should be remote"),
    }
    let calls = dispatch_plan(&blocks, 0);
    assert_eq!(render(&calls), vec!["batch(A,[0,1])", "batch(B,[2])", "local(3)"]);

    // A 4-token prompt; the turn ends at the first end-of-sequence id.
    let mut s = Session::new(true, Some(2), 64);
    s.start_prompt(vec![11, 12, 13, 14]);
    let samples = [5u32, 7, 2, 9];
    let mut emitted = Vec::new();
    for (index, id) in samples.iter().enumerate() {
        let tok = s.accept(index, *id, None);
        match token_action(&tok, s.generated_tokens(), 2048) {
            TurnAction::Emit { text } => emitted.push(text),
            TurnAction::EmitLast { text } => {
                emitted.push(text);
                break;
            }
            TurnAction::Finish => break,
        }
    }
    assert_eq!(emitted, vec!["<token 5>", "<token 7>"]);
    assert_eq!(s.generated_tokens(), 3);
}

#[test]
fn topology_first_node_wins_and_unknown_is_local() {
    let topology = Topology {
        nodes: vec![("A".to_string(), node("a:1", &[1])), ("B".to_string(), node("b:1", &[1, 2]))],
    };
    let (name, n) = topology.get_node_for_layer(&layer_name(1)).unwrap();
    assert_eq!(name, "A");
    assert_eq!(n.host, "a:1");
    assert_eq!(topology.node_index_for_layer(&layer_name(2)), Some(1));
    assert!(topology.get_node_for_layer(&layer_name(7)).is_none());
}

#[test]
fn forwarder_identity() {
    assert_eq!(fwd(0, "local").ident(), "local");
    assert_eq!(fwd(0, "gpu1").ident(), "gpu1");
    assert!(fwd(0, "gpu1").same_route(&fwd(5, "gpu1")));
    assert!(!fwd(0, "gpu1").same_route(&fwd(0, "local")));
    assert_eq!(fwd(3, "x").layer_name(), "model.layers.3");
}

#[test]
fn layer_range_patterns() {
    let p = "model.layers.0-5".to_string();
    assert!(layer_pattern_matches(&p, &layer_name(0)));
    assert!(layer_pattern_matches(&p, &layer_name(5)));
    assert!(!layer_pattern_matches(&p, &layer_name(6)));
    assert!(!layer_pattern_matches(&p, &"model.layers.05".to_string()));
    assert!(!layer_pattern_matches(&p, &"model.layers.0-5x".to_string()));
    let p = "model.layers.10-12".to_string();
    assert!(layer_pattern_matches(&p, &layer_name(11)));
    assert!(!layer_pattern_matches(&p, &layer_name(1)));
    // an exact name matches only itself
    let p = "model.layers.3".to_string();
    assert!(layer_pattern_matches(&p, &layer_name(3)));
    assert!(!layer_pattern_matches(&p, &layer_name(30)));
    // an empty range names nothing
    assert!(!layer_pattern_matches(&"model.layers.5-2".to_string(), &layer_name(3)));
}

#[test]
fn topology_with_ranges() {
    let topology = Topology {
        nodes: vec![(
            "w1".to_string(),
            Node { host: "w1:10128".to_string(), description: Some("cuda".to_string()), layers: vec!["model.layers.0-15".to_string()] },
        )],
    };
    let blocks = load_forwarders(&topology, 20);
    let calls = dispatch_plan(&blocks, 3);
    let rendered = render(&calls);
    assert_eq!(rendered[0], "batch(w1,[0,1,2,3,4,5,6,7,8,9,10,11,12,13,14,15])");
    assert_eq!(&rendered[1..], &["local(16)", "local(17)", "local(18)", "local(19)"]);
}

#[test]
fn worker_checks_requested_layers() {
    let w = node("w:1", &[2, 3]);
    let entry = |i: usize| BatchEntry { layer_name: layer_name(i), position: 0, layer_index: i };
    assert_eq!(first_unserved(&w, &vec![entry(2), entry(3)]), None);
    assert_eq!(first_unserved(&w, &vec![entry(2), entry(4), entry(5)]), Some(1));
    assert!(node_serves(&w, &layer_name(3)));
    assert!(!node_serves(&w, &layer_name(1)));
}
