use rbt::coordinator::{Coordinator, JobState};
use rbt::fingerprint::fingerprint_parts;
use rbt::graph::{Graph, GraphError};
use rbt::job::{FileHashes, Job, JobError, JobRecord};
use rbt::paths::check_output_path;
use rbt::store::Store;
use rbt::workspace::{capture_plan, CaptureError};

fn rec(tool: &str, args: &[&str], inputs: &[&str], outputs: &[&str]) -> JobRecord {
    JobRecord {
        tool: tool.to_string(),
        args: args.iter().map(|s| s.to_string()).collect(),
        input_files: inputs.iter().map(|s| s.to_string()).collect(),
        outputs: outputs.iter().map(|s| s.to_string()).collect(),
    }
}

fn hashes(pairs: &[(&str, &str)]) -> FileHashes {
    let mut h = FileHashes::new();
    for (p, v) in pairs {
        h.insert(p.to_string(), v.to_string());
    }
    h
}

// A reference computation of the documented fingerprint composition.
fn mix(h: u64, x: u64) -> u64 {
    (h ^ x).wrapping_mul(0x0000_0100_0000_01b3)
}

fn mix_str(mut h: u64, s: &str) -> u64 {
    h = mix(h, s.chars().count() as u64);
    for c in s.chars() {
        h = mix(h, c as u64);
    }
    h
}

#[test]
fn fingerprint_matches_documented_composition() {
    let tool = "cc";
    let args = vec!["-O2".to_string(), "main.c".to_string()];
    let inputs = vec![("main.c".to_string(), "h1".to_string())];
    let outputs = vec!["main.o".to_string()];

    let mut h = mix(0xcbf2_9ce4_8422_2325, 1);
    h = mix_str(h, tool);
    h = mix(h, 2);
    h = mix_str(h, "-O2");
    h = mix_str(h, "main.c");
    h = mix(h, 1);
    h = mix_str(h, "main.c");
    h = mix_str(h, "h1");
    h = mix(h, 1);
    h = mix_str(h, "main.o");

    let id = fingerprint_parts(tool, &args, &inputs, &outputs);
    assert_eq!(id.value(), h);
}

#[test]
fn determinism_same_record_same_id() {
    let h = hashes(&[("a.txt", "hash-a"), ("b.txt", "hash-b")]);
    let r1 = rec("tool", &["x", "y"], &["a.txt", "b.txt"], &["out"]);
    let r2 = rec("tool", &["x", "y"], &["a.txt", "b.txt"], &["out"]);
    let j1 = Job::from_glue(r1, &h).unwrap();
    let j2 = Job::from_glue(r2, &h).unwrap();
    assert_eq!(j1.id.value(), j2.id.value());
}

#[test]
fn order_independence_of_inputs_and_outputs() {
    let h = hashes(&[("a.txt", "hash-a"), ("b.txt", "hash-b")]);
    let r1 = rec("tool", &["x"], &["a.txt", "b.txt"], &["o1", "o2"]);
    let r2 = rec("tool", &["x"], &["b.txt", "a.txt"], &["o2", "o1"]);
    let j1 = Job::from_glue(r1, &h).unwrap();
    let j2 = Job::from_glue(r2, &h).unwrap();
    assert_eq!(j1.id.value(), j2.id.value());

    // duplicate declarations are deduplicated silently
    let r3 = rec("tool", &["x"], &["b.txt", "a.txt", "b.txt"], &["o1", "o2", "o2"]);
    let j3 = Job::from_glue(r3, &h).unwrap();
    assert_eq!(j1.id.value(), j3.id.value());
}

#[test]
fn argument_order_changes_id() {
    let h = hashes(&[("a.txt", "hash-a")]);
    let r1 = rec("tool", &["x", "y"], &["a.txt"], &["out"]);
    let r2 = rec("tool", &["y", "x"], &["a.txt"], &["out"]);
    let j1 = Job::from_glue(r1, &h).unwrap();
    let j2 = Job::from_glue(r2, &h).unwrap();
    assert_ne!(j1.id.value(), j2.id.value());
}

#[test]
fn missing_input_hash_is_rejected() {
    let h = hashes(&[("a.txt", "hash-a")]);
    let r = rec("tool", &[], &["a.txt", "unknown.txt"], &["out"]);
    match Job::from_glue(r, &h) {
        Err(JobError::MissingInputHash(p)) => assert_eq!(p, "unknown.txt"),
        other => panic!("expected MissingInputHash, got {:?}", other),
    }
}

#[test]
fn unsafe_output_paths_are_rejected() {
    let h = hashes(&[]);
    // the two safety rules come back as distinguishable errors
    match Job::from_glue(rec("tool", &[], &[], &["../escape"]), &h) {
        Err(JobError::EscapingOutputPath(p)) => assert_eq!(p, "../escape"),
        other => panic!("expected EscapingOutputPath, got {:?}", other),
    }
    match Job::from_glue(rec("tool", &[], &[], &["/abs/path"]), &h) {
        Err(JobError::AbsoluteOutputPath(p)) => assert_eq!(p, "/abs/path"),
        other => panic!("expected AbsoluteOutputPath, got {:?}", other),
    }
    match Job::from_glue(rec("tool", &[], &[], &["a/../b"]), &h) {
        Err(JobError::EscapingOutputPath(p)) => assert_eq!(p, "a/../b"),
        other => panic!("expected EscapingOutputPath, got {:?}", other),
    }
    // absolute wins when both rules are broken
    match Job::from_glue(rec("tool", &[], &[], &["/abs/../x"]), &h) {
        Err(JobError::AbsoluteOutputPath(p)) => assert_eq!(p, "/abs/../x"),
        other => panic!("expected AbsoluteOutputPath, got {:?}", other),
    }
}

#[test]
fn path_safety_rules() {
    assert!(check_output_path("plain.txt"));
    assert!(check_output_path("dir/sub/file"));
    assert!(check_output_path("...")); // an odd but legal file name
    assert!(check_output_path("a..b"));
    assert!(!check_output_path("/abs"));
    assert!(!check_output_path(".."));
    assert!(!check_output_path("../up"));
    assert!(!check_output_path("deep/../../up"));
    assert!(!check_output_path("dir/.."));
}

#[test]
fn cycle_is_rejected_before_any_execution() {
    let h = hashes(&[("a.out", "x"), ("b.out", "y")]);
    let a = Job::from_glue(rec("ta", &[], &["b.out"], &["a.out"]), &h).unwrap();
    let b = Job::from_glue(rec("tb", &[], &["a.out"], &["b.out"]), &h).unwrap();
    match Graph::build(vec![a, b]) {
        Err(GraphError::DependencyCycle(ids)) => assert!(!ids.is_empty()),
        other => panic!("expected DependencyCycle, got {:?}", other.is_ok()),
    }
}

#[test]
fn ambiguous_producer_is_rejected() {
    let h = hashes(&[]);
    let a = Job::from_glue(rec("ta", &["1"], &[], &["same.txt"]), &h).unwrap();
    let b = Job::from_glue(rec("tb", &["2"], &[], &["same.txt"]), &h).unwrap();
    match Graph::build(vec![a, b]) {
        Err(GraphError::AmbiguousProducer(p)) => assert_eq!(p, "same.txt"),
        other => panic!("expected AmbiguousProducer, got {:?}", other.is_ok()),
    }
}

#[test]
fn failure_isolation() {
    let h = hashes(&[("f.out", "hf")]);
    let f = Job::from_glue(rec("tf", &[], &[], &["f.out"]), &h).unwrap();
    let r1 = Job::from_glue(rec("t1", &[], &["f.out"], &["r1.out"]), &h).unwrap();
    let r2 = Job::from_glue(rec("t2", &[], &[], &["r2.out"]), &h).unwrap();
    let f_id = f.id.value();
    let r1_id = r1.id.value();
    let r2_id = r2.id.value();

    let g = Graph::build(vec![f, r1, r2]).unwrap();
    let fi = g.find(f_id).unwrap();
    let r1i = g.find(r1_id).unwrap();
    let r2i = g.find(r2_id).unwrap();

    let mut c = Coordinator::new(g);
    let mut store = Store::new();

    assert!(c.ready(fi));
    c.start(fi);
    c.finish_failure(fi);
    assert_eq!(c.state_of(fi), JobState::Failed);
    assert_eq!(c.state_of(r1i), JobState::Failed);

    // the independent root still executes and commits
    assert!(c.ready(r2i));
    c.start(r2i);
    c.finish_success(r2i);
    store
        .commit(r2_id, vec![("r2.out".to_string(), "h-r2".to_string())])
        .unwrap();
    assert_eq!(c.state_of(r2i), JobState::Done);
    assert!(store.has(r2_id));
    assert!(!store.has(r1_id));
}

#[test]
fn concurrent_dedup_single_execution() {
    let h = hashes(&[("shared.out", "hs")]);
    let shared1 = Job::from_glue(rec("ts", &[], &[], &["shared.out"]), &h).unwrap();
    let shared2 = Job::from_glue(rec("ts", &[], &[], &["shared.out"]), &h).unwrap();
    assert_eq!(shared1.id.value(), shared2.id.value());
    let shared_id = shared1.id.value();
    let c1 = Job::from_glue(rec("t1", &[], &["shared.out"], &["r1.out"]), &h).unwrap();
    let c2 = Job::from_glue(rec("t2", &[], &["shared.out"], &["r2.out"]), &h).unwrap();

    // two requests for bit-identical work collapse to one node
    let g = Graph::build(vec![shared1, shared2, c1, c2]).unwrap();
    assert_eq!(g.len(), 3);
    let si = g.find(shared_id).unwrap();

    let mut c = Coordinator::new(g);
    let mut total_starts = 0u32;
    while !c.ready_jobs().is_empty() {
        for i in c.ready_jobs() {
            c.start(i);
            total_starts += 1;
            c.finish_success(i);
        }
    }
    assert_eq!(c.runs[si], 1);
    assert_eq!(total_starts, 3);
    for i in 0..c.states.len() {
        assert_eq!(c.states[i], JobState::Done);
    }
}

#[test]
fn cache_correctness_second_run_is_free() {
    let h = hashes(&[("o1", "h-o1")]);
    let a = Job::from_glue(rec("ta", &[], &[], &["o1"]), &h).unwrap();
    let b = Job::from_glue(rec("tb", &[], &["o1"], &["o2"]), &h).unwrap();
    let a_id = a.id.value();
    let b_id = b.id.value();

    // first run: everything executes and commits
    let g1 = Graph::build(vec![a, b]).unwrap();
    let mut c1 = Coordinator::new(g1);
    let mut store = Store::new();
    while !c1.ready_jobs().is_empty() {
        for i in c1.ready_jobs() {
            let id = c1.graph.jobs[i].id.value();
            c1.start(i);
            c1.finish_success(i);
            store
                .commit(id, vec![("out".to_string(), "h".to_string())])
                .unwrap();
        }
    }
    assert!(store.has(a_id) && store.has(b_id));

    // second run over the unchanged graph: all cache hits, zero executions
    let h2 = hashes(&[("o1", "h-o1")]);
    let a2 = Job::from_glue(rec("ta", &[], &[], &["o1"]), &h2).unwrap();
    let b2 = Job::from_glue(rec("tb", &[], &["o1"], &["o2"]), &h2).unwrap();
    let g2 = Graph::build(vec![a2, b2]).unwrap();
    let mut c2 = Coordinator::new(g2);
    c2.settle_cache_hits(&store);
    for i in 0..c2.states.len() {
        assert_eq!(c2.states[i], JobState::Done);
        assert_eq!(c2.runs[i], 0);
    }
}

#[test]
fn store_commits_are_immutable() {
    let mut store = Store::new();
    let entry = vec![("out".to_string(), "hash1".to_string())];
    assert!(store.commit(7, entry.clone()).is_ok());
    assert!(store.has(7));
    // identical recommit is an idempotent no-op
    assert!(store.commit(7, entry).is_ok());
    // different content under the same identity is a detectable mismatch
    let other = vec![("out".to_string(), "hash2".to_string())];
    match store.commit(7, other) {
        Err(m) => assert_eq!(m.id, 7),
        Ok(()) => panic!("mismatched recommit must not succeed"),
    }
    assert!(!store.has(8));
}

#[test]
fn capture_validates_declared_outputs() {
    let h = hashes(&[]);
    let job = Job::from_glue(rec("t", &[], &[], &["b", "out/a"]), &h).unwrap();

    let present = vec!["junk".to_string(), "out/a".to_string(), "b".to_string()];
    let outs = capture_plan(&job, &present).unwrap();
    assert_eq!(outs, vec!["b".to_string(), "out/a".to_string()]);

    let missing = vec!["b".to_string()];
    match capture_plan(&job, &missing) {
        Err(CaptureError::MissingOutput(p)) => assert_eq!(p, "out/a"),
        Ok(_) => panic!("missing declared output must fail"),
    }
}

#[test]
fn file_hashes_last_writer_wins() {
    let mut h = FileHashes::new();
    h.insert("a".to_string(), "1".to_string());
    h.insert("b".to_string(), "2".to_string());
    h.insert("a".to_string(), "3".to_string());
    assert_eq!(h.get(&"a".to_string()), Some("3".to_string()));
    assert_eq!(h.get(&"b".to_string()), Some("2".to_string()));
    assert_eq!(h.get(&"c".to_string()), None);
}
