//! End-to-end checks of the dependency-ordering and fixpoint-resolution
//! engine: building the registry, planning the queue, and resolving it.

use hyposoapie::entry::Entry;
use hyposoapie::entry::Predicate;
use hyposoapie::entry::entry_contains;
use hyposoapie::feed::resolve_source;
use hyposoapie::graph::ConfigIntegrityError;
use hyposoapie::graph::FilterDecl;
use hyposoapie::graph::Graph;
use hyposoapie::graph::Referrer;
use hyposoapie::graph::SetKind;
use hyposoapie::graph::SourceDecl;
use hyposoapie::graph::build_graph;
use hyposoapie::plan::QueueItem;
use hyposoapie::plan::compute_process_queue;
use hyposoapie::resolve::ResolvedSet;
use hyposoapie::resolve::run_pass;
use hyposoapie::resolve::run_resolver;

fn src(name: &str) -> SourceDecl {
    SourceDecl { name: name.to_string(), url: format!("http://feeds.example/{}", name) }
}

fn filt(name: &str, inputs: &[&str], contains: &str) -> FilterDecl {
    FilterDecl {
        name: name.to_string(),
        inputs: inputs.iter().map(|s| s.to_string()).collect(),
        predicate: Predicate::Contains(contains.to_string()),
    }
}

fn entry(body: Option<&str>, summary: Option<&str>) -> Entry {
    Entry {
        title: None,
        body: body.map(|s| s.to_string()),
        summary: summary.map(|s| s.to_string()),
        links: Vec::new(),
    }
}

fn names(v: &[&str]) -> Vec<String> {
    v.iter().map(|s| s.to_string()).collect()
}

/// Fetch outcomes for a registry: `None` everywhere but the listed
/// source indices.
fn fetched_for(g: &Graph, docs: &[(usize, Vec<Entry>)]) -> Vec<Option<Vec<Entry>>> {
    let mut fetched: Vec<Option<Vec<Entry>>> = Vec::new();
    for _ in 0..g.nodes.len() {
        fetched.push(None);
    }
    for (i, es) in docs {
        fetched[*i] = Some(es.clone());
    }
    fetched
}

fn queue_position(q: &[QueueItem], node: usize) -> usize {
    q.iter().position(|it| it.node == node).expect("node not queued")
}

fn resolved_entries<'a>(rs: &'a ResolvedSet, i: usize) -> &'a Vec<Entry> {
    rs.slots[i].as_ref().expect("node not resolved")
}

#[test]
fn predicate_is_literal_and_case_sensitive() {
    let e = entry(Some("breaking: market news"), None);
    assert!(entry_contains(&e, "market"));
    assert!(!entry_contains(&e, "Market"));
    assert!(entry_contains(&e, ""));
    assert!(!entry_contains(&e, "market  news"));
}

#[test]
fn predicate_falls_back_to_summary() {
    let e = entry(None, Some("cat food"));
    assert!(entry_contains(&e, "cat"));
    let neither = entry(None, None);
    assert!(!entry_contains(&neither, "cat"));
    let both = entry(Some("dog toys"), Some("cat food"));
    assert!(entry_contains(&both, "dog"));
    assert!(entry_contains(&both, "cat"));
}

#[test]
fn duplicate_name_is_rejected_before_any_pass() {
    let sources = vec![src("x")];
    let filters = vec![filt("x", &["x"], "a")];
    let outputs = names(&["x"]);
    match build_graph(&sources, &filters, &outputs) {
        Err(ConfigIntegrityError::DuplicateName { name }) => assert_eq!(name, "x"),
        _ => panic!("duplicate name must be rejected"),
    }
}

#[test]
fn unknown_filter_input_is_rejected() {
    let sources = vec![src("s")];
    let filters = vec![filt("f", &["nope"], "a")];
    let outputs = names(&["f"]);
    match build_graph(&sources, &filters, &outputs) {
        Err(ConfigIntegrityError::UnknownReference { referrer, missing }) => {
            match referrer {
                Referrer::Filter(fname) => assert_eq!(fname, "f"),
                Referrer::Output => panic!("the filter is the referrer"),
            }
            assert_eq!(missing, "nope");
        },
        _ => panic!("unknown filter input must be rejected"),
    }
}

#[test]
fn unknown_output_is_rejected() {
    let sources = vec![src("s")];
    let filters = vec![filt("f", &["s"], "a")];
    let outputs = names(&["nope"]);
    match build_graph(&sources, &filters, &outputs) {
        Err(ConfigIntegrityError::UnknownReference { referrer, missing }) => {
            assert!(matches!(referrer, Referrer::Output));
            assert_eq!(missing, "nope");
        },
        _ => panic!("unknown output must be rejected"),
    }
}

#[test]
fn empty_required_sets_are_rejected() {
    let no_sources = build_graph(&Vec::new(), &vec![filt("f", &["f"], "a")], &names(&["f"]));
    assert!(matches!(
        no_sources,
        Err(ConfigIntegrityError::EmptySet { kind: SetKind::Sources })
    ));

    let empty_inputs = build_graph(&vec![src("s")], &vec![filt("f", &[], "a")], &names(&["f"]));
    assert!(matches!(
        empty_inputs,
        Err(ConfigIntegrityError::EmptySet { kind: SetKind::FilterInputs })
    ));

    let no_outputs = build_graph(&vec![src("s")], &vec![filt("f", &["s"], "a")], &Vec::new());
    assert!(matches!(
        no_outputs,
        Err(ConfigIntegrityError::EmptySet { kind: SetKind::Outputs })
    ));
}

#[test]
fn chain_resolves_to_matching_entries() {
    // Sources A with ["cat food", "dog toys"]; filter F = Contains("cat")
    // over A; output [F].  A resolves from its fetched entries and F to
    // exactly the matching entry.
    let sources = vec![src("A")];
    let filters = vec![filt("F", &["A"], "cat")];
    let outputs = names(&["F"]);
    let g = build_graph(&sources, &filters, &outputs).expect("valid configuration");
    let q = compute_process_queue(&g);

    // Node 0 is A (sources first), node 1 is F.
    assert_eq!(q.len(), 2);
    assert_eq!(q[0].node, 0);
    assert!(!q[0].is_output);
    assert_eq!(q[1].node, 1);
    assert!(q[1].is_output);

    let e1 = entry(Some("cat food"), None);
    let e2 = entry(Some("dog toys"), None);
    let fetched = fetched_for(&g, &[(0, vec![e1.clone(), e2.clone()])]);
    let out = run_resolver(&g, &q, &fetched).expect("acyclic run resolves");

    assert_eq!(resolved_entries(&out.resolved, 0), &vec![e1.clone(), e2]);
    assert_eq!(resolved_entries(&out.resolved, 1), &vec![e1]);
    // A stands before F in the queue, so one pass resolves both.
    assert_eq!(out.passes, 1);
}

#[test]
fn empty_match_set_is_a_valid_resolved_result() {
    let sources = vec![src("A")];
    let filters = vec![filt("F", &["A"], "zzz")];
    let outputs = names(&["F"]);
    let g = build_graph(&sources, &filters, &outputs).expect("valid configuration");
    let q = compute_process_queue(&g);
    let fetched = fetched_for(&g, &[(0, vec![entry(Some("cat food"), None)])]);
    let out = run_resolver(&g, &q, &fetched).expect("empty match set still resolves");
    assert!(out.resolved.is_resolved(1));
    assert!(resolved_entries(&out.resolved, 1).is_empty());
}

#[test]
fn self_reference_stalls() {
    // Filter F lists itself; the planner queues it all the same, and
    // the first pass resolves nothing, so the run stalls at once.
    let sources = vec![src("s")];
    let filters = vec![filt("F", &["F"], "a")];
    let outputs = names(&["F"]);
    let g = build_graph(&sources, &filters, &outputs).expect("self-reference passes validation");
    let q = compute_process_queue(&g);
    assert_eq!(q.len(), 1);
    assert_eq!(q[0].node, 1);

    let fetched = fetched_for(&g, &[]);
    let err = run_resolver(&g, &q, &fetched).err().expect("self-reference stalls");
    assert_eq!(err.resolved_count, 0);
    assert_eq!(err.queue_len, 1);
}

#[test]
fn mutual_cycle_stalls() {
    let sources = vec![src("s")];
    let filters = vec![filt("f1", &["f2"], "a"), filt("f2", &["f1"], "b")];
    let outputs = names(&["f1"]);
    let g = build_graph(&sources, &filters, &outputs).expect("cycle passes validation");
    let q = compute_process_queue(&g);
    assert_eq!(q.len(), 2);

    let fetched = fetched_for(&g, &[(0, vec![entry(Some("a"), None)])]);
    let err = run_resolver(&g, &q, &fetched).err().expect("mutual cycle stalls");
    assert!(err.resolved_count < err.queue_len);
    assert_eq!(err.resolved_count, 0);
    assert_eq!(err.queue_len, 2);
}

#[test]
fn persistently_failing_fetch_stalls_like_a_cycle() {
    let sources = vec![src("A")];
    let filters = vec![filt("F", &["A"], "cat")];
    let outputs = names(&["F"]);
    let g = build_graph(&sources, &filters, &outputs).expect("valid configuration");
    let q = compute_process_queue(&g);
    let fetched = fetched_for(&g, &[]);
    let err = run_resolver(&g, &q, &fetched).err().expect("failing fetch stalls");
    assert_eq!(err.resolved_count, 0);
    assert_eq!(err.queue_len, 2);
}

#[test]
fn planner_is_deterministic() {
    // The queue is a function of the registry alone: planning the same
    // configuration twice yields the same entries in the same order.
    let sources = vec![src("s")];
    let filters = vec![
        filt("f1", &["s"], "a"),
        filt("f2", &["s"], "b"),
        filt("f3", &["f1", "f2"], ""),
    ];
    let outputs = names(&["f3"]);
    let g1 = build_graph(&sources, &filters, &outputs).expect("valid configuration");
    let g2 = build_graph(&sources, &filters, &outputs).expect("valid configuration");
    let q1 = compute_process_queue(&g1);
    let q2 = compute_process_queue(&g2);
    assert_eq!(q1.len(), q2.len());
    for t in 0..q1.len() {
        assert_eq!(q1[t].node, q2[t].node);
        assert_eq!(q1[t].is_output, q2[t].is_output);
    }
    // The reversal puts the deepest discovery last-found first: the
    // source, then f2 (discovered after f1, so nearer the front), then
    // f1, then the output f3.
    let order: Vec<usize> = q1.iter().map(|it| it.node).collect();
    assert_eq!(order, vec![0, 2, 1, 3]);
}

#[test]
fn transient_fetch_failure_recovers_on_a_later_pass() {
    // A failed fetch leaves its source unresolved for one pass only:
    // a caller driving the passes itself can hand the entries in
    // before the next pass and the run still completes.
    let sources = vec![src("A")];
    let filters = vec![filt("F", &["A"], "cat")];
    let outputs = names(&["F"]);
    let g = build_graph(&sources, &filters, &outputs).expect("valid configuration");
    let q = compute_process_queue(&g);

    let mut fetched = fetched_for(&g, &[]);
    let mut resolved = ResolvedSet::new(g.nodes.len());
    let mut count: usize = 0;

    run_pass(&g, &q, &fetched, &mut resolved, &mut count);
    assert_eq!(count, 0);
    assert!(!resolved.is_resolved(0));

    let e1 = entry(Some("cat food"), None);
    fetched[0] = Some(vec![e1.clone()]);
    run_pass(&g, &q, &fetched, &mut resolved, &mut count);
    assert_eq!(count, 2);
    assert_eq!(resolved_entries(&resolved, 1), &vec![e1]);
}

#[test]
fn queue_places_dependencies_before_dependents() {
    // Chain: output f2 <- f1 <- s, each dependency referenced once and
    // no output used as an input: every dependency precedes its
    // dependent in the queue.
    let sources = vec![src("s")];
    let filters = vec![filt("f1", &["s"], "a"), filt("f2", &["f1"], "b")];
    let outputs = names(&["f2"]);
    let g = build_graph(&sources, &filters, &outputs).expect("valid configuration");
    let q = compute_process_queue(&g);
    assert_eq!(q.len(), 3);
    let p_s = queue_position(&q, 0);
    let p_f1 = queue_position(&q, 1);
    let p_f2 = queue_position(&q, 2);
    assert!(p_s < p_f1);
    assert!(p_f1 < p_f2);
    // Positional output marking: exactly the one declared output at the
    // tail.
    assert!(q[2].is_output);
    assert!(!q[0].is_output && !q[1].is_output);
}

#[test]
fn output_that_is_also_a_dependency_takes_two_passes() {
    // Outputs [s, F] where F also consumes s: the backward expansion
    // seeds both, the reversal puts F first, and the positional marking
    // flags both tail entries.  The fixpoint loop still resolves
    // everything, in a second pass.
    let sources = vec![src("s")];
    let filters = vec![filt("F", &["s"], "cat")];
    let outputs = names(&["s", "F"]);
    let g = build_graph(&sources, &filters, &outputs).expect("valid configuration");
    let q = compute_process_queue(&g);
    assert_eq!(q.len(), 2);
    assert_eq!(q[0].node, 1);
    assert_eq!(q[1].node, 0);
    assert!(q[0].is_output && q[1].is_output);

    let e1 = entry(Some("cat food"), None);
    let fetched = fetched_for(&g, &[(0, vec![e1.clone()])]);
    let out = run_resolver(&g, &q, &fetched).expect("still resolves");
    assert_eq!(out.passes, 2);
    assert_eq!(resolved_entries(&out.resolved, 1), &vec![e1]);
}

#[test]
fn acyclic_diamond_resolves_every_queued_node() {
    let sources = vec![src("s")];
    let filters = vec![
        filt("f1", &["s"], "a"),
        filt("f2", &["s"], "b"),
        filt("f3", &["f1", "f2"], ""),
    ];
    let outputs = names(&["f3"]);
    let g = build_graph(&sources, &filters, &outputs).expect("valid configuration");
    let q = compute_process_queue(&g);
    assert_eq!(q.len(), 4);

    let entries = vec![
        entry(Some("a and b"), None),
        entry(Some("only a"), None),
        entry(Some("only b"), None),
    ];
    let fetched = fetched_for(&g, &[(0, entries.clone())]);
    let out = run_resolver(&g, &q, &fetched).expect("acyclic run resolves");
    assert!(out.passes <= q.len());
    for it in &q {
        assert!(out.resolved.is_resolved(it.node));
    }
    // f3 concatenates f1's matches, then f2's, in declared-input order.
    let f3 = resolved_entries(&out.resolved, 3);
    assert_eq!(
        f3,
        &vec![
            entries[0].clone(),
            entries[1].clone(),
            entries[0].clone(),
            entries[2].clone(),
        ]
    );
}

#[test]
fn resolver_is_idempotent_across_runs() {
    let sources = vec![src("A"), src("B")];
    let filters = vec![filt("f1", &["A", "B"], "news"), filt("f2", &["f1"], "cat")];
    let outputs = names(&["f2", "f1"]);
    let g = build_graph(&sources, &filters, &outputs).expect("valid configuration");
    let q = compute_process_queue(&g);

    let fetched = fetched_for(
        &g,
        &[
            (0, vec![entry(Some("cat news"), None), entry(Some("dog news"), None)]),
            (1, vec![entry(None, Some("cat news again")), entry(Some("weather"), None)]),
        ],
    );
    let first = run_resolver(&g, &q, &fetched).expect("acyclic run resolves");
    let second = run_resolver(&g, &q, &fetched).expect("acyclic run resolves");
    assert_eq!(first.passes, second.passes);
    for it in &q {
        assert_eq!(
            resolved_entries(&first.resolved, it.node),
            resolved_entries(&second.resolved, it.node)
        );
    }
}

#[test]
fn feed_document_parses_into_entries() {
    let doc = "<rss version=\"2.0\"><channel><title>feed</title>\
        <item><title>cat story</title><link>http://example.com/cat</link>\
        <description>cat food</description></item>\
        <item><title>dog story</title><link>http://example.com/dog</link>\
        <description>dog toys</description></item>\
        </channel></rss>";
    let entries = resolve_source(Some(doc)).expect("well-formed feed parses");
    assert_eq!(entries.len(), 2);
    assert_eq!(entries[0].title.as_deref(), Some("cat story"));
    assert_eq!(entries[0].summary.as_deref(), Some("cat food"));
    assert_eq!(entries[0].links, vec!["http://example.com/cat".to_string()]);
    assert_eq!(entries[0].body, None);
    assert_eq!(entries[1].summary.as_deref(), Some("dog toys"));

    assert!(resolve_source(None).is_none());
    assert!(resolve_source(Some("not a feed at all")).is_none());
}

#[test]
fn documents_near_the_parser_panic_are_declined() {
    // feed_rs's iTunes and Media RSS handlers run unchecked arithmetic
    // on duration strings, so documents binding either extension
    // namespace are declined wholesale, as are documents carrying
    // numeric character references, which could smuggle a namespace
    // URI past a textual check.
    let itunes = "<rss version=\"2.0\" \
        xmlns:itunes=\"http://www.itunes.com/dtds/podcast-1.0.dtd\"><channel>\
        <title>feed</title><item><title>x</title>\
        <itunes:duration>111111111111111111111:00:00</itunes:duration>\
        <description>ok</description></item></channel></rss>";
    assert!(resolve_source(Some(itunes)).is_none());

    let mediarss = "<rss version=\"2.0\" \
        xmlns:media=\"http://search.yahoo.com/mrss/\"><channel>\
        <title>feed</title><item><title>x</title></item></channel></rss>";
    assert!(resolve_source(Some(mediarss)).is_none());

    let char_ref = "<rss version=\"2.0\"><channel><title>feed</title>\
        <item><title>a&#49;b</title><description>ok</description></item>\
        </channel></rss>";
    assert!(resolve_source(Some(char_ref)).is_none());
}

#[test]
fn parsed_feed_flows_through_the_engine() {
    let doc = "<rss version=\"2.0\"><channel><title>feed</title>\
        <item><title>one</title><link>http://example.com/1</link>\
        <description>breaking: market news</description></item>\
        <item><title>two</title><link>http://example.com/2</link>\
        <description>sports recap</description></item>\
        </channel></rss>";
    let sources = vec![src("A")];
    let filters = vec![filt("F", &["A"], "market")];
    let outputs = names(&["F"]);
    let g = build_graph(&sources, &filters, &outputs).expect("valid configuration");
    let q = compute_process_queue(&g);

    let mut fetched: Vec<Option<Vec<Entry>>> = vec![None, None];
    fetched[0] = resolve_source(Some(doc));
    let out = run_resolver(&g, &q, &fetched).expect("resolves");
    let result = resolved_entries(&out.resolved, 1);
    assert_eq!(result.len(), 1);
    assert_eq!(result[0].title.as_deref(), Some("one"));
    assert_eq!(result[0].summary.as_deref(), Some("breaking: market news"));
}
