use sam_drawer::automaton::SAMPool;

fn export_text(pool: &SAMPool) -> String {
    String::from_utf8(pool.generate_graph()).expect("the description is ASCII")
}

#[test]
fn export_is_byte_identical_across_calls() {
    let mut pool = SAMPool::new();
    pool.join_string(b"ab", 0);
    pool.join_string(b"ba", 1);
    pool.collect();
    let first = pool.generate_graph();
    let second = pool.generate_graph();
    assert_eq!(first, second);
}

#[test]
fn export_of_small_automaton_matches_expected_text() {
    let mut pool = SAMPool::new();
    pool.join_string(b"ab", 0);
    pool.collect();
    let expected = "digraph {\nn0 [label=\"len=0 ids=0\"];\nn1 [label=\"len=1 ids=0\"];\nn2 [label=\"len=2 ids=0\"];\nn0 -> n1 [label=\"a\"];\nn0 -> n2 [label=\"b\"];\nn1 -> n2 [label=\"b\"];\nn1 -> n0 [style=\"dashed\"];\nn2 -> n0 [style=\"dashed\"];\n}\n";
    assert_eq!(export_text(&pool), expected);
}

#[test]
fn empty_automaton_exports_root_only_graph() {
    let mut pool = SAMPool::new();
    pool.collect();
    assert_eq!(export_text(&pool), "digraph {\nn0 [label=\"len=0\"];\n}\n");
}

#[test]
fn export_before_collect_lacks_provenance() {
    let mut pool = SAMPool::new();
    pool.join_string(b"ab", 0);
    let expected = "digraph {\nn0 [label=\"len=0\"];\nn1 [label=\"len=1\"];\nn2 [label=\"len=2\"];\nn0 -> n1 [label=\"a\"];\nn0 -> n2 [label=\"b\"];\nn1 -> n2 [label=\"b\"];\nn1 -> n0 [style=\"dashed\"];\nn2 -> n0 [style=\"dashed\"];\n}\n";
    assert_eq!(export_text(&pool), expected);
}

#[test]
fn quote_and_backslash_symbols_are_escaped() {
    let mut pool = SAMPool::new();
    pool.join_string(b"\"", 0);
    pool.collect();
    let expected = "digraph {\nn0 [label=\"len=0 ids=0\"];\nn1 [label=\"len=1 ids=0\"];\nn0 -> n1 [label=\"\\\"\"];\nn1 -> n0 [style=\"dashed\"];\n}\n";
    assert_eq!(export_text(&pool), expected);

    let mut pool = SAMPool::new();
    pool.join_string(b"\\", 0);
    let text = export_text(&pool);
    assert!(text.contains("n0 -> n1 [label=\"\\\\\"];\n"));
}

#[test]
fn unprintable_symbols_become_hex_escapes() {
    let mut pool = SAMPool::new();
    pool.join_string(&[1u8], 0);
    let text = export_text(&pool);
    assert!(text.contains("n0 -> n1 [label=\"\\x01\"];\n"));

    let mut pool = SAMPool::new();
    pool.join_string(&[0xABu8], 0);
    let text = export_text(&pool);
    assert!(text.contains("n0 -> n1 [label=\"\\xAB\"];\n"));
}
