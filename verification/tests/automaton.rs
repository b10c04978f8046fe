use sam_drawer::automaton::SAMPool;

fn build(parts: &[&[u8]]) -> SAMPool {
    let mut pool = SAMPool::new();
    for (i, p) in parts.iter().enumerate() {
        pool.join_string(p, i as u32);
    }
    pool.collect();
    pool
}

fn is_substring(hay: &[u8], needle: &[u8]) -> bool {
    needle.is_empty() || hay.windows(needle.len()).any(|w| w == needle)
}

#[test]
fn accepts_exactly_substrings_of_single_string() {
    let text = b"abcbc";
    let pool = build(&[text]);
    for i in 0..text.len() {
        for j in i..=text.len() {
            assert!(pool.accepts(&text[i..j]));
        }
    }
    let alphabet = [b'a', b'b', b'c', b'd'];
    let mut words: Vec<Vec<u8>> = vec![Vec::new()];
    for _ in 0..3 {
        let mut next: Vec<Vec<u8>> = Vec::new();
        for w in &words {
            for &c in &alphabet {
                let mut w2 = w.clone();
                w2.push(c);
                next.push(w2);
            }
        }
        for w in next {
            words.push(w);
        }
    }
    for w in &words {
        assert_eq!(pool.accepts(w), is_substring(text, w), "word {:?}", w);
    }
}

#[test]
fn accepts_union_of_substrings() {
    let pool = build(&[b"ab", b"cd"]);
    assert!(pool.accepts(b""));
    assert!(pool.accepts(b"ab"));
    assert!(pool.accepts(b"cd"));
    assert!(pool.accepts(b"a"));
    assert!(pool.accepts(b"d"));
    assert!(!pool.accepts(b"ac"));
    assert!(!pool.accepts(b"abc"));
    assert!(!pool.accepts(b"ba"));
}

#[test]
fn arena_size_is_linear_and_links_form_tree() {
    let pool = build(&[b"abcabxabcd", b"banana"]);
    let total: usize = 10 + 6;
    assert_eq!(pool.total_len, total);
    assert!(pool.states.len() <= 1 + 2 * total);
    assert_eq!(pool.states[0].len, 0);
    assert_eq!(pool.states[0].link, 0);
    for i in 1..pool.states.len() {
        let l = pool.states[i].link;
        assert!(l < pool.states.len());
        assert!(pool.states[l].len < pool.states[i].len);
        let mut p = i;
        let mut steps = 0;
        while p != 0 {
            p = pool.states[p].link;
            steps += 1;
            assert!(steps <= pool.states.len());
        }
    }
}

#[allow(clippy::type_complexity)]
fn snapshot(pool: &SAMPool) -> Vec<(usize, usize, Vec<(u8, usize)>, Vec<u32>, Vec<u32>)> {
    pool.states
        .iter()
        .map(|s| (s.len, s.link, s.next.clone(), s.seeds.clone(), s.origins.clone()))
        .collect()
}

#[test]
fn collect_twice_yields_identical_state() {
    let mut pool = SAMPool::new();
    pool.join_string(b"ab", 0);
    pool.join_string(b"ba", 1);
    pool.collect();
    let first = snapshot(&pool);
    pool.collect();
    let second = snapshot(&pool);
    assert_eq!(first, second);
}

#[test]
fn shared_substring_has_both_origins() {
    let mut pool = SAMPool::new();
    pool.join_string(b"ab", 0);
    pool.join_string(b"ba", 1);
    pool.collect();
    let b_state = pool.run(b"b").expect("the automaton accepts b");
    let origins = &pool.states[b_state].origins;
    assert!(origins.contains(&0));
    assert!(origins.contains(&1));
    assert_eq!(origins.len(), 2);
    let ab_state = pool.run(b"ab").expect("the automaton accepts ab");
    assert_eq!(pool.states[ab_state].origins, vec![0]);
    let ba_state = pool.run(b"ba").expect("the automaton accepts ba");
    assert_eq!(pool.states[ba_state].origins, vec![1]);
}

#[test]
fn origins_grow_towards_the_root() {
    let pool = build(&[b"abcbc", b"bca"]);
    for i in 1..pool.states.len() {
        let l = pool.states[i].link;
        for id in &pool.states[i].origins {
            assert!(pool.states[l].origins.contains(id));
        }
    }
}

#[test]
fn splitting_a_mismatched_transition_clones_once() {
    let mut pool = SAMPool::new();
    pool.join_string(b"abb", 0);
    assert_eq!(pool.clones, 1);
    assert_eq!(pool.states.len(), 5);
}

#[test]
fn repeated_letter_string_needs_no_clone() {
    let mut pool = SAMPool::new();
    pool.join_string(b"aaa", 0);
    pool.collect();
    assert_eq!(pool.states.len(), 4);
    assert_eq!(pool.clones, 0);
    assert!(pool.accepts(b"a"));
    assert!(pool.accepts(b"aa"));
    assert!(pool.accepts(b"aaa"));
    assert!(!pool.accepts(b"aaaa"));
    assert!(!pool.accepts(b"b"));
}

#[test]
fn default_is_a_fresh_automaton() {
    let pool = SAMPool::default();
    assert_eq!(pool.states.len(), 1);
    assert_eq!(pool.total_len, 0);
    assert_eq!(pool.clones, 0);
    assert_eq!(pool.last, 0);
}
