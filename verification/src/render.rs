use crate::automaton::SAMPool;
use crate::automaton::lemma_origins_monotone;
use crate::automaton::lemma_run_same_next;
use crate::automaton::run_from;
use vstd::prelude::*;

verus! {

/// How many separator bytes (`|`) the text holds; one more than that many
/// pieces are inserted.
pub open spec fn sep_count(t: Seq<u8>) -> nat
    decreases t.len(),
{
    if t.len() == 0 {
        0
    } else {
        sep_count(t.drop_last()) + (if t.last() == 124 {
            1nat
        } else {
            0
        })
    }
}

/// No separator byte inside `[a, j)`.
pub open spec fn sep_free(t: Seq<u8>, a: int, j: int) -> bool {
    forall|k: int| a <= k < j ==> t[k] != 124
}

/// `a` starts a piece: the text's start, or the position after a separator.
pub open spec fn piece_start(t: Seq<u8>, a: int) -> bool {
    a == 0 || t[a - 1] == 124
}

/// A separator-free stretch adds nothing to the count.
pub proof fn lemma_sep_count_flat(t: Seq<u8>, a: int, j: int)
    requires
        0 <= a <= j <= t.len(),
        sep_free(t, a, j),
    ensures
        sep_count(t.take(j)) == sep_count(t.take(a)),
    decreases j - a,
{
    if j > a {
        lemma_sep_count_flat(t, a, j - 1);
        lemma_sep_count_step(t, j - 1);
    }
}

/// Counting separators, one byte at a time.
pub proof fn lemma_sep_count_step(t: Seq<u8>, i: int)
    requires
        0 <= i < t.len(),
    ensures
        sep_count(t.take(i + 1)) == sep_count(t.take(i)) + (if t[i] == 124 {
            1int
        } else {
            0
        }),
{
    assert(t.take(i + 1).drop_last() =~= t.take(i));
    assert(t.take(i + 1).last() == t[i]);
}

/// Relies on layout's `DotParser`, `GraphBuilder` and `SVGWriter`: parse
/// the textual graph description, assign 2-D coordinates, and write the
/// result as vector-image markup. `None` reports a rejected description,
/// from the parser or from text that is not valid UTF-8. The engine is
/// trusted to return only on descriptions this library itself emits —
/// exports of a well-formed arena; hence the `requires`. Well-formedness
/// keeps the graph non-empty (the engine aborts on ranking an empty
/// graph) and free of self-loops and other shapes the engine's layout
/// path does not cover. Nothing is assumed of the markup text itself: the
/// engine's own hash containers may order attributes as they please.
#[verifier::external_body]
fn dot_to_svg(dot: &Vec<u8>) -> (r: Option<String>)
    requires
        exists|s: Seq<crate::automaton::State>|
            crate::automaton::wf_states(s) && dot@ == crate::dot::export_spec(s),
{
    let text = match std::str::from_utf8(dot) {
        Ok(t) => t,
        Err(_) => return None,
    };
    let mut parser = layout::gv::DotParser::new(text);
    let graph = match parser.process() {
        Ok(g) => g,
        Err(_) => return None,
    };
    let mut builder = layout::gv::GraphBuilder::new();
    builder.visit_graph(&graph);
    let mut vg = builder.get();
    let mut svg = layout::backends::svg::SVGWriter::new();
    vg.do_it(false, false, false, &mut svg);
    Some(svg.finalize())
}

impl SAMPool {
    /// Lay out and render this automaton's graph description.
    ///
    /// The description handed to the layout engine is exactly
    /// `export_spec` of this automaton, as `generate_graph` promises; what
    /// the engine then makes of it is its own affair, so nothing is
    /// promised of the markup text.
    pub fn render_svg(&self) -> (r: Option<String>)
        requires
            self.wf(),
    {
        let dot = self.generate_graph();
        proof {
            assert(crate::automaton::wf_states(self.states@) && dot@ == crate::dot::export_spec(
                self.states@,
            ));
        }
        dot_to_svg(&dot)
    }
}

/// Build the shared automaton from `|`-separated strings, attribute the
/// states, and render the resulting graph. The automaton handed to the
/// engine is the one `from_text` promises; of the markup nothing can be
/// said, since the engine's output is not a function of its input alone.
/// Ids count the pieces from zero, in order; the text as a whole may not
/// be longer than the machine — or the id space — can account for.
pub fn generate_svg(text: &[u8]) -> (r: Option<String>)
    requires
        text@.len() <= (usize::MAX - 1) / 2,
        text@.len() <= u32::MAX,
{
    let pool = from_text(text);
    pool.render_svg()
}

/// Insert every `|`-separated piece of `text` into a fresh automaton, in
/// order, labeled with its position, and fill in the provenance
/// annotations. An empty text inserts one empty string, which leaves the
/// automaton with the root state alone.
///
/// The contract ties the automaton to the text: the total inserted length
/// is the pieces' total length (the text minus its separators), the arena
/// respects the size bound over that length, the automaton accepts every
/// piece and every prefix of every piece, every recorded provenance id is
/// a piece index, every nonempty piece's id appears in some state's
/// provenance, and provenance only grows towards the root. What is not
/// pinned here — that exactly the pieces' substrings are accepted, and
/// exactly the right id set appears at each node — needs a functional
/// model of the construction that this library does not state.
#[verifier::loop_isolation(false)]
pub fn from_text(text: &[u8]) -> (pool: SAMPool)
    requires
        text@.len() <= (usize::MAX - 1) / 2,
        text@.len() <= u32::MAX,
    ensures
        pool.wf(),
        pool.counted(),
        pool.total_len + sep_count(text@) == text@.len(),
        pool.states@.len() <= 1 + 2 * (text@.len() - sep_count(text@)),
        forall|a: int, j: int|
            0 <= a <= j <= text@.len() && piece_start(text@, a) && sep_free(text@, a, j) ==> (
            #[trigger] run_from(pool.states@, 0, text@.subrange(a, j))) is Some,
        forall|i: int, x: u32|
            0 <= i < pool.states@.len() && (#[trigger] pool.states@[i].origins@.contains(x)) ==> x
                <= sep_count(text@),
        forall|i: int, x: u32|
            1 <= i < pool.states@.len() && (#[trigger] pool.states@[i].origins@.contains(x))
                ==> pool.states@[pool.states@[i].link as int].origins@.contains(x),
        forall|a: int, b: int|
            0 <= a < b <= text@.len() && #[trigger] piece_start(text@, a) && #[trigger] sep_free(
                text@,
                a,
                b,
            ) && (b == text@.len() || text@[b] == 124) ==> exists|k: int|
                0 <= k < pool.states@.len() && pool.states@[k].origins@.contains(
                    sep_count(text@.take(a)) as u32,
                ),
{
    let ghost t = text@;
    let mut pool = SAMPool::new();
    let n = text.len();
    let mut part: Vec<u8> = Vec::new();
    let mut id: u32 = 0;
    let mut i: usize = 0;
    proof {
        assert(t.take(0) =~= Seq::<u8>::empty());
        assert(part@ =~= t.subrange(0, 0));
    }
    while i < n
        invariant
            0 <= i <= n,
            n == t.len(),
            pool.wf(),
            pool.counted(),
            part@.len() <= i,
            part@ == t.subrange(i - part@.len(), i as int),
            i - part@.len() == 0 || t[i - part@.len() - 1] == 124,
            sep_free(t, i - part@.len(), i as int),
            pool.total_len + part@.len() + sep_count(t.take(i as int)) == i,
            id == sep_count(t.take(i as int)),
            forall|a: int, j: int|
                0 <= a <= j <= i && piece_start(t, a) && sep_free(t, a, j) && a < i - part@.len()
                    ==> (#[trigger] run_from(pool.states@, 0, t.subrange(a, j))) is Some,
            forall|k: int, x: u32|
                0 <= k < pool.states@.len() && (#[trigger] pool.states@[k].seeds@.contains(x))
                    ==> x < id,
            forall|a: int, b: int|
                0 <= a < b < i && #[trigger] piece_start(t, a) && #[trigger] sep_free(t, a, b)
                    && t[b] == 124 ==> exists|k: int|
                    0 <= k < pool.states@.len() && pool.states@[k].seeds@.contains(
                        sep_count(t.take(a)) as u32,
                    ),
        decreases n - i,
    {
        let b = text[i];
        proof {
            lemma_sep_count_step(t, i as int);
        }
        if b == 124 {
            let ghost cs = i - part@.len();
            let ghost pre = pool;
            pool.join_string(part.as_slice(), id);
            proof {
                assert forall|a: int, j: int|
                    0 <= a <= j <= i + 1 && piece_start(t, a) && sep_free(t, a, j) && a < i + 1
                        - 0 implies (#[trigger] run_from(pool.states@, 0, t.subrange(a, j)))
                    is Some by {
                    if a < cs {
                        // an older segment stays inside its finished piece
                        assert(j <= i) by {
                            if j > i {
                                assert(t[i as int] == 124);
                            }
                        }
                        assert(run_from(pre.states@, 0, t.subrange(a, j)) is Some);
                    } else if a == cs {
                        // a prefix of the piece just inserted
                        assert(j <= i) by {
                            if j > i {
                                assert(t[i as int] == 124);
                            }
                        }
                        assert(t.subrange(cs, j) =~= part@.take(j - cs));
                        assert(run_from(pool.states@, 0, part@.take(j - cs)) is Some);
                    } else {
                        // no piece starts strictly inside the finished piece
                        assert(cs <= a - 1 < i);
                        assert(t[a - 1] != 124);
                    }
                }
                assert forall|a: int, b: int|
                    0 <= a < b < i + 1 && #[trigger] piece_start(t, a) && #[trigger] sep_free(
                        t,
                        a,
                        b,
                    ) && t[b] == 124 implies exists|k: int|
                    0 <= k < pool.states@.len() && pool.states@[k].seeds@.contains(
                        sep_count(t.take(a)) as u32,
                    ) by {
                    if b < i {
                        let k = choose|k: int|
                            0 <= k < pre.states@.len() && pre.states@[k].seeds@.contains(
                                sep_count(t.take(a)) as u32,
                            );
                        assert(pool.states@[k].seeds@.contains(sep_count(t.take(a)) as u32));
                    } else {
                        // the piece just closed; its cursor carries the id
                        assert(a == cs) by {
                            if a < cs {
                                assert(t[cs - 1] == 124);
                            }
                            if a > cs {
                                assert(t[a - 1] != 124);
                            }
                        }
                        lemma_sep_count_flat(t, cs, i as int);
                        assert(part@.len() > 0);
                        assert(pool.states@[pool.last as int].seeds@.contains(id));
                    }
                }
            }
            part = Vec::new();
            id = id + 1;
            proof {
                assert(part@ =~= t.subrange(i + 1, i + 1));
            }
        } else {
            part.push(b);
            proof {
                assert(part@ =~= t.subrange(i + 1 - part@.len(), i as int + 1));
                let cs = i + 1 - part@.len();
                assert forall|a: int, j: int|
                    0 <= a <= j <= i + 1 && piece_start(t, a) && sep_free(t, a, j) && a < cs
                        implies (#[trigger] run_from(pool.states@, 0, t.subrange(a, j)))
                    is Some by {
                    // the separator before the running piece caps the segment
                    assert(t[cs - 1] == 124);
                    assert(j <= cs - 1) by {
                        if j > cs - 1 {
                            assert(t[cs - 1] != 124);
                        }
                    }
                }
            }
        }
        i += 1;
    }
    // the final piece
    let ghost cs = n - part@.len();
    let ghost pre = pool;
    pool.join_string(part.as_slice(), id);
    proof {
        assert forall|a: int, j: int|
            0 <= a <= j <= n && piece_start(t, a) && sep_free(t, a, j) implies (#[trigger] run_from(
            pool.states@,
            0,
            t.subrange(a, j),
        )) is Some by {
            if a < cs {
                assert(run_from(pre.states@, 0, t.subrange(a, j)) is Some);
            } else if a == cs {
                assert(t.subrange(cs, j) =~= part@.take(j - cs));
                assert(run_from(pool.states@, 0, part@.take(j - cs)) is Some);
            } else {
                assert(cs <= a - 1 < n);
                assert(t[a - 1] != 124);
            }
        }
        assert(t.take(n as int) =~= t);
        assert forall|a: int, b: int|
            0 <= a < b <= n && #[trigger] piece_start(t, a) && #[trigger] sep_free(t, a, b) && (b
                == n || t[b] == 124) implies exists|k: int|
            0 <= k < pool.states@.len() && pool.states@[k].seeds@.contains(
                sep_count(t.take(a)) as u32,
            ) by {
            if b < n && t[b] == 124 {
                let k = choose|k: int|
                    0 <= k < pre.states@.len() && pre.states@[k].seeds@.contains(
                        sep_count(t.take(a)) as u32,
                    );
                assert(pool.states@[k].seeds@.contains(sep_count(t.take(a)) as u32));
            } else {
                // the text's last piece; its cursor carries the id
                assert(a == cs) by {
                    if a < cs {
                        assert(t[cs - 1] == 124);
                    }
                    if a > cs {
                        assert(t[a - 1] != 124);
                    }
                }
                lemma_sep_count_flat(t, cs, n as int);
                assert(part@.len() > 0);
                assert(pool.states@[pool.last as int].seeds@.contains(id));
            }
        }
    }
    let ghost pre_collect = pool.states@;
    let ghost final_id = id;
    pool.collect();
    proof {
        assert forall|a: int, j: int|
            0 <= a <= j <= n && piece_start(t, a) && sep_free(t, a, j) implies (#[trigger] run_from(
            pool.states@,
            0,
            t.subrange(a, j),
        )) is Some by {
            assert(run_from(pre_collect, 0, t.subrange(a, j)) is Some);
            lemma_run_same_next(pre_collect, pool.states@, 0, t.subrange(a, j));
        }
        assert forall|i2: int, x: u32|
            0 <= i2 < pool.states@.len() && (#[trigger] pool.states@[i2].origins@.contains(x))
            implies x <= sep_count(t) by {
            let m = choose|m: int|
                0 <= m < pre_collect.len() && crate::automaton::is_ancestor(pre_collect, i2, m)
                    && (#[trigger] pre_collect[m].seeds@).contains(x);
            assert(pre_collect[m].seeds@.contains(x));
        }
        assert forall|i2: int, x: u32|
            1 <= i2 < pool.states@.len() && (#[trigger] pool.states@[i2].origins@.contains(x))
            implies pool.states@[pool.states@[i2].link as int].origins@.contains(x) by {
            lemma_origins_monotone(pre_collect, pool.states@, i2, x);
        }
        assert forall|a: int, b: int|
            0 <= a < b <= n && #[trigger] piece_start(t, a) && #[trigger] sep_free(t, a, b) && (b
                == n || t[b] == 124) implies exists|k: int|
            0 <= k < pool.states@.len() && pool.states@[k].origins@.contains(
                sep_count(t.take(a)) as u32,
            ) by {
            let idx = sep_count(t.take(a)) as u32;
            let k = choose|k: int|
                0 <= k < pre_collect.len() && pre_collect[k].seeds@.contains(idx);
            assert(crate::automaton::is_ancestor(pre_collect, k, k));
            assert(pre_collect[k].seeds@.contains(idx));
            assert(pool.states@[k].origins@.contains(idx));
        }
    }
    pool
}

} // verus!
