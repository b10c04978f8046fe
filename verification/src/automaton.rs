use vstd::prelude::*;

verus! {

/// One node of the automaton arena.
pub struct State {
    /// Length of the longest substring whose walk from the root ends here.
    pub len: usize,
    /// Suffix link: the state of the longest proper suffix that lies in a
    /// different state. The root links to itself.
    pub link: usize,
    /// Deterministic transitions as (symbol, target) pairs in creation
    /// order; at most one entry per symbol.
    pub next: Vec<(u8, usize)>,
    /// Ids recorded during insertion: the strings for which this state was
    /// the endpoint of some prefix.
    pub seeds: Vec<u32>,
    /// Ids filled in by `collect`: every inserted string some of whose
    /// substrings end in this state.
    pub origins: Vec<u32>,
}

/// At most one transition per symbol.
pub open spec fn keys_unique(next: Seq<(u8, usize)>) -> bool {
    forall|j: int, k: int| 0 <= j < k < next.len() ==> (#[trigger] next[j]).0 != (#[trigger] next[k]).0
}

/// The target of the transition on `c`, if any: the first entry with key `c`.
pub open spec fn lookup_from(next: Seq<(u8, usize)>, c: u8, j: int) -> Option<usize>
    decreases next.len() - j,
{
    if j < 0 || j >= next.len() {
        None
    } else if next[j].0 == c {
        Some(next[j].1)
    } else {
        lookup_from(next, c, j + 1)
    }
}

pub open spec fn lookup(next: Seq<(u8, usize)>, c: u8) -> Option<usize> {
    lookup_from(next, c, 0)
}

/// Local well-formedness of the state at index `i`: the suffix link points
/// into the arena and strictly decreases `len`; transitions point into the
/// arena, are deterministic, and strictly increase `len`.
pub open spec fn state_ok(s: Seq<State>, i: int) -> bool {
    &&& s[i].link < s.len()
    &&& (i != 0 ==> s[s[i].link as int].len < s[i].len)
    &&& keys_unique(s[i].next@)
    &&& forall|j: int| 0 <= j < s[i].next@.len() ==> {
            &&& (#[trigger] s[i].next@[j]).1 < s.len()
            &&& s[s[i].next@[j].1 as int].len >= s[i].len + 1
        }
}

pub open spec fn wf_states(s: Seq<State>) -> bool {
    &&& s.len() >= 1
    &&& s[0].len == 0
    &&& s[0].link == 0
    &&& forall|i: int| 0 <= i < s.len() ==> #[trigger] state_ok(s, i)
}

/// The shared automaton: an append-only arena of states, the insertion
/// cursor, the total number of symbols inserted so far, and a running count
/// of clone (split) operations.
pub struct SAMPool {
    pub states: Vec<State>,
    pub last: usize,
    pub total_len: usize,
    pub clones: usize,
}

impl SAMPool {
    /// The structural invariant every operation preserves.
    pub open spec fn wf(self) -> bool {
        &&& wf_states(self.states@)
        &&& self.last < self.states@.len()
        &&& self.clones < self.states@.len()
        &&& self.total_len <= (usize::MAX - 1) / 2
        &&& forall|i: int|
            0 <= i < self.states@.len() ==> (#[trigger] self.states@[i]).len <= self.total_len
    }

    /// The standard size bound: the arena never outgrows one state for the
    /// root plus two per inserted symbol.
    pub open spec fn counted(self) -> bool {
        self.states@.len() <= 1 + 2 * self.total_len
    }

    /// A fresh automaton: the root alone, nothing inserted.
    pub fn new() -> (r: Self)
        ensures
            r.wf(),
            r.counted(),
            r.states@.len() == 1,
            r.last == 0,
            r.total_len == 0,
            r.clones == 0,
            r.states@[0].next@.len() == 0,
            r.states@[0].seeds@.len() == 0,
            r.states@[0].origins@.len() == 0,
    {
        let root = State { len: 0, link: 0, next: Vec::new(), seeds: Vec::new(), origins: Vec::new() };
        let mut states: Vec<State> = Vec::new();
        states.push(root);
        SAMPool { states, last: 0, total_len: 0, clones: 0 }
    }
}

impl SAMPool {
    /// Where the transition on `c` out of state `i` leads, if anywhere.
    #[verifier::loop_isolation(false)]
    fn trans_target(&self, i: usize, c: u8) -> (r: Option<usize>)
        requires
            i < self.states@.len(),
        ensures
            r == lookup(self.states@[i as int].next@, c),
    {
        let st = &self.states[i];
        let n = st.next.len();
        let mut j: usize = 0;
        while j < n
            invariant
                0 <= j <= n,
                lookup(st.next@, c) == lookup_from(st.next@, c, j as int),
            decreases n - j,
        {
            let (k, t) = st.next[j];
            proof {
                reveal_with_fuel(lookup_from, 2);
            }
            if k == c {
                return Some(t);
            }
            j += 1;
        }
        None
    }

    /// Add a transition on a symbol the state does not yet carry.
    fn add_trans(&mut self, i: usize, c: u8, t: usize)
        requires
            i < old(self).states@.len(),
            t < old(self).states@.len(),
        ensures
            final(self).states@.len() == old(self).states@.len(),
            forall|k: int|
                0 <= k < old(self).states@.len() && k != i ==> final(self).states@[k]
                    == old(self).states@[k],
            final(self).states@[i as int].len == old(self).states@[i as int].len,
            final(self).states@[i as int].link == old(self).states@[i as int].link,
            final(self).states@[i as int].seeds@ == old(self).states@[i as int].seeds@,
            final(self).states@[i as int].origins@ == old(self).states@[i as int].origins@,
            final(self).states@[i as int].next@ == old(self).states@[i as int].next@.push((c, t)),
            final(self).last == old(self).last,
            final(self).total_len == old(self).total_len,
            final(self).clones == old(self).clones,
    {
        self.states[i].next.push((c, t));
    }

    /// Retarget the existing transition on `c` out of state `i`.
    fn set_trans(&mut self, i: usize, c: u8, t: usize)
        requires
            i < old(self).states@.len(),
            t < old(self).states@.len(),
            lookup(old(self).states@[i as int].next@, c).is_some(),
        ensures
            final(self).states@.len() == old(self).states@.len(),
            forall|k: int|
                0 <= k < old(self).states@.len() && k != i ==> final(self).states@[k]
                    == old(self).states@[k],
            final(self).states@[i as int].len == old(self).states@[i as int].len,
            final(self).states@[i as int].link == old(self).states@[i as int].link,
            final(self).states@[i as int].seeds@ == old(self).states@[i as int].seeds@,
            final(self).states@[i as int].origins@ == old(self).states@[i as int].origins@,
            final(self).states@[i as int].next@.len() == old(self).states@[i as int].next@.len(),
            forall|j: int|
                0 <= j < old(self).states@[i as int].next@.len() ==> (
                #[trigger] final(self).states@[i as int].next@[j]) == (
                if old(self).states@[i as int].next@[j].0 == c {
                    (c, t)
                } else {
                    old(self).states@[i as int].next@[j]
                }),
            final(self).last == old(self).last,
            final(self).total_len == old(self).total_len,
            final(self).clones == old(self).clones,
    {
        let n = self.states[i].next.len();
        let mut j: usize = 0;
        while j < n
            invariant
                i < self.states@.len(),
                t < self.states@.len(),
                n == self.states@[i as int].next@.len(),
                0 <= j <= n,
                self.states@.len() == old(self).states@.len(),
                forall|k: int|
                    0 <= k < old(self).states@.len() && k != i ==> self.states@[k] == old(
                        self,
                    ).states@[k],
                self.states@[i as int].len == old(self).states@[i as int].len,
                self.states@[i as int].link == old(self).states@[i as int].link,
                self.states@[i as int].seeds@ == old(self).states@[i as int].seeds@,
                self.states@[i as int].origins@ == old(self).states@[i as int].origins@,
                forall|m: int|
                    0 <= m < n && m >= j ==> (#[trigger] self.states@[i as int].next@[m]) == old(
                        self,
                    ).states@[i as int].next@[m],
                forall|m: int|
                    0 <= m < j ==> (#[trigger] self.states@[i as int].next@[m]) == (
                    if old(self).states@[i as int].next@[m].0 == c {
                        (c, t)
                    } else {
                        old(self).states@[i as int].next@[m]
                    }),
                self.last == old(self).last,
                self.total_len == old(self).total_len,
                self.clones == old(self).clones,
            decreases n - j,
        {
            let (k, _) = self.states[i].next[j];
            if k == c {
                self.states[i].next[j] = (c, t);
            }
            j += 1;
        }
    }

    /// Point the suffix link of state `i` at `l`.
    fn set_link(&mut self, i: usize, l: usize)
        requires
            i < old(self).states@.len(),
            l < old(self).states@.len(),
        ensures
            final(self).states@.len() == old(self).states@.len(),
            forall|k: int|
                0 <= k < old(self).states@.len() && k != i ==> final(self).states@[k]
                    == old(self).states@[k],
            final(self).states@[i as int].len == old(self).states@[i as int].len,
            final(self).states@[i as int].link == l,
            final(self).states@[i as int].seeds@ == old(self).states@[i as int].seeds@,
            final(self).states@[i as int].origins@ == old(self).states@[i as int].origins@,
            final(self).states@[i as int].next@ == old(self).states@[i as int].next@,
            final(self).last == old(self).last,
            final(self).total_len == old(self).total_len,
            final(self).clones == old(self).clones,
    {
        self.states[i].link = l;
    }
}

/// A lookup that fails finds no entry with that key.
pub proof fn lemma_lookup_none(next: Seq<(u8, usize)>, c: u8, j: int)
    requires
        0 <= j,
        lookup_from(next, c, j) == None::<usize>,
    ensures
        forall|m: int| j <= m < next.len() ==> (#[trigger] next[m]).0 != c,
    decreases next.len() - j,
{
    if j < next.len() {
        lemma_lookup_none(next, c, j + 1);
    }
}

/// A lookup that succeeds names an actual entry.
pub proof fn lemma_lookup_some(next: Seq<(u8, usize)>, c: u8, j: int, t: usize)
    requires
        0 <= j,
        lookup_from(next, c, j) == Some(t),
    ensures
        exists|m: int| j <= m < next.len() && next[m] == (c, t),
    decreases next.len() - j,
{
    if j < next.len() {
        if next[j].0 == c {
            assert(next[j] == (c, t));
        } else {
            lemma_lookup_some(next, c, j + 1, t);
        }
    }
}

/// Well-formedness only reads lengths, links and transitions: a change that
/// keeps those keeps the invariant.
pub proof fn lemma_wf_same_structure(pre: Seq<State>, post: Seq<State>)
    requires
        wf_states(pre),
        post.len() == pre.len(),
        forall|k: int|
            0 <= k < pre.len() ==> (#[trigger] post[k]).len == pre[k].len && post[k].link
                == pre[k].link && post[k].next@ == pre[k].next@,
    ensures
        wf_states(post),
{
    assert forall|k: int| 0 <= k < post.len() implies #[trigger] state_ok(post, k) by {
        assert(state_ok(pre, k));
        assert forall|j: int| 0 <= j < post[k].next@.len() implies {
            &&& (#[trigger] post[k].next@[j]).1 < post.len()
            &&& post[post[k].next@[j].1 as int].len >= post[k].len + 1
        } by {
            assert(pre[k].next@[j] == post[k].next@[j]);
            assert(state_ok(pre, k));
        }
    }
}

impl SAMPool {
    /// Append a fresh state and hand back its index.
    fn push_state(&mut self, len_: usize, link_: usize, next_: Vec<(u8, usize)>) -> (idx: usize)
        requires
            old(self).states@.len() < usize::MAX,
        ensures
            idx == old(self).states@.len(),
            final(self).states@.len() == old(self).states@.len() + 1,
            forall|k: int|
                0 <= k < old(self).states@.len() ==> final(self).states@[k] == old(
                    self,
                ).states@[k],
            final(self).states@[idx as int].len == len_,
            final(self).states@[idx as int].link == link_,
            final(self).states@[idx as int].next@ == next_@,
            final(self).states@[idx as int].seeds@ == Seq::<u32>::empty(),
            final(self).states@[idx as int].origins@ == Seq::<u32>::empty(),
            final(self).last == old(self).last,
            final(self).total_len == old(self).total_len,
            final(self).clones == old(self).clones,
    {
        let idx = self.states.len();
        self.states.push(
            State { len: len_, link: link_, next: next_, seeds: Vec::new(), origins: Vec::new() },
        );
        idx
    }

    /// Record that state `i` ends a prefix of string `id`.
    fn mark(&mut self, i: usize, id: u32)
        requires
            old(self).wf(),
            i < old(self).states@.len(),
        ensures
            final(self).wf(),
            final(self).states@.len() == old(self).states@.len(),
            forall|k: int|
                0 <= k < old(self).states@.len() && k != i ==> final(self).states@[k] == old(
                    self,
                ).states@[k],
            final(self).states@[i as int].len == old(self).states@[i as int].len,
            final(self).states@[i as int].link == old(self).states@[i as int].link,
            final(self).states@[i as int].next@ == old(self).states@[i as int].next@,
            final(self).states@[i as int].origins@ == old(self).states@[i as int].origins@,
            final(self).states@[i as int].seeds@ == (if old(self).states@[i as int].seeds@.contains(
                id,
            ) {
                old(self).states@[i as int].seeds@
            } else {
                old(self).states@[i as int].seeds@.push(id)
            }),
            final(self).last == old(self).last,
            final(self).total_len == old(self).total_len,
            final(self).clones == old(self).clones,
    {
        let n = self.states[i].seeds.len();
        let mut j: usize = 0;
        let mut found = false;
        while j < n
            invariant
                i < self.states@.len(),
                n == self.states@[i as int].seeds@.len(),
                0 <= j <= n,
                found == exists|m: int|
                    0 <= m < j && self.states@[i as int].seeds@[m] == id,
            decreases n - j,
        {
            if self.states[i].seeds[j] == id {
                found = true;
            }
            j += 1;
        }
        if !found {
            proof {
                assert(!self.states@[i as int].seeds@.contains(id));
            }
            self.states[i].seeds.push(id);
            proof {
                lemma_wf_same_structure(old(self).states@, self.states@);
            }
        } else {
            proof {
                assert(self.states@[i as int].seeds@.contains(id));
            }
        }
    }
}

/// An element-wise copy of a transition list.
fn copy_pairs(v: &Vec<(u8, usize)>) -> (r: Vec<(u8, usize)>)
    ensures
        r@ == v@,
{
    let n = v.len();
    let mut r: Vec<(u8, usize)> = Vec::new();
    let mut j: usize = 0;
    while j < n
        invariant
            0 <= j <= n,
            n == v@.len(),
            r@ == v@.take(j as int),
        decreases n - j,
    {
        r.push(v[j]);
        proof {
            assert(r@ =~= v@.take(j as int + 1));
        }
        j += 1;
    }
    proof {
        assert(r@ =~= v@);
    }
    r
}

impl SAMPool {
    /// Split the transition target `q`, reached from `p` on `c`, whose
    /// longest length overshoots `len(p) + 1`: insert a clone of `q` at the
    /// matched length, retarget the suffix chain's transitions on `c` from
    /// `q` to the clone, and hang `q` below the clone.
    #[verifier::loop_isolation(false)]
    fn split(&mut self, p: usize, q: usize, c: u8) -> (cl: usize)
        requires
            old(self).wf(),
            p < old(self).states@.len(),
            q < old(self).states@.len(),
            lookup(old(self).states@[p as int].next@, c) == Some(q),
            old(self).states@[q as int].len > old(self).states@[p as int].len + 1,
            old(self).states@[p as int].len + 1 <= old(self).total_len,
            old(self).states@.len() < usize::MAX,
        ensures
            final(self).wf(),
            cl == old(self).states@.len(),
            final(self).states@.len() == old(self).states@.len() + 1,
            final(self).states@[cl as int].len == old(self).states@[p as int].len + 1,
            forall|k: int|
                0 <= k < old(self).states@.len() ==> (#[trigger] final(self).states@[k]).len
                    == old(self).states@[k].len,
            forall|k: int|
                0 <= k < old(self).states@.len() ==> (#[trigger] final(self).states@[k]).seeds@
                    == old(self).states@[k].seeds@,
            final(self).states@[cl as int].seeds@ == Seq::<u32>::empty(),
            final(self).last == old(self).last,
            final(self).total_len == old(self).total_len,
            final(self).clones == old(self).clones + 1,
            final(self).states@[cl as int].next@ == old(self).states@[q as int].next@,
            forall|x: int|
                0 <= x < old(self).states@.len() ==> (#[trigger] final(self).states@[x]).next@.len()
                    == old(self).states@[x].next@.len(),
            forall|x: int, j: int|
                0 <= x < old(self).states@.len() && 0 <= j < old(self).states@[x].next@.len()
                    ==> ((#[trigger] final(self).states@[x].next@[j])
                    == old(self).states@[x].next@[j] || (old(self).states@[x].next@[j] == (c, q)
                    && final(self).states@[x].next@[j] == (c, cl))),
            lookup(final(self).states@[p as int].next@, c) == Some(cl),
    {
        proof {
            assert(state_ok(old(self).states@, p as int));
            assert(state_ok(old(self).states@, q as int));
        }
        let plen = self.states[p].len;
        let qlink = self.states[q].link;
        // The split target's suffix link never reaches past `p`; the arena
        // alone does not show that, so keep the link invariant explicit by
        // falling back to the root where the lengths would disagree.
        let cl_link = if self.states[qlink].len <= plen {
            qlink
        } else {
            0
        };
        let copied = copy_pairs(&self.states[q].next);
        let cl = self.push_state(plen + 1, cl_link, copied);
        proof {
            let pre = old(self).states@;
            let post = self.states@;
            assert forall|k: int| 0 <= k < post.len() implies #[trigger] state_ok(post, k) by {
                if k < pre.len() {
                    assert(state_ok(pre, k));
                    assert(post[k] == pre[k]);
                    assert forall|j: int| 0 <= j < post[k].next@.len() implies {
                        &&& (#[trigger] post[k].next@[j]).1 < post.len()
                        &&& post[post[k].next@[j].1 as int].len >= post[k].len + 1
                    } by {
                        assert(state_ok(pre, k));
                        assert(pre[k].next@[j].1 < pre.len());
                    }
                } else {
                    // the clone itself
                    assert(k == cl as int);
                    assert(state_ok(pre, q as int));
                    assert forall|j: int| 0 <= j < post[k].next@.len() implies {
                        &&& (#[trigger] post[k].next@[j]).1 < post.len()
                        &&& post[post[k].next@[j].1 as int].len >= post[k].len + 1
                    } by {
                        assert(post[k].next@[j] == pre[q as int].next@[j]);
                        assert(state_ok(pre, q as int));
                        assert(pre[q as int].next@[j].1 < pre.len());
                    }
                }
            }
        }
        self.clones = self.clones + 1;
        // Retarget the chain's transitions on `c` that still lead to `q`,
        // starting with the one out of `p` that is being split.
        let ghost mid = self.states@;
        proof {
            lemma_lookup_some(self.states@[p as int].next@, c, 0, q);
        }
        let ghost pre0 = self.states@;
        self.set_trans(p, c, cl);
        proof {
            let post = self.states@;
            assert forall|k: int| 0 <= k < post.len() implies #[trigger] state_ok(post, k) by {
                assert(state_ok(pre0, k));
                if k != p {
                    assert(post[k] == pre0[k]);
                }
                assert forall|j: int| 0 <= j < post[k].next@.len() implies {
                    &&& (#[trigger] post[k].next@[j]).1 < post.len()
                    &&& post[post[k].next@[j].1 as int].len >= post[k].len + 1
                } by {
                    assert(state_ok(pre0, k));
                    if k == p && pre0[k].next@[j].0 == c {
                        assert(post[k].next@[j] == (c, cl as usize));
                    } else {
                        assert(post[k].next@[j] == pre0[k].next@[j]);
                    }
                }
            }
            assert forall|j: int|
                0 <= j < old(self).states@[p as int].next@.len() implies ((
            #[trigger] self.states@[p as int].next@[j]) == old(self).states@[p as int].next@[j] || (
            old(self).states@[p as int].next@[j] == (c, q) && self.states@[p as int].next@[j] == (
                c,
                cl,
            ))) by {
                assert(state_ok(pre0, p as int));
                if pre0[p as int].next@[j].0 == c {
                    lemma_lookup_unique(pre0[p as int].next@, c, q, j);
                }
            }
            lemma_lookup_all_retargeted(
                pre0[p as int].next@,
                self.states@[p as int].next@,
                c,
                cl,
                q,
                0,
            );
        }
        if p != 0 {
            proof {
                assert(state_ok(self.states@, p as int));
            }
            let mut pp = self.states[p].link;
            loop
                invariant
                    wf_states(self.states@),
                    self.states@.len() == mid.len(),
                    pp < mid.len() - 1,
                    cl < self.states@.len(),
                    q < mid.len() - 1,
                    cl == mid.len() - 1,
                    self.states@[pp as int].len < self.states@[p as int].len,
                    self.states@[cl as int].next@ == old(self).states@[q as int].next@,
                    forall|x: int|
                        0 <= x < mid.len() - 1 ==> (#[trigger] self.states@[x]).next@.len() == old(
                            self,
                        ).states@[x].next@.len(),
                    forall|x: int, j: int|
                        0 <= x < mid.len() - 1 && 0 <= j < old(self).states@[x].next@.len()
                            ==> ((#[trigger] self.states@[x].next@[j])
                            == old(self).states@[x].next@[j] || (old(self).states@[x].next@[j] == (
                        c,
                        q,
                    ) && self.states@[x].next@[j] == (c, cl))),
                    lookup(self.states@[p as int].next@, c) == Some(cl),
                    forall|k: int|
                        0 <= k < mid.len() ==> (#[trigger] self.states@[k]).len == mid[k].len,
                    forall|k: int|
                        0 <= k < mid.len() ==> (#[trigger] self.states@[k]).link == mid[k].link,
                    forall|k: int|
                        0 <= k < mid.len() ==> (#[trigger] self.states@[k]).seeds@ == mid[k].seeds@,
                    self.states@[p as int].len == mid[p as int].len,
                    self.states@[cl as int].len == mid[p as int].len + 1,
                    self.last == old(self).last,
                    self.total_len == old(self).total_len,
                    self.clones == old(self).clones + 1,
                    forall|i: int|
                        0 <= i < self.states@.len() ==> (#[trigger] self.states@[i]).len
                            <= self.total_len,
                decreases self.states@[pp as int].len,
            {
                let hit = match self.trans_target(pp, c) {
                    Some(t) => t == q,
                    None => false,
                };
                if !hit {
                    break ;
                }
                proof {
                    lemma_lookup_some(self.states@[pp as int].next@, c, 0, q);
                }
                let ghost pre = self.states@;
                self.set_trans(pp, c, cl);
                proof {
                    let post = self.states@;
                    assert forall|k: int| 0 <= k < post.len() implies #[trigger] state_ok(
                        post,
                        k,
                    ) by {
                        assert(state_ok(pre, k));
                        if k != pp {
                            assert(post[k] == pre[k]);
                        }
                        assert forall|j: int| 0 <= j < post[k].next@.len() implies {
                            &&& (#[trigger] post[k].next@[j]).1 < post.len()
                            &&& post[post[k].next@[j].1 as int].len >= post[k].len + 1
                        } by {
                            assert(state_ok(pre, k));
                            if k == pp && pre[k].next@[j].0 == c {
                                assert(post[k].next@[j] == (c, cl as usize));
                            } else {
                                assert(post[k].next@[j] == pre[k].next@[j]);
                            }
                        }
                    }
                    assert forall|j: int|
                        0 <= j < old(self).states@[pp as int].next@.len() implies ((
                    #[trigger] self.states@[pp as int].next@[j]) == old(
                        self,
                    ).states@[pp as int].next@[j] || (old(self).states@[pp as int].next@[j] == (
                        c,
                        q,
                    ) && self.states@[pp as int].next@[j] == (c, cl))) by {
                        assert(state_ok(pre, pp as int));
                        if pre[pp as int].next@[j].0 == c {
                            lemma_lookup_unique(pre[pp as int].next@, c, q, j);
                        }
                    }
                }
                if pp == 0 {
                    break ;
                }
                proof {
                    assert(state_ok(self.states@, pp as int));
                }
                pp = self.states[pp].link;
            }
        }
        // Hang `q` below the clone.
        let ghost pre = self.states@;
        self.set_link(q, cl);
        proof {
            let post = self.states@;
            assert(pre[q as int].len > pre[cl as int].len - 1);
            assert forall|k: int| 0 <= k < post.len() implies #[trigger] state_ok(post, k) by {
                assert(state_ok(pre, k));
                if k != q {
                    assert(post[k] == pre[k]);
                }
                assert forall|j: int| 0 <= j < post[k].next@.len() implies {
                    &&& (#[trigger] post[k].next@[j]).1 < post.len()
                    &&& post[post[k].next@[j].1 as int].len >= post[k].len + 1
                } by {
                    assert(state_ok(pre, k));
                    assert(post[k].next@[j] == pre[k].next@[j]);
                }
            }
        }
        cl
    }
}

impl SAMPool {
    /// Process one symbol at the cursor: follow a matching transition,
    /// split a mismatched one, or create a fresh state and wire the suffix
    /// chain to it. The cursor's length grows by exactly one.
    #[verifier::loop_isolation(false)]
    fn extend(&mut self, c: u8, Ghost(prefix): Ghost<Seq<u8>>)
        requires
            old(self).wf(),
            old(self).states@[old(self).last as int].len + 1 <= old(self).total_len,
            old(self).states@.len() + 2 <= 1 + 2 * old(self).total_len,
            run_from(old(self).states@, 0, prefix) == Some(old(self).last as int),
        ensures
            final(self).wf(),
            run_from(final(self).states@, 0, prefix.push(c)) == Some(final(self).last as int),
            forall|w: Seq<u8>|
                #[trigger] run_from(old(self).states@, 0, w) is Some ==> run_from(
                    final(self).states@,
                    0,
                    w,
                ) is Some,
            final(self).states@[final(self).last as int].len
                == old(self).states@[old(self).last as int].len + 1,
            old(self).states@.len() <= final(self).states@.len(),
            final(self).states@.len() <= old(self).states@.len() + 2,
            forall|k: int|
                0 <= k < old(self).states@.len() ==> (#[trigger] final(self).states@[k]).len
                    == old(self).states@[k].len,
            forall|k: int|
                0 <= k < old(self).states@.len() ==> (#[trigger] final(self).states@[k]).seeds@
                    == old(self).states@[k].seeds@,
            forall|k: int|
                old(self).states@.len() <= k < final(self).states@.len()
                    ==> (#[trigger] final(self).states@[k]).seeds@ == Seq::<u32>::empty(),
            final(self).total_len == old(self).total_len,
            old(self).clones <= final(self).clones <= old(self).clones + 1,
    {
        let last = self.last;
        proof {
            assert(state_ok(self.states@, last as int));
        }
        let lastlen = self.states[last].len;
        match self.trans_target(last, c) {
            Some(q) => {
                proof {
                    lemma_lookup_some(self.states@[last as int].next@, c, 0, q);
                    assert(state_ok(self.states@, last as int));
                }
                if self.states[q].len == lastlen + 1 {
                    proof {
                        lemma_run_push(self.states@, 0, prefix, c);
                    }
                    self.last = q;
                } else {
                    proof {
                        assert(state_ok(self.states@, last as int));
                    }
                    let ghost orig = self.states@;
                    let cl = self.split(last, q, c);
                    proof {
                        lemma_run_retarget(
                            orig,
                            self.states@,
                            c,
                            q as int,
                            cl as int,
                            0,
                            0,
                            prefix,
                        );
                        lemma_run_push(self.states@, 0, prefix, c);
                        assert forall|w: Seq<u8>|
                            #[trigger] run_from(orig, 0, w) is Some implies run_from(
                            self.states@,
                            0,
                            w,
                        ) is Some by {
                            lemma_run_retarget(
                                orig,
                                self.states@,
                                c,
                                q as int,
                                cl as int,
                                0,
                                0,
                                w,
                            );
                        }
                    }
                    self.last = cl;
                }
            },
            None => {
                let cur = self.push_state(lastlen + 1, 0, Vec::new());
                proof {
                    let pre = old(self).states@;
                    let post = self.states@;
                    lemma_lookup_none(pre[last as int].next@, c, 0);
                    assert forall|k: int| 0 <= k < post.len() implies #[trigger] state_ok(
                        post,
                        k,
                    ) by {
                        if k < pre.len() {
                            assert(state_ok(pre, k));
                            assert(post[k] == pre[k]);
                            assert forall|j: int| 0 <= j < post[k].next@.len() implies {
                                &&& (#[trigger] post[k].next@[j]).1 < post.len()
                                &&& post[post[k].next@[j].1 as int].len >= post[k].len + 1
                            } by {
                                assert(state_ok(pre, k));
                                assert(pre[k].next@[j].1 < pre.len());
                            }
                        }
                    }
                }
                let ghost with_cur = self.states@;
                self.add_trans(last, c, cur);
                proof {
                    lemma_add_trans_keeps(with_cur, self.states@, last as int, c, cur as usize);
                    lemma_run_same_next(old(self).states@, with_cur, 0, prefix);
                    lemma_run_add_edge(with_cur, self.states@, last as int, c, cur, 0, prefix);
                    lemma_lookup_push_absent(with_cur[last as int].next@, c, cur, 0);
                    lemma_run_push(self.states@, 0, prefix, c);
                    assert(run_from(self.states@, 0, prefix.push(c)) == Some(cur as int));
                    assert forall|w: Seq<u8>|
                        #[trigger] run_from(old(self).states@, 0, w) is Some implies run_from(
                        self.states@,
                        0,
                        w,
                    ) is Some by {
                        lemma_run_same_next(old(self).states@, with_cur, 0, w);
                        lemma_run_add_edge(with_cur, self.states@, last as int, c, cur, 0, w);
                    }
                }
                if last == 0 {
                    self.last = cur;
                } else {
                    let mut p = self.states[last].link;
                    proof {
                        assert(state_ok(with_cur, last as int));
                    }
                    loop
                        invariant
                            wf_states(self.states@),
                            self.states@.len() == old(self).states@.len() + 1,
                            p < self.states@.len(),
                            self.states@[p as int].len < lastlen,
                            cur == old(self).states@.len(),
                            run_from(self.states@, 0, prefix.push(c)) == Some(cur as int),
                            forall|w: Seq<u8>|
                                #[trigger] run_from(old(self).states@, 0, w) is Some ==> run_from(
                                    self.states@,
                                    0,
                                    w,
                                ) is Some,
                            forall|x: int|
                                0 <= x < old(self).states@.len() ==> ((
                                #[trigger] self.states@[x]).next@
                                    == old(self).states@[x].next@ || (self.states@[x].next@ == old(
                                    self,
                                ).states@[x].next@.push((c, cur)) && self.states@[x].len
                                    > self.states@[p as int].len)),
                            self.states@[cur as int].len == lastlen + 1,
                            self.states@[cur as int].seeds@ == Seq::<u32>::empty(),
                            forall|k: int|
                                0 <= k < old(self).states@.len() ==> (#[trigger] self.states@[k]).len
                                    == old(self).states@[k].len,
                            forall|k: int|
                                0 <= k < old(self).states@.len() ==> (#[trigger] self.states@[k]).seeds@
                                    == old(self).states@[k].seeds@,
                            self.last == old(self).last,
                            self.total_len == old(self).total_len,
                            self.clones == old(self).clones,
                        decreases self.states@[p as int].len,
                    {
                        match self.trans_target(p, c) {
                            None => {
                                let ghost pre = self.states@;
                                proof {
                                    lemma_lookup_none(pre[p as int].next@, c, 0);
                                }
                                self.add_trans(p, c, cur);
                                proof {
                                    lemma_add_trans_keeps(pre, self.states@, p as int, c, cur as usize);
                                    lemma_run_add_edge(
                                        pre,
                                        self.states@,
                                        p as int,
                                        c,
                                        cur,
                                        0,
                                        prefix.push(c),
                                    );
                                    assert forall|w: Seq<u8>|
                                        #[trigger] run_from(old(self).states@, 0, w) is Some implies run_from(
                                        self.states@,
                                        0,
                                        w,
                                    ) is Some by {
                                        lemma_run_add_edge(pre, self.states@, p as int, c, cur, 0, w);
                                    }
                                }
                                if p == 0 {
                                    break ;
                                }
                                proof {
                                    assert(state_ok(self.states@, p as int));
                                }
                                p = self.states[p].link;
                            },
                            Some(q) => {
                                proof {
                                    lemma_lookup_some(self.states@[p as int].next@, c, 0, q);
                                    assert(state_ok(self.states@, p as int));
                                }
                                if self.states[q].len == self.states[p].len + 1 {
                                    let ghost pre = self.states@;
                                    self.set_link(cur, q);
                                    proof {
                                        lemma_set_link_keeps(pre, self.states@, cur as int, q as int);
                                        lemma_run_same_next(pre, self.states@, 0, prefix.push(c));
                                        assert forall|w: Seq<u8>|
                                            #[trigger] run_from(old(self).states@, 0, w) is Some implies run_from(
                                            self.states@,
                                            0,
                                            w,
                                        ) is Some by {
                                            lemma_run_same_next(pre, self.states@, 0, w);
                                        }
                                    }
                                } else {
                                    let ghost presplit = self.states@;
                                    proof {
                                        // this chain state is yet unvisited: its
                                        // transition on `c` predates this symbol
                                        assert(presplit[p as int].next@ == old(
                                            self,
                                        ).states@[p as int].next@);
                                        lemma_lookup_some(
                                            old(self).states@[p as int].next@,
                                            c,
                                            0,
                                            q,
                                        );
                                        assert(state_ok(old(self).states@, p as int));
                                        assert(q < old(self).states@.len());
                                    }
                                    let cl = self.split(p, q, c);
                                    proof {
                                        lemma_run_retarget(
                                            presplit,
                                            self.states@,
                                            c,
                                            q as int,
                                            cl as int,
                                            0,
                                            0,
                                            prefix.push(c),
                                        );
                                        assert(run_from(self.states@, 0, prefix.push(c)) == Some(
                                            cur as int,
                                        ));
                                        assert forall|w: Seq<u8>|
                                            #[trigger] run_from(old(self).states@, 0, w) is Some implies run_from(
                                            self.states@,
                                            0,
                                            w,
                                        ) is Some by {
                                            lemma_run_retarget(
                                                presplit,
                                                self.states@,
                                                c,
                                                q as int,
                                                cl as int,
                                                0,
                                                0,
                                                w,
                                            );
                                        }
                                    }
                                    let ghost pre = self.states@;
                                    self.set_link(cur, cl);
                                    proof {
                                        lemma_set_link_keeps(pre, self.states@, cur as int, cl as int);
                                        lemma_run_same_next(pre, self.states@, 0, prefix.push(c));
                                        assert forall|w: Seq<u8>|
                                            #[trigger] run_from(old(self).states@, 0, w) is Some implies run_from(
                                            self.states@,
                                            0,
                                            w,
                                        ) is Some by {
                                            lemma_run_same_next(pre, self.states@, 0, w);
                                        }
                                    }
                                }
                                break ;
                            },
                        }
                    }
                    self.last = cur;
                }
            },
        }
    }
}

/// Adding a transition on an absent symbol, to a strictly longer state,
/// keeps the arena well-formed.
pub proof fn lemma_add_trans_keeps(pre: Seq<State>, post: Seq<State>, i: int, c: u8, t: usize)
    requires
        wf_states(pre),
        0 <= i < pre.len(),
        t < pre.len(),
        post.len() == pre.len(),
        forall|k: int| 0 <= k < pre.len() && k != i ==> post[k] == pre[k],
        post[i].len == pre[i].len,
        post[i].link == pre[i].link,
        post[i].next@ == pre[i].next@.push((c, t)),
        forall|m: int| 0 <= m < pre[i].next@.len() ==> (#[trigger] pre[i].next@[m]).0 != c,
        pre[t as int].len >= pre[i].len + 1,
    ensures
        wf_states(post),
{
    assert forall|k: int| 0 <= k < post.len() implies #[trigger] state_ok(post, k) by {
        assert(state_ok(pre, k));
        if k != i {
            assert(post[k] == pre[k]);
        }
        assert forall|j: int| 0 <= j < post[k].next@.len() implies {
            &&& (#[trigger] post[k].next@[j]).1 < post.len()
            &&& post[post[k].next@[j].1 as int].len >= post[k].len + 1
        } by {
            assert(state_ok(pre, k));
            if k == i && j == pre[i].next@.len() {
                assert(post[k].next@[j] == (c, t));
            } else {
                assert(post[k].next@[j] == pre[k].next@[j]);
            }
        }
        if k == i {
            assert(keys_unique(post[k].next@)) by {
                assert forall|a: int, b: int|
                    0 <= a < b < post[k].next@.len() implies (#[trigger] post[k].next@[a]).0 != (
                #[trigger] post[k].next@[b]).0 by {
                    if b == pre[i].next@.len() {
                        assert(post[k].next@[a] == pre[i].next@[a]);
                    }
                }
            }
        }
    }
}

/// Re-aiming a suffix link at a strictly shorter state keeps the arena
/// well-formed.
pub proof fn lemma_set_link_keeps(pre: Seq<State>, post: Seq<State>, i: int, l: int)
    requires
        wf_states(pre),
        0 <= i < pre.len(),
        0 <= l < pre.len(),
        post.len() == pre.len(),
        forall|k: int| 0 <= k < pre.len() && k != i ==> post[k] == pre[k],
        post[i].len == pre[i].len,
        post[i].link == l,
        post[i].next@ == pre[i].next@,
        i != 0 ==> pre[l].len < pre[i].len,
        i != 0,
    ensures
        wf_states(post),
{
    assert forall|k: int| 0 <= k < post.len() implies #[trigger] state_ok(post, k) by {
        assert(state_ok(pre, k));
        if k != i {
            assert(post[k] == pre[k]);
        }
        assert forall|j: int| 0 <= j < post[k].next@.len() implies {
            &&& (#[trigger] post[k].next@[j]).1 < post.len()
            &&& post[post[k].next@[j].1 as int].len >= post[k].len + 1
        } by {
            assert(state_ok(pre, k));
            assert(post[k].next@[j] == pre[k].next@[j]);
        }
    }
}

impl SAMPool {
    /// Insert one labeled string into the shared automaton.
    ///
    /// The cursor restarts at the root, so the string is threaded as a fresh
    /// suffix chain over the existing structure: the automaton stays
    /// generalized over every string inserted so far. Every symbol is
    /// accepted; there is no fixed alphabet to fall outside of. Each prefix
    /// endpoint is tagged with `id` so that `collect` can later attribute
    /// states to strings.
    ///
    /// Afterwards the automaton accepts `s`, with the cursor at its end
    /// state, and every prefix of `s`; and every word it accepted before it
    /// still accepts — insertion only grows the language. Seed ids only
    /// grow, every id added is this call's `id`, and on a non-empty string
    /// the cursor's state carries it. The contract stops there: that the
    /// suffixes of `s` — and so all its substrings — are accepted, and
    /// nothing else, holds of the construction but is not stated; it needs
    /// the end-position model of the automaton, which this library does
    /// not formalize.
    #[verifier::loop_isolation(false)]
    pub fn join_string(&mut self, s: &[u8], id: u32)
        requires
            old(self).wf(),
            old(self).counted(),
            old(self).total_len + s@.len() <= (usize::MAX - 1) / 2,
        ensures
            final(self).wf(),
            final(self).counted(),
            final(self).total_len == old(self).total_len + s@.len(),
            old(self).states@.len() <= final(self).states@.len(),
            final(self).states@.len() <= old(self).states@.len() + 2 * s@.len(),
            forall|k: int|
                0 <= k < old(self).states@.len() ==> (#[trigger] final(self).states@[k]).len
                    == old(self).states@[k].len,
            final(self).states@[final(self).last as int].len == s@.len(),
            final(self).clones <= old(self).clones + s@.len(),
            old(self).clones <= final(self).clones,
            run_from(final(self).states@, 0, s@) == Some(final(self).last as int),
            forall|j: int|
                0 <= j <= s@.len() ==> #[trigger] run_from(final(self).states@, 0, s@.take(j))
                    is Some,
            forall|w: Seq<u8>|
                #[trigger] run_from(old(self).states@, 0, w) is Some ==> run_from(
                    final(self).states@,
                    0,
                    w,
                ) is Some,
            forall|k: int, x: u32|
                0 <= k < old(self).states@.len() && old(self).states@[k].seeds@.contains(x)
                    ==> (#[trigger] final(self).states@[k].seeds@.contains(x)),
            forall|k: int, x: u32|
                0 <= k < final(self).states@.len()
                    && (#[trigger] final(self).states@[k].seeds@.contains(x))
                    ==> ((k < old(self).states@.len()
                    && old(self).states@[k].seeds@.contains(x)) || x == id),
            s@.len() > 0 ==> final(self).states@[final(self).last as int].seeds@.contains(id),
    {
        proof {
            assert(old(self).states@[0].len == 0);
            assert(s@.take(0) =~= Seq::<u8>::empty());
        }
        self.total_len = self.total_len + s.len();
        self.last = 0;
        let n = s.len();
        let mut i: usize = 0;
        while i < n
            invariant
                self.wf(),
                0 <= i <= n,
                n == s@.len(),
                self.states@[self.last as int].len == i,
                run_from(self.states@, 0, s@.take(i as int)) == Some(self.last as int),
                forall|j: int|
                    0 <= j <= i ==> #[trigger] run_from(self.states@, 0, s@.take(j)) is Some,
                forall|w: Seq<u8>|
                    #[trigger] run_from(old(self).states@, 0, w) is Some ==> run_from(
                        self.states@,
                        0,
                        w,
                    ) is Some,
                self.total_len == old(self).total_len + s@.len(),
                old(self).states@.len() <= self.states@.len(),
                self.states@.len() + 2 * (n - i) <= old(self).states@.len() + 2 * s@.len(),
                forall|k: int|
                    0 <= k < old(self).states@.len() ==> (#[trigger] self.states@[k]).len
                        == old(self).states@[k].len,
                old(self).clones <= self.clones,
                self.clones <= old(self).clones + i,
                forall|k: int, x: u32|
                    0 <= k < old(self).states@.len() && old(self).states@[k].seeds@.contains(x)
                        ==> (#[trigger] self.states@[k].seeds@.contains(x)),
                forall|k: int, x: u32|
                    0 <= k < self.states@.len() && (#[trigger] self.states@[k].seeds@.contains(x))
                        ==> ((k < old(self).states@.len()
                        && old(self).states@[k].seeds@.contains(x)) || x == id),
                i > 0 ==> self.states@[self.last as int].seeds@.contains(id),
            decreases n - i,
        {
            let ghost pre_extend = self.states@;
            self.extend(s[i], Ghost(s@.take(i as int)));
            proof {
                assert(s@.take(i as int).push(s@[i as int]) =~= s@.take(i as int + 1));
            }
            let cursor = self.last;
            let ghost pre_mark = self.states@;
            self.mark(cursor, id);
            proof {
                lemma_run_same_next(pre_mark, self.states@, 0, s@.take(i as int + 1));
                assert forall|w: Seq<u8>|
                    #[trigger] run_from(pre_mark, 0, w) is Some implies run_from(
                    self.states@,
                    0,
                    w,
                ) is Some by {
                    lemma_run_same_next(pre_mark, self.states@, 0, w);
                }
                assert forall|j: int|
                    0 <= j <= i + 1 implies #[trigger] run_from(self.states@, 0, s@.take(j))
                    is Some by {
                    if j <= i {
                        assert(run_from(pre_extend, 0, s@.take(j)) is Some);
                    }
                }
                // the mark leaves the cursor's state carrying `id` and adds
                // nothing but `id` anywhere
                let marked = pre_mark[cursor as int].seeds@;
                if !marked.contains(id) {
                    assert(self.states@[cursor as int].seeds@ == marked.push(id));
                    assert(self.states@[cursor as int].seeds@[marked.len() as int] == id);
                }
                assert(self.states@[cursor as int].seeds@.contains(id));
                assert forall|k: int, x: u32|
                    0 <= k < old(self).states@.len() && old(self).states@[k].seeds@.contains(x)
                        implies (#[trigger] self.states@[k].seeds@.contains(x)) by {
                    assert(pre_mark[k].seeds@.contains(x));
                    if k == cursor as int && !marked.contains(id) {
                        let w = choose|w: int| 0 <= w < marked.len() && marked[w] == x;
                        assert(self.states@[k].seeds@[w] == x);
                    }
                }
                assert forall|k: int, x: u32|
                    0 <= k < self.states@.len() && (#[trigger] self.states@[k].seeds@.contains(
                        x,
                    )) implies ((k < old(self).states@.len()
                    && old(self).states@[k].seeds@.contains(x)) || x == id) by {
                    if k == cursor as int && !marked.contains(x) {
                        let w = choose|w: int|
                            0 <= w < self.states@[k].seeds@.len() && self.states@[k].seeds@[w]
                                == x;
                        if w < marked.len() {
                            assert(marked[w] == x);
                        }
                    }
                }
            }
            i += 1;
        }
        proof {
            assert(s@.take(n as int) =~= s@);
        }
    }
}

/// Does the suffix-link chain out of `j` pass through `i`? `fuel` bounds the
/// walk; any fuel of at least `len(j)` gives the full chain.
pub open spec fn anc(s: Seq<State>, i: int, j: int, fuel: nat) -> bool
    decreases fuel,
{
    if i == j {
        true
    } else if j == 0 || fuel == 0 {
        false
    } else {
        anc(s, i, s[j].link as int, (fuel - 1) as nat)
    }
}

/// `i` lies on the suffix-link chain from `j` to the root, ends included.
pub open spec fn is_ancestor(s: Seq<State>, i: int, j: int) -> bool {
    anc(s, i, j, s[j].len as nat)
}

/// Any fuel of at least `len(j)` decides `anc` the same way.
pub proof fn lemma_anc_fuel(s: Seq<State>, i: int, j: int, f1: nat, f2: nat)
    requires
        wf_states(s),
        0 <= j < s.len(),
        s[j].len <= f1,
        s[j].len <= f2,
    ensures
        anc(s, i, j, f1) == anc(s, i, j, f2),
    decreases f1 + f2,
{
    if i == j {
    } else if j == 0 {
    } else {
        assert(state_ok(s, j));
        lemma_anc_fuel(s, i, s[j].link as int, (f1 - 1) as nat, (f2 - 1) as nat);
    }
}

/// Chains are closed under the suffix link: whatever chain passes through
/// `i` also passes through `link(i)`.
pub proof fn lemma_ancestor_link(s: Seq<State>, i: int, j: int)
    requires
        wf_states(s),
        0 <= i < s.len(),
        i != 0,
        0 <= j < s.len(),
        is_ancestor(s, i, j),
    ensures
        is_ancestor(s, s[i].link as int, j),
    decreases s[j].len,
{
    assert(state_ok(s, i));
    assert(state_ok(s, j));
    let l = s[i].link as int;
    if i == j {
        assert(s[l].len < s[i].len);
        assert(anc(s, l, l, (s[j].len - 1) as nat));
    } else {
        assert(j != 0);
        let jl = s[j].link as int;
        assert(anc(s, i, jl, (s[j].len - 1) as nat));
        lemma_anc_fuel(s, i, jl, (s[j].len - 1) as nat, s[jl].len as nat);
        lemma_ancestor_link(s, i, jl);
        if l == j {
        } else {
            lemma_anc_fuel(s, l, jl, s[jl].len as nat, (s[j].len - 1) as nat);
        }
    }
}

/// Fold the ids of `xs` into `acc`, keeping first occurrences only.
pub open spec fn add_new(acc: Seq<u32>, xs: Seq<u32>) -> Seq<u32>
    decreases xs.len(),
{
    if xs.len() == 0 {
        acc
    } else {
        add_new(
            if acc.contains(xs[0]) {
                acc
            } else {
                acc.push(xs[0])
            },
            xs.drop_first(),
        )
    }
}

/// The provenance list of state `i`, folded over the seed lists of the
/// first `j` states whose chains pass through `i`, in arena order.
pub open spec fn origins_upto(s: Seq<State>, i: int, j: int) -> Seq<u32>
    decreases j,
{
    if j <= 0 {
        Seq::empty()
    } else {
        let prev = origins_upto(s, i, j - 1);
        if is_ancestor(s, i, j - 1) {
            add_new(prev, s[j - 1].seeds@)
        } else {
            prev
        }
    }
}

/// The provenance list `collect` assigns to state `i`.
pub open spec fn origins_of(s: Seq<State>, i: int) -> Seq<u32> {
    origins_upto(s, i, s.len() as int)
}

/// What `add_new` holds: the old ids and the new ones, nothing else.
pub proof fn lemma_add_new_contains(acc: Seq<u32>, xs: Seq<u32>, y: u32)
    ensures
        add_new(acc, xs).contains(y) <==> (acc.contains(y) || xs.contains(y)),
    decreases xs.len(),
{
    if xs.len() == 0 {
    } else {
        let acc2 = if acc.contains(xs[0]) {
            acc
        } else {
            acc.push(xs[0])
        };
        lemma_add_new_contains(acc2, xs.drop_first(), y);
        assert(xs.contains(y) <==> (xs[0] == y || xs.drop_first().contains(y))) by {
            if xs.contains(y) {
                let w = choose|w: int| 0 <= w < xs.len() && xs[w] == y;
                if w != 0 {
                    assert(xs.drop_first()[w - 1] == y);
                }
            }
            if xs.drop_first().contains(y) {
                let w = choose|w: int| 0 <= w < xs.drop_first().len() && xs.drop_first()[w] == y;
                assert(xs[w + 1] == y);
            }
        }
        if !acc.contains(xs[0]) {
            assert(acc2.contains(y) <==> (acc.contains(y) || xs[0] == y)) by {
                if acc2.contains(y) {
                    let w = choose|w: int| 0 <= w < acc2.len() && acc2[w] == y;
                    if w < acc.len() {
                        assert(acc[w] == y);
                    }
                }
                if acc.contains(y) {
                    let w = choose|w: int| 0 <= w < acc.len() && acc[w] == y;
                    assert(acc2[w] == y);
                }
                assert(acc2[acc.len() as int] == xs[0]);
            }
        }
    }
}

/// What the provenance list of `i` holds: exactly the ids seeded in states
/// whose chains pass through `i`.
pub proof fn lemma_origins_contains(s: Seq<State>, i: int, j: int, y: u32)
    requires
        0 <= j <= s.len(),
    ensures
        origins_upto(s, i, j).contains(y) <==> (exists|m: int|
            0 <= m < j && is_ancestor(s, i, m) && (#[trigger] s[m].seeds@).contains(y)),
    decreases j,
{
    if j > 0 {
        lemma_origins_contains(s, i, j - 1, y);
        if is_ancestor(s, i, j - 1) {
            lemma_add_new_contains(origins_upto(s, i, j - 1), s[j - 1].seeds@, y);
        }
    }
}

/// Two arenas of the same shape: equal lengths, links and seeds everywhere.
pub open spec fn same_shape(a: Seq<State>, b: Seq<State>) -> bool {
    &&& a.len() == b.len()
    &&& forall|k: int|
        0 <= k < a.len() ==> (#[trigger] b[k]).len == a[k].len && b[k].link == a[k].link && b[k].seeds@
            == a[k].seeds@
}

/// Chains only read links, so equal shapes walk the same chains.
pub proof fn lemma_anc_congruent(a: Seq<State>, b: Seq<State>, i: int, j: int, fuel: nat)
    requires
        wf_states(a),
        same_shape(a, b),
        0 <= j < a.len(),
    ensures
        anc(a, i, j, fuel) == anc(b, i, j, fuel),
    decreases fuel,
{
    if i == j || j == 0 || fuel == 0 {
    } else {
        assert(state_ok(a, j));
        lemma_anc_congruent(a, b, i, a[j].link as int, (fuel - 1) as nat);
    }
}

/// Provenance only reads shape, so equal shapes yield equal provenance.
pub proof fn lemma_origins_congruent(a: Seq<State>, b: Seq<State>, i: int, j: int)
    requires
        wf_states(a),
        same_shape(a, b),
        0 <= j <= a.len(),
    ensures
        origins_upto(a, i, j) == origins_upto(b, i, j),
    decreases j,
{
    if j > 0 {
        lemma_origins_congruent(a, b, i, j - 1);
        lemma_anc_congruent(a, b, i, j - 1, a[j - 1].len as nat);
    }
}

/// `true` exactly when `v` holds `id`.
fn contains_u32(v: &Vec<u32>, id: u32) -> (r: bool)
    ensures
        r == v@.contains(id),
{
    let n = v.len();
    let mut j: usize = 0;
    while j < n
        invariant
            0 <= j <= n,
            n == v@.len(),
            forall|m: int| 0 <= m < j ==> v@[m] != id,
        decreases n - j,
    {
        if v[j] == id {
            return true;
        }
        j += 1;
    }
    false
}

impl SAMPool {
    /// Walk the suffix links from `j` looking for `i`.
    #[verifier::loop_isolation(false)]
    fn is_anc(&self, i: usize, j: usize) -> (r: bool)
        requires
            self.wf(),
            i < self.states@.len(),
            j < self.states@.len(),
        ensures
            r == is_ancestor(self.states@, i as int, j as int),
    {
        let ghost s = self.states@;
        let mut p = j;
        loop
            invariant
                p < self.states@.len(),
                is_ancestor(s, i as int, j as int) == anc(s, i as int, p as int, s[p as int].len as nat),
            decreases s[p as int].len,
        {
            if p == i {
                return true;
            }
            if p == 0 {
                return false;
            }
            proof {
                assert(state_ok(s, p as int));
                lemma_anc_fuel(
                    s,
                    i as int,
                    s[p as int].link as int,
                    (s[p as int].len - 1) as nat,
                    s[s[p as int].link as int].len as nat,
                );
            }
            p = self.states[p].link;
        }
    }

    /// Compute the provenance list of state `i` from the seeds.
    #[verifier::loop_isolation(false)]
    fn origins_for(&self, i: usize) -> (r: Vec<u32>)
        requires
            self.wf(),
            i < self.states@.len(),
        ensures
            r@ == origins_of(self.states@, i as int),
    {
        let ghost s = self.states@;
        let n = self.states.len();
        let mut acc: Vec<u32> = Vec::new();
        let mut j: usize = 0;
        while j < n
            invariant
                0 <= j <= n,
                acc@ == origins_upto(s, i as int, j as int),
            decreases n - j,
        {
            if self.is_anc(i, j) {
                let ghost base = acc@;
                proof {
                    assert(s[j as int].seeds@.skip(0) =~= s[j as int].seeds@);
                }
                let m = self.states[j].seeds.len();
                let mut k: usize = 0;
                while k < m
                    invariant
                        0 <= k <= m,
                        m == s[j as int].seeds@.len(),
                        add_new(base, s[j as int].seeds@) == add_new(
                            acc@,
                            s[j as int].seeds@.skip(k as int),
                        ),
                    decreases m - k,
                {
                    let id = self.states[j].seeds[k];
                    let ghost before = acc@;
                    if !contains_u32(&acc, id) {
                        acc.push(id);
                    }
                    proof {
                        let xs = s[j as int].seeds@;
                        assert(xs.skip(k as int)[0] == xs[k as int]);
                        assert(xs.skip(k as int).drop_first() =~= xs.skip(k as int + 1));
                        assert(add_new(before, xs.skip(k as int)) == add_new(
                            acc@,
                            xs.skip(k as int + 1),
                        ));
                    }
                    k += 1;
                }
                proof {
                    let xs = s[j as int].seeds@;
                    assert(xs.skip(m as int) =~= Seq::<u32>::empty());
                    assert(add_new(acc@, xs.skip(m as int)) == acc@);
                }
            }
            j += 1;
        }
        acc
    }

    /// Fill in the provenance annotations after all insertions.
    ///
    /// Every state receives exactly the ids seeded in the states whose
    /// suffix-link chain passes through it: the union, over its descendants
    /// in the suffix-link tree, of their seeds. The computation reads only
    /// lengths, links and seeds, and overwrites the previous annotations,
    /// so running it again changes nothing.
    #[verifier::loop_isolation(false)]
    pub fn collect(&mut self)
        requires
            old(self).wf(),
        ensures
            final(self).wf(),
            collected_from(old(self).states@, final(self).states@),
            same_shape(old(self).states@, final(self).states@),
            final(self).states@.len() == old(self).states@.len(),
            forall|k: int|
                0 <= k < old(self).states@.len() ==> (#[trigger] final(self).states@[k]).next@
                    == old(self).states@[k].next@,
            forall|k: int|
                0 <= k < old(self).states@.len() ==> (#[trigger] final(self).states@[k]).origins@
                    == origins_of(old(self).states@, k),
            forall|k: int, id: u32|
                0 <= k < old(self).states@.len()
                    ==> (#[trigger] final(self).states@[k].origins@.contains(id)
                    <==> exists|m: int|
                    0 <= m < old(self).states@.len() && is_ancestor(old(self).states@, k, m) && (
                    #[trigger] old(self).states@[m].seeds@).contains(id)),
            final(self).last == old(self).last,
            final(self).total_len == old(self).total_len,
            final(self).clones == old(self).clones,
            old(self).counted() ==> final(self).counted(),
    {
        let ghost s0 = self.states@;
        let n = self.states.len();
        let mut i: usize = 0;
        while i < n
            invariant
                self.wf(),
                0 <= i <= n,
                n == self.states@.len(),
                same_shape(s0, self.states@),
                forall|k: int|
                    0 <= k < n ==> (#[trigger] self.states@[k]).next@ == s0[k].next@,
                forall|k: int|
                    0 <= k < i ==> (#[trigger] self.states@[k]).origins@ == origins_of(s0, k),
                self.last == old(self).last,
                self.total_len == old(self).total_len,
                self.clones == old(self).clones,
            decreases n - i,
        {
            let acc = self.origins_for(i);
            proof {
                lemma_origins_congruent(self.states@, s0, i as int, s0.len() as int);
            }
            let ghost pre = self.states@;
            self.states[i].origins = acc;
            proof {
                lemma_wf_same_structure(pre, self.states@);
            }
            i += 1;
        }
        proof {
            assert forall|k: int, id: u32|
                0 <= k < s0.len() implies (#[trigger] self.states@[k].origins@.contains(id)
                <==> exists|m: int|
                0 <= m < s0.len() && is_ancestor(s0, k, m) && (
                #[trigger] s0[m].seeds@).contains(id)) by {
                lemma_origins_contains(s0, k, s0.len() as int, id);
            }
        }
    }
}

/// Where the walk that spells `w` from state `p` ends, if it exists.
pub open spec fn run_from(s: Seq<State>, p: int, w: Seq<u8>) -> Option<int>
    decreases w.len(),
{
    if w.len() == 0 {
        Some(p)
    } else {
        match lookup(s[p].next@, w[0]) {
            None => None,
            Some(t) => run_from(s, t as int, w.drop_first()),
        }
    }
}

impl SAMPool {
    /// Follow the transitions that spell `w` from the root; the automaton
    /// recognizes `w` exactly when the whole walk exists.
    #[verifier::loop_isolation(false)]
    pub fn run(&self, w: &[u8]) -> (r: Option<usize>)
        requires
            self.wf(),
        ensures
            match r {
                Some(t) => run_from(self.states@, 0, w@) == Some(t as int) && t
                    < self.states@.len(),
                None => run_from(self.states@, 0, w@) is None,
            },
    {
        let ghost s = self.states@;
        proof {
            assert(w@.skip(0) =~= w@);
        }
        let n = w.len();
        let mut p: usize = 0;
        let mut i: usize = 0;
        while i < n
            invariant
                0 <= i <= n,
                n == w@.len(),
                p < self.states@.len(),
                run_from(s, 0, w@) == run_from(s, p as int, w@.skip(i as int)),
            decreases n - i,
        {
            proof {
                assert(w@.skip(i as int)[0] == w@[i as int]);
                assert(w@.skip(i as int).drop_first() =~= w@.skip(i as int + 1));
            }
            match self.trans_target(p, w[i]) {
                None => {
                    return None;
                },
                Some(t) => {
                    proof {
                        lemma_lookup_some(s[p as int].next@, w@[i as int], 0, t);
                        assert(state_ok(s, p as int));
                    }
                    p = t;
                },
            }
            i += 1;
        }
        proof {
            assert(w@.skip(n as int) =~= Seq::<u8>::empty());
        }
        Some(p)
    }

    /// Does the automaton accept `w`?
    pub fn accepts(&self, w: &[u8]) -> (r: bool)
        requires
            self.wf(),
        ensures
            r == (run_from(self.states@, 0, w@) is Some),
    {
        match self.run(w) {
            Some(_) => true,
            None => false,
        }
    }
}

/// With distinct keys, a successful lookup names the only entry there is.
pub proof fn lemma_lookup_unique(next: Seq<(u8, usize)>, c: u8, t: usize, m: int)
    requires
        keys_unique(next),
        lookup(next, c) == Some(t),
        0 <= m < next.len(),
        next[m].0 == c,
    ensures
        next[m] == (c, t),
{
    lemma_lookup_some(next, c, 0, t);
    let m2 = choose|m2: int| 0 <= m2 < next.len() && next[m2] == (c, t);
    if m != m2 {
        assert(next[m].0 == next[m2].0);
    }
}

/// Appending an entry for an absent key makes lookup find it.
pub proof fn lemma_lookup_push_absent(next: Seq<(u8, usize)>, c: u8, t: usize, j: int)
    requires
        0 <= j <= next.len(),
        lookup_from(next, c, j) == None::<usize>,
    ensures
        lookup_from(next.push((c, t)), c, j) == Some(t),
    decreases next.len() - j,
{
    let nn = next.push((c, t));
    if j < next.len() {
        lemma_lookup_push_absent(next, c, t, j + 1);
    }
}

/// Appending an entry leaves every successful lookup as it was.
pub proof fn lemma_lookup_push_keeps(next: Seq<(u8, usize)>, e: (u8, usize), k: u8, t: usize, j: int)
    requires
        0 <= j,
        lookup_from(next, k, j) == Some(t),
    ensures
        lookup_from(next.push(e), k, j) == Some(t),
    decreases next.len() - j,
{
    if j < next.len() && next[j].0 != k {
        lemma_lookup_push_keeps(next, e, k, t, j + 1);
    }
}

/// Retargeting the entries `(c, q)` to `(c, cl)` moves a lookup from `q`
/// to `cl` and no further.
pub proof fn lemma_lookup_pointwise(
    an: Seq<(u8, usize)>,
    bn: Seq<(u8, usize)>,
    c: u8,
    q: usize,
    cl: usize,
    k: u8,
    j: int,
)
    requires
        bn.len() == an.len(),
        forall|m: int|
            0 <= m < an.len() ==> ((#[trigger] bn[m]) == an[m] || (an[m] == (c, q) && bn[m] == (
                c,
                cl,
            ))),
        0 <= j,
    ensures
        lookup_from(bn, k, j) == lookup_from(an, k, j) || (lookup_from(an, k, j) == Some(q)
            && lookup_from(bn, k, j) == Some(cl)),
    decreases an.len() - j,
{
    if j < an.len() {
        assert(bn[j].0 == an[j].0);
        if an[j].0 != k {
            lemma_lookup_pointwise(an, bn, c, q, cl, k, j + 1);
        }
    }
}

/// After every entry on `c` was retargeted to `cl`, a lookup on `c` that
/// used to succeed now yields `cl`.
pub proof fn lemma_lookup_all_retargeted(
    an: Seq<(u8, usize)>,
    bn: Seq<(u8, usize)>,
    c: u8,
    cl: usize,
    t: usize,
    j: int,
)
    requires
        bn.len() == an.len(),
        forall|m: int|
            0 <= m < an.len() ==> ((#[trigger] bn[m]) == (if an[m].0 == c {
                (c, cl)
            } else {
                an[m]
            })),
        0 <= j,
        lookup_from(an, c, j) == Some(t),
    ensures
        lookup_from(bn, c, j) == Some(cl),
    decreases an.len() - j,
{
    if j < an.len() && an[j].0 != c {
        lemma_lookup_all_retargeted(an, bn, c, cl, t, j + 1);
    }
}

/// A walk over one more symbol: run the word, then take one transition.
pub proof fn lemma_run_push(s: Seq<State>, z: int, w: Seq<u8>, c: u8)
    ensures
        run_from(s, z, w.push(c)) == (match run_from(s, z, w) {
            Some(r) => (match lookup(s[r].next@, c) {
                Some(t) => Some(t as int),
                None => None::<int>,
            }),
            None => None::<int>,
        }),
    decreases w.len(),
{
    if w.len() == 0 {
        assert(w.push(c)[0] == c);
        assert(w.push(c).drop_first() =~= Seq::<u8>::empty());
        match lookup(s[z].next@, c) {
            Some(t) => {
                assert(run_from(s, t as int, Seq::<u8>::empty()) == Some(t as int));
                assert(run_from(s, z, w.push(c)) == Some(t as int));
            },
            None => {
                assert(run_from(s, z, w.push(c)) is None);
            },
        }
    } else {
        assert(w.push(c)[0] == w[0]);
        assert(w.push(c).drop_first() =~= w.drop_first().push(c));
        match lookup(s[z].next@, w[0]) {
            Some(t) => {
                lemma_run_push(s, t as int, w.drop_first(), c);
                assert(run_from(s, z, w) == run_from(s, t as int, w.drop_first()));
                assert(run_from(s, z, w.push(c)) == run_from(
                    s,
                    t as int,
                    w.drop_first().push(c),
                ));
            },
            None => {
                assert(run_from(s, z, w) is None);
                assert(run_from(s, z, w.push(c)) is None);
            },
        }
    }
}

/// A walk only reads transition lists, so an arena that keeps them — and
/// possibly grows at the end — walks the same paths.
pub proof fn lemma_run_same_next(a: Seq<State>, b: Seq<State>, z: int, w: Seq<u8>)
    requires
        wf_states(a),
        0 <= z < a.len(),
        a.len() <= b.len(),
        forall|x: int| 0 <= x < a.len() ==> (#[trigger] b[x]).next@ == a[x].next@,
    ensures
        run_from(a, z, w) is Some ==> run_from(b, z, w) == run_from(a, z, w),
    decreases w.len(),
{
    if w.len() > 0 && run_from(a, z, w) is Some {
        let t = lookup(a[z].next@, w[0]).unwrap();
        lemma_lookup_some(a[z].next@, w[0], 0, t);
        assert(state_ok(a, z));
        lemma_run_same_next(a, b, t as int, w.drop_first());
    }
}

/// Adding a transition on an absent key breaks no existing walk.
pub proof fn lemma_run_add_edge(
    a: Seq<State>,
    b: Seq<State>,
    x0: int,
    c: u8,
    t: usize,
    z: int,
    w: Seq<u8>,
)
    requires
        wf_states(a),
        0 <= z < a.len(),
        0 <= x0 < a.len(),
        b.len() == a.len(),
        forall|x: int| 0 <= x < a.len() && x != x0 ==> (#[trigger] b[x]).next@ == a[x].next@,
        b[x0].next@ == a[x0].next@.push((c, t)),
        lookup(a[x0].next@, c) == None::<usize>,
    ensures
        run_from(a, z, w) is Some ==> run_from(b, z, w) == run_from(a, z, w),
    decreases w.len(),
{
    if w.len() > 0 && run_from(a, z, w) is Some {
        let u = lookup(a[z].next@, w[0]).unwrap();
        lemma_lookup_some(a[z].next@, w[0], 0, u);
        assert(state_ok(a, z));
        if z == x0 {
            lemma_lookup_push_keeps(a[z].next@, (c, t), w[0], u, 0);
        }
        lemma_run_add_edge(a, b, x0, c, t, u as int, w.drop_first());
    }
}

/// Walks survive a split: after the clone is appended, with the transition
/// lists it copied from `q`, and some entries on `c` are re-aimed from `q`
/// at the clone, every walk that succeeded ends where it did — or at the
/// clone, where it used to end at `q`.
pub proof fn lemma_run_retarget(
    a: Seq<State>,
    b: Seq<State>,
    c: u8,
    q: int,
    cl: int,
    z: int,
    z2: int,
    w: Seq<u8>,
)
    requires
        wf_states(a),
        a.len() <= usize::MAX,
        0 <= q < a.len(),
        0 <= z < a.len(),
        cl == a.len(),
        b.len() == a.len() + 1,
        forall|x: int| 0 <= x < a.len() ==> (#[trigger] b[x]).next@.len() == a[x].next@.len(),
        forall|x: int, j: int|
            0 <= x < a.len() && 0 <= j < a[x].next@.len() ==> ((#[trigger] b[x].next@[j])
                == a[x].next@[j] || (a[x].next@[j] == (c, q as usize) && b[x].next@[j] == (
                c,
                cl as usize,
            ))),
        b[cl].next@ == a[q].next@,
        z2 == z || (z == q && z2 == cl),
    ensures
        run_from(a, z, w) is Some ==> (run_from(b, z2, w) == run_from(a, z, w) || (run_from(
            a,
            z,
            w,
        ) == Some(q) && run_from(b, z2, w) == Some(cl))),
    decreases w.len(),
{
    if w.len() > 0 && run_from(a, z, w) is Some {
        let t = lookup(a[z].next@, w[0]).unwrap();
        lemma_lookup_some(a[z].next@, w[0], 0, t);
        assert(state_ok(a, z));
        let m = choose|m: int| 0 <= m < a[z].next@.len() && a[z].next@[m] == (w[0], t);
        assert(a[z].next@[m].1 < a.len());
        assert(t < a.len());
        assert(run_from(a, z, w) == run_from(a, t as int, w.drop_first()));
        if z2 == cl && z == q {
            assert(b[z2].next@ == a[z].next@);
            assert(lookup(b[z2].next@, w[0]) == Some(t));
            assert(run_from(b, z2, w) == run_from(b, t as int, w.drop_first()));
            lemma_run_retarget(a, b, c, q, cl, t as int, t as int, w.drop_first());
        } else {
            lemma_lookup_pointwise(a[z].next@, b[z].next@, c, q as usize, cl as usize, w[0], 0);
            let lb = lookup(b[z2].next@, w[0]);
            assert(lb == Some(t) || (t == q && lb == Some(cl as usize)));
            if lb == Some(cl as usize) && t == q {
                lemma_run_retarget(a, b, c, q, cl, t as int, cl, w.drop_first());
            } else {
                lemma_run_retarget(a, b, c, q, cl, t as int, t as int, w.drop_first());
            }
        }
    }
}

/// Every suffix-link chain ends at the root.
pub proof fn lemma_root_reachable(s: Seq<State>, i: int)
    requires
        wf_states(s),
        0 <= i < s.len(),
    ensures
        is_ancestor(s, 0, i),
    decreases s[i].len,
{
    if i != 0 {
        assert(state_ok(s, i));
        lemma_root_reachable(s, s[i].link as int);
        lemma_anc_fuel(
            s,
            0,
            s[i].link as int,
            s[s[i].link as int].len as nat,
            (s[i].len - 1) as nat,
        );
    }
}

/// The size bound and the shape of the suffix-link graph: the arena stays
/// linear in the total inserted length, and the links of the non-root
/// states, each strictly shortening, form a tree rooted at the root state.
pub proof fn lemma_size_and_link_tree(pool: SAMPool)
    requires
        pool.wf(),
        pool.counted(),
    ensures
        pool.states@.len() <= 1 + 2 * pool.total_len,
        forall|i: int|
            1 <= i < pool.states@.len() ==> pool.states@[(#[trigger] pool.states@[i]).link as int].len
                < pool.states@[i].len,
        forall|i: int| 0 <= i < pool.states@.len() ==> #[trigger] is_ancestor(pool.states@, 0, i),
{
    assert forall|i: int| 0 <= i < pool.states@.len() implies #[trigger] is_ancestor(
        pool.states@,
        0,
        i,
    ) by {
        lemma_root_reachable(pool.states@, i);
    }
    assert forall|i: int|
        1 <= i < pool.states@.len() implies pool.states@[(#[trigger] pool.states@[i]).link as int].len
        < pool.states@[i].len by {
        assert(state_ok(pool.states@, i));
    }
}

/// The relation `collect` establishes between the arena before and after.
pub open spec fn collected_from(pre: Seq<State>, post: Seq<State>) -> bool {
    &&& same_shape(pre, post)
    &&& forall|k: int| 0 <= k < pre.len() ==> (#[trigger] post[k]).next@ == pre[k].next@
    &&& forall|k: int| 0 <= k < pre.len() ==> (#[trigger] post[k]).origins@ == origins_of(pre, k)
}

/// Collecting is idempotent: a second pass reproduces the first pass's
/// arena exactly, field for field.
pub proof fn lemma_collect_idempotent(a: Seq<State>, b: Seq<State>, c: Seq<State>)
    requires
        wf_states(a),
        collected_from(a, b),
        collected_from(b, c),
    ensures
        c.len() == b.len(),
        forall|k: int|
            0 <= k < b.len() ==> (#[trigger] c[k]).len == b[k].len && c[k].link == b[k].link
                && c[k].next@ == b[k].next@ && c[k].seeds@ == b[k].seeds@ && c[k].origins@
                == b[k].origins@,
{
    assert forall|k: int|
        0 <= k < b.len() implies (#[trigger] c[k]).len == b[k].len && c[k].link == b[k].link
        && c[k].next@ == b[k].next@ && c[k].seeds@ == b[k].seeds@ && c[k].origins@
        == b[k].origins@ by {
        lemma_origins_congruent(a, b, k, a.len() as int);
    }
}

/// After `collect`, provenance only grows towards the root: whatever id a
/// state carries, its suffix-link target carries too.
pub proof fn lemma_origins_monotone(pre: Seq<State>, post: Seq<State>, i: int, id: u32)
    requires
        wf_states(pre),
        collected_from(pre, post),
        1 <= i < pre.len(),
        post[i].origins@.contains(id),
    ensures
        post[pre[i].link as int].origins@.contains(id),
{
    assert(state_ok(pre, i));
    lemma_origins_contains(pre, i, pre.len() as int, id);
    let m = choose|m: int|
        0 <= m < pre.len() && is_ancestor(pre, i, m) && (#[trigger] pre[m].seeds@).contains(id);
    lemma_ancestor_link(pre, i, m);
    lemma_origins_contains(pre, pre[i].link as int, pre.len() as int, id);
}

impl Default for SAMPool {
    fn default() -> (r: Self)
        ensures
            r.wf(),
            r.counted(),
            r.states@.len() == 1,
            r.last == 0,
            r.total_len == 0,
            r.clones == 0,
    {
        SAMPool::new()
    }
}

} // verus!
