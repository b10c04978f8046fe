use crate::automaton::SAMPool;
use crate::automaton::State;
use vstd::prelude::*;

verus! {

/// The text `digraph {\n` as bytes.
pub open spec fn lit_header() -> Seq<u8> {
    seq![100u8, 105u8, 103u8, 114u8, 97u8, 112u8, 104u8, 32u8, 123u8, 10u8]
}

fn push_header(out: &mut Vec<u8>)
    ensures
        final(out)@ == old(out)@ + lit_header(),
{
    out.push(100u8);
    out.push(105u8);
    out.push(103u8);
    out.push(114u8);
    out.push(97u8);
    out.push(112u8);
    out.push(104u8);
    out.push(32u8);
    out.push(123u8);
    out.push(10u8);
    proof {
        assert(out@ =~= old(out)@ + lit_header());
    }
}

/// The text `}\n` as bytes.
pub open spec fn lit_footer() -> Seq<u8> {
    seq![125u8, 10u8]
}

fn push_footer(out: &mut Vec<u8>)
    ensures
        final(out)@ == old(out)@ + lit_footer(),
{
    out.push(125u8);
    out.push(10u8);
    proof {
        assert(out@ =~= old(out)@ + lit_footer());
    }
}

/// The text `n` as bytes.
pub open spec fn lit_node_pre() -> Seq<u8> {
    seq![110u8]
}

fn push_node_pre(out: &mut Vec<u8>)
    ensures
        final(out)@ == old(out)@ + lit_node_pre(),
{
    out.push(110u8);
    proof {
        assert(out@ =~= old(out)@ + lit_node_pre());
    }
}

/// The text ` [label="len=` as bytes.
pub open spec fn lit_label_len() -> Seq<u8> {
    seq![32u8, 91u8, 108u8, 97u8, 98u8, 101u8, 108u8, 61u8, 34u8, 108u8, 101u8, 110u8, 61u8]
}

fn push_label_len(out: &mut Vec<u8>)
    ensures
        final(out)@ == old(out)@ + lit_label_len(),
{
    out.push(32u8);
    out.push(91u8);
    out.push(108u8);
    out.push(97u8);
    out.push(98u8);
    out.push(101u8);
    out.push(108u8);
    out.push(61u8);
    out.push(34u8);
    out.push(108u8);
    out.push(101u8);
    out.push(110u8);
    out.push(61u8);
    proof {
        assert(out@ =~= old(out)@ + lit_label_len());
    }
}

/// The text ` ids=` as bytes.
pub open spec fn lit_ids_pre() -> Seq<u8> {
    seq![32u8, 105u8, 100u8, 115u8, 61u8]
}

fn push_ids_pre(out: &mut Vec<u8>)
    ensures
        final(out)@ == old(out)@ + lit_ids_pre(),
{
    out.push(32u8);
    out.push(105u8);
    out.push(100u8);
    out.push(115u8);
    out.push(61u8);
    proof {
        assert(out@ =~= old(out)@ + lit_ids_pre());
    }
}

/// The text `,` as bytes.
pub open spec fn lit_comma() -> Seq<u8> {
    seq![44u8]
}

fn push_comma(out: &mut Vec<u8>)
    ensures
        final(out)@ == old(out)@ + lit_comma(),
{
    out.push(44u8);
    proof {
        assert(out@ =~= old(out)@ + lit_comma());
    }
}

/// The text `"];\n` as bytes.
pub open spec fn lit_close_attr() -> Seq<u8> {
    seq![34u8, 93u8, 59u8, 10u8]
}

fn push_close_attr(out: &mut Vec<u8>)
    ensures
        final(out)@ == old(out)@ + lit_close_attr(),
{
    out.push(34u8);
    out.push(93u8);
    out.push(59u8);
    out.push(10u8);
    proof {
        assert(out@ =~= old(out)@ + lit_close_attr());
    }
}

/// The text ` -> n` as bytes.
pub open spec fn lit_arrow() -> Seq<u8> {
    seq![32u8, 45u8, 62u8, 32u8, 110u8]
}

fn push_arrow(out: &mut Vec<u8>)
    ensures
        final(out)@ == old(out)@ + lit_arrow(),
{
    out.push(32u8);
    out.push(45u8);
    out.push(62u8);
    out.push(32u8);
    out.push(110u8);
    proof {
        assert(out@ =~= old(out)@ + lit_arrow());
    }
}

/// The text ` [label="` as bytes.
pub open spec fn lit_label_open() -> Seq<u8> {
    seq![32u8, 91u8, 108u8, 97u8, 98u8, 101u8, 108u8, 61u8, 34u8]
}

fn push_label_open(out: &mut Vec<u8>)
    ensures
        final(out)@ == old(out)@ + lit_label_open(),
{
    out.push(32u8);
    out.push(91u8);
    out.push(108u8);
    out.push(97u8);
    out.push(98u8);
    out.push(101u8);
    out.push(108u8);
    out.push(61u8);
    out.push(34u8);
    proof {
        assert(out@ =~= old(out)@ + lit_label_open());
    }
}

/// The text ` [style="dashed"];\n` as bytes.
pub open spec fn lit_dashed() -> Seq<u8> {
    seq![32u8, 91u8, 115u8, 116u8, 121u8, 108u8, 101u8, 61u8, 34u8, 100u8, 97u8, 115u8, 104u8, 101u8, 100u8, 34u8, 93u8, 59u8, 10u8]
}

fn push_dashed(out: &mut Vec<u8>)
    ensures
        final(out)@ == old(out)@ + lit_dashed(),
{
    out.push(32u8);
    out.push(91u8);
    out.push(115u8);
    out.push(116u8);
    out.push(121u8);
    out.push(108u8);
    out.push(101u8);
    out.push(61u8);
    out.push(34u8);
    out.push(100u8);
    out.push(97u8);
    out.push(115u8);
    out.push(104u8);
    out.push(101u8);
    out.push(100u8);
    out.push(34u8);
    out.push(93u8);
    out.push(59u8);
    out.push(10u8);
    proof {
        assert(out@ =~= old(out)@ + lit_dashed());
    }
}

/// The decimal digits of `n`, most significant first.
pub open spec fn dec_spec(n: nat) -> Seq<u8>
    decreases n,
{
    if n < 10 {
        seq![(48 + n) as u8]
    } else {
        dec_spec(n / 10).push((48 + n % 10) as u8)
    }
}

fn push_dec(out: &mut Vec<u8>, n: usize)
    ensures
        final(out)@ == old(out)@ + dec_spec(n as nat),
    decreases n,
{
    if n >= 10 {
        push_dec(out, n / 10);
    }
    out.push(48 + (n % 10) as u8);
    proof {
        if n < 10 {
            assert(out@ =~= old(out)@ + dec_spec(n as nat));
        } else {
            assert(out@ =~= old(out)@ + dec_spec(n as nat));
        }
    }
}

/// An uppercase hexadecimal digit.
pub open spec fn hexd(d: u8) -> u8 {
    if d < 10 {
        (48 + d) as u8
    } else {
        (55 + d) as u8
    }
}

/// A transition symbol as it appears inside a quoted label: quote and
/// backslash are escaped, other printable bytes stand as themselves, and
/// the rest are spelled out as a hexadecimal escape.
pub open spec fn esc_byte(c: u8) -> Seq<u8> {
    if c == 34 || c == 92 {
        seq![92u8, c]
    } else if 32 <= c && c <= 126 {
        seq![c]
    } else {
        seq![92u8, 120u8, hexd(c / 16), hexd(c % 16)]
    }
}

fn push_esc(out: &mut Vec<u8>, c: u8)
    ensures
        final(out)@ == old(out)@ + esc_byte(c),
{
    if c == 34 || c == 92 {
        out.push(92u8);
        out.push(c);
        proof {
            assert(out@ =~= old(out)@ + esc_byte(c));
        }
    } else if 32 <= c && c <= 126 {
        out.push(c);
        proof {
            assert(out@ =~= old(out)@ + esc_byte(c));
        }
    } else {
        out.push(92u8);
        out.push(120u8);
        let hi = c / 16;
        let lo = c % 16;
        out.push(if hi < 10 { 48 + hi } else { 55 + hi });
        out.push(if lo < 10 { 48 + lo } else { 55 + lo });
        proof {
            assert(out@ =~= old(out)@ + esc_byte(c));
        }
    }
}

/// The first `k` provenance ids, separated by commas.
pub open spec fn ids_upto(ids: Seq<u32>, k: int) -> Seq<u8>
    decreases k,
{
    if k <= 0 {
        Seq::empty()
    } else if k == 1 {
        dec_spec(ids[0] as nat)
    } else {
        ids_upto(ids, k - 1) + lit_comma() + dec_spec(ids[k - 1] as nat)
    }
}

/// The provenance part of a node label; empty when nothing was collected.
pub open spec fn ids_part(ids: Seq<u32>) -> Seq<u8> {
    if ids.len() == 0 {
        Seq::empty()
    } else {
        lit_ids_pre() + ids_upto(ids, ids.len() as int)
    }
}

/// The node statement for state `st` at index `i`: the index, the length
/// and the provenance ids inside a quoted label.
pub open spec fn node_line(st: State, i: int) -> Seq<u8> {
    lit_node_pre() + dec_spec(i as nat) + lit_label_len() + dec_spec(st.len as nat) + ids_part(
        st.origins@,
    ) + lit_close_attr()
}

/// The node statements of the first `i` states, in arena order.
pub open spec fn nodes_upto(s: Seq<State>, i: int) -> Seq<u8>
    decreases i,
{
    if i <= 0 {
        Seq::empty()
    } else {
        nodes_upto(s, i - 1) + node_line(s[i - 1], i - 1)
    }
}

/// The edge statement for the transition on `c` from state `i` to `t`.
pub open spec fn trans_line(i: int, c: u8, t: int) -> Seq<u8> {
    lit_node_pre() + dec_spec(i as nat) + lit_arrow() + dec_spec(t as nat) + lit_label_open()
        + esc_byte(c) + lit_close_attr()
}

/// The edge statements of the first `j` transitions out of state `i`.
pub open spec fn trans_upto(st: State, i: int, j: int) -> Seq<u8>
    decreases j,
{
    if j <= 0 {
        Seq::empty()
    } else {
        trans_upto(st, i, j - 1) + trans_line(i, st.next@[j - 1].0, st.next@[j - 1].1 as int)
    }
}

/// The dashed edge statement for the suffix link of state `i`.
pub open spec fn link_line(st: State, i: int) -> Seq<u8> {
    lit_node_pre() + dec_spec(i as nat) + lit_arrow() + dec_spec(st.link as nat) + lit_dashed()
}

/// All edge statements of state `i`: its transitions in creation order,
/// then, off the root, its suffix link.
pub open spec fn edge_block(st: State, i: int) -> Seq<u8> {
    trans_upto(st, i, st.next@.len() as int) + (if i == 0 {
        Seq::empty()
    } else {
        link_line(st, i)
    })
}

/// The edge statements of the first `i` states, in arena order.
pub open spec fn edges_upto(s: Seq<State>, i: int) -> Seq<u8>
    decreases i,
{
    if i <= 0 {
        Seq::empty()
    } else {
        edges_upto(s, i - 1) + edge_block(s[i - 1], i - 1)
    }
}

/// The whole textual graph description of an arena: a value of the arena
/// alone, so equal arenas always export to identical bytes.
pub open spec fn export_spec(s: Seq<State>) -> Seq<u8> {
    lit_header() + nodes_upto(s, s.len() as int) + edges_upto(s, s.len() as int) + lit_footer()
}

/// Emit the node statement of one state.
#[verifier::loop_isolation(false)]
fn push_node_line(out: &mut Vec<u8>, st: &State, i: usize)
    ensures
        final(out)@ == old(out)@ + node_line(*st, i as int),
{
    push_node_pre(out);
    push_dec(out, i);
    push_label_len(out);
    push_dec(out, st.len);
    let m = st.origins.len();
    if m > 0 {
        push_ids_pre(out);
        let ghost base = out@;
        let mut k: usize = 0;
        while k < m
            invariant
                1 <= k + 1 <= m + 1,
                k <= m,
                out@ == base + ids_upto(st.origins@, k as int),
            decreases m - k,
        {
            if k > 0 {
                push_comma(out);
            }
            let id = st.origins[k];
            push_dec(out, id as usize);
            proof {
                assert(dec_spec((id as usize) as nat) == dec_spec(st.origins@[k as int] as nat));
                assert(out@ =~= base + ids_upto(st.origins@, k as int + 1));
            }
            k += 1;
        }
    }
    push_close_attr(out);
    proof {
        assert(out@ =~= old(out)@ + node_line(*st, i as int));
    }
}

/// Emit the edge statements of one state.
#[verifier::loop_isolation(false)]
fn push_edge_block(out: &mut Vec<u8>, st: &State, i: usize)
    ensures
        final(out)@ == old(out)@ + edge_block(*st, i as int),
{
    let m = st.next.len();
    let mut j: usize = 0;
    while j < m
        invariant
            0 <= j <= m,
            out@ == old(out)@ + trans_upto(*st, i as int, j as int),
        decreases m - j,
    {
        let (c, t) = st.next[j];
        let ghost pre = out@;
        push_node_pre(out);
        push_dec(out, i);
        push_arrow(out);
        push_dec(out, t);
        push_label_open(out);
        push_esc(out, c);
        push_close_attr(out);
        proof {
            assert(st.next@[j as int] == (c, t));
            assert(out@ =~= pre + trans_line(i as int, c, t as int));
            assert(out@ =~= old(out)@ + trans_upto(*st, i as int, j as int + 1));
        }
        j += 1;
    }
    if i > 0 {
        let ghost pre = out@;
        push_node_pre(out);
        push_dec(out, i);
        push_arrow(out);
        push_dec(out, st.link);
        push_dashed(out);
        proof {
            assert(out@ =~= pre + link_line(*st, i as int));
        }
    }
    proof {
        assert(out@ =~= old(out)@ + edge_block(*st, i as int));
    }
}

impl SAMPool {
    /// Emit the graph description: one node statement per state, one
    /// labeled edge per transition and one dashed edge per non-root suffix
    /// link, everything in creation order. The bytes depend on the arena
    /// alone, so exporting the same automaton twice gives identical output.
    /// Exporting before `collect` is allowed and merely leaves every
    /// provenance annotation empty.
    #[verifier::loop_isolation(false)]
    pub fn generate_graph(&self) -> (r: Vec<u8>)
        ensures
            r@ == export_spec(self.states@),
    {
        let ghost s = self.states@;
        let n = self.states.len();
        let mut out: Vec<u8> = Vec::new();
        push_header(&mut out);
        let mut i: usize = 0;
        while i < n
            invariant
                0 <= i <= n,
                out@ == lit_header() + nodes_upto(s, i as int),
            decreases n - i,
        {
            let ghost pre = out@;
            push_node_line(&mut out, &self.states[i], i);
            proof {
                assert(out@ =~= lit_header() + nodes_upto(s, i as int + 1));
            }
            i += 1;
        }
        let ghost all_nodes = out@;
        let mut i: usize = 0;
        while i < n
            invariant
                0 <= i <= n,
                out@ == all_nodes + edges_upto(s, i as int),
            decreases n - i,
        {
            push_edge_block(&mut out, &self.states[i], i);
            proof {
                assert(out@ =~= all_nodes + edges_upto(s, i as int + 1));
            }
            i += 1;
        }
        push_footer(&mut out);
        proof {
            assert(out@ =~= export_spec(s));
        }
        out
    }
}

/// Exporting is deterministic: any two descriptions of the same arena —
/// each being what `generate_graph` promises of its result — are identical
/// byte for byte.
pub proof fn lemma_export_deterministic(s: Seq<State>, r1: Seq<u8>, r2: Seq<u8>)
    requires
        r1 == export_spec(s),
        r2 == export_spec(s),
    ensures
        r1 == r2,
{
}

} // verus!
