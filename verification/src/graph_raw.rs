use vstd::prelude::*;

use vstd::pervasive::VecAdditionalExecFns;

use crate::edge::{Edge, EdgeBoth, EdgeLoop};
use crate::nodes::{has_key, val_of, CleanupGen, GraphNode, MetaData, NodeCollection, NodeNamedMap, NodeOption, NodeTreeMap, NodeVec, RootCollection};

verus! {

/// Swaps the elements in positions `i` and `j` of a vector.
fn vec_swap<T>(v: &mut Vec<T>, i: usize, j: usize)
    requires
        i < old(v)@.len(),
        j < old(v)@.len(),
    ensures
        final(v)@ == old(v)@.update(i as int, old(v)@[j as int]).update(
            j as int,
            old(v)@[i as int],
        ),
{
    if i != j {
        let (lo, hi) = if i < j { (i, j) } else { (j, i) };
        let ghost orig = v@;
        let whole = v.as_mut_slice();
        let (left, right) = whole.split_at_mut(hi);
        let (left_lo, _) = left.split_at_mut(lo + 1);
        let x = left_lo.last_mut().unwrap();
        let y = right.first_mut().unwrap();
        core::mem::swap(x, y);
        proof {
            assert(v@ =~= orig.update(lo as int, orig[hi as int]).update(
                hi as int,
                orig[lo as int],
            ));
            assert(v@ =~= old(v)@.update(i as int, old(v)@[j as int]).update(
                j as int,
                old(v)@[i as int],
            ));
        }
    } else {
        proof {
            assert(v@ =~= old(v)@.update(i as int, old(v)@[j as int]).update(
                j as int,
                old(v)@[i as int],
            ));
        }
    }
}

/// The facts that `touch` needs about the arena it leaves behind: `s1` is `s0`
/// with the node at address `a` marked visited and swapped into slot `f`, and
/// everything the outside can observe — liveness, payloads, edges — is as it
/// was, while the visited prefix has grown by one.
proof fn lemma_touch_shape<N, C: NodeCollection>(
    s0: GraphRaw<N, C>,
    s1: GraphRaw<N, C>,
    f: usize,
    a: usize,
    slot_a: usize,
    addr_f: usize,
)
    requires
        s0.slots_wf(),
        s0.edges_wf(),
        s0.live(a),
        s0.mark_partition(f as int),
        slot_a == s0.slot_of(a),
        !s0.marked_at(slot_a as int),
        f < s0.data@.len(),
        addr_f == s0.data@[f as int].meta.addr,
        s1.cleanup_gen == s0.cleanup_gen,
        s1.data@.len() == s0.data@.len(),
        s1.lookup@.len() == s0.lookup@.len(),
        s1.data@[f as int].data == s0.data@[slot_a as int].data,
        s1.data@[f as int].refs == s0.data@[slot_a as int].refs,
        s1.data@[f as int].meta == (MetaData {
            cleanup_gen: s0.cleanup_gen,
            store_index: f,
            addr: a,
        }),
        slot_a != f ==> s1.data@[slot_a as int].data == s0.data@[f as int].data,
        slot_a != f ==> s1.data@[slot_a as int].refs == s0.data@[f as int].refs,
        slot_a != f ==> s1.data@[slot_a as int].meta == (MetaData {
            cleanup_gen: s0.data@[f as int].meta.cleanup_gen,
            store_index: slot_a,
            addr: addr_f,
        }),
        forall|i: int|
            0 <= i < s0.data@.len() && i != f && i != slot_a ==> s1.data@[i] == s0.data@[i],
        s1.lookup@[a as int] == Some(f),
        s1.lookup@[addr_f as int] == Some(slot_a),
        forall|b: int|
            0 <= b < s0.lookup@.len() && b != a && b != addr_f ==> s1.lookup@[b]
                == s0.lookup@[b],
    ensures
        s1.slots_wf(),
        s1.edges_wf(),
        forall|b: usize| #[trigger] s1.live(b) == s0.live(b),
        forall|b: usize|
            #![trigger s1.data_of(b)]
            #![trigger s1.edges_of(b)]
            s0.live(b) ==> s1.data_of(b) == s0.data_of(b) && s1.edges_of(b)
                == s0.edges_of(b),
        s1.mark_partition(f + 1),
        s1.addr_at(f as int) == a,
        forall|k: int| 0 <= k < f ==> s1.data@[k] == s0.data@[k],
        forall|b: usize|
            s0.live(b) ==> ((#[trigger] s1.marked(b)) <==> s0.marked(b) || b == a),
{
    assert(s0.lookup@[a as int] == Some(slot_a));
    assert(slot_a < s0.data@.len());
    assert(s0.data@[slot_a as int].meta.addr == a);
    assert(s0.lookup@[addr_f as int] == Some(f));
    assert(addr_f < s0.lookup@.len());
    assert(f <= slot_a);
    if slot_a == f {
        assert(a == addr_f);
    } else {
        assert(a != addr_f);
    }
    assert forall|b: usize| #[trigger] s1.live(b) == s0.live(b) by {
        if b == a || b == addr_f {
        } else if (b as int) < s0.lookup@.len() {
            assert(s1.lookup@[b as int] == s0.lookup@[b as int]);
        }
    }
    assert forall|b: usize|
        #![trigger s1.data_of(b)]
        #![trigger s1.edges_of(b)]
        s0.live(b) implies s1.data_of(b) == s0.data_of(b) && s1.edges_of(b)
        == s0.edges_of(b) by {
        if b == a {
            assert(s1.slot_of(b) == f as int);
        } else if b == addr_f {
            assert(s1.slot_of(b) == slot_a as int);
            assert(s0.slot_of(b) == f as int);
        } else {
            let i = s0.slot_of(b);
            assert(s0.lookup@[b as int] == Some(i as usize));
            assert(s0.data@[i].meta.addr == b);
            assert(i != f && i != slot_a);
            assert(s1.data@[i] == s0.data@[i]);
        }
    }
    assert forall|b: usize| s0.live(b) implies ((#[trigger] s1.marked(b)) <==> s0.marked(b) || b
        == a) by {
        if b == a {
            assert(s1.slot_of(b) == f as int);
            assert(s1.marked_at(f as int));
        } else if b == addr_f {
            assert(s1.slot_of(b) == slot_a as int);
            assert(!s0.marked_at(f as int));
            assert(!s1.marked_at(slot_a as int));
            assert(!s0.marked(b));
        } else {
            let i = s0.slot_of(b);
            assert(s0.data@[i].meta.addr == b);
            assert(i != f && i != slot_a);
            assert(s1.data@[i] == s0.data@[i]);
        }
    }
    assert(s1.slots_wf()) by {
        assert forall|i: int|
            0 <= i < s1.data@.len() implies (#[trigger] s1.data@[i]).meta.store_index == i by {
            if i == f as int || i == slot_a as int {
            } else {
                assert(s1.data@[i] == s0.data@[i]);
            }
        }
        assert forall|i: int|
            0 <= i < s1.data@.len() implies {
                let b = (#[trigger] s1.data@[i]).meta.addr;
                b < s1.lookup@.len() && s1.lookup@[b as int] == Some(i as usize)
            } by {
            if i == f as int {
            } else if i == slot_a as int {
            } else {
                assert(s1.data@[i] == s0.data@[i]);
                let b = s0.data@[i].meta.addr;
                assert(s0.lookup@[b as int] == Some(i as usize));
                assert(b != a && b != addr_f);
            }
        }
        assert forall|b: int|
            0 <= b < s1.lookup@.len() && (#[trigger] s1.lookup@[b]) is Some implies {
                let i = s1.lookup@[b]->0;
                i < s1.data@.len() && s1.data@[i as int].meta.addr == b
            } by {
            if b == a as int {
            } else if b == addr_f as int {
            } else {
                assert(s1.lookup@[b] == s0.lookup@[b]);
                let i = s0.lookup@[b]->0;
                assert(s0.data@[i as int].meta.addr == b);
                assert(i as int != f as int && i as int != slot_a as int);
                assert(s1.data@[i as int] == s0.data@[i as int]);
            }
        }
    }
    assert(s1.edges_wf()) by {
        assert forall|i: int|
            0 <= i < s1.data@.len() implies (#[trigger] s1.data@[i]).refs.well_formed() by {
            if i == f as int {
                assert(s0.data@[slot_a as int].refs.well_formed());
            } else if i == slot_a as int {
                assert(s0.data@[f as int].refs.well_formed());
            } else {
                assert(s1.data@[i] == s0.data@[i]);
            }
        }
        assert forall|i: int, k: int|
            0 <= i < s1.data@.len() && 0 <= k < (#[trigger] s1.data@[i]).refs.edge_seq().len()
            implies s1.live(#[trigger] s1.data@[i].refs.edge_seq()[k].0) by {
            let j: int = if i == f as int {
                slot_a as int
            } else if i == slot_a as int {
                f as int
            } else {
                i
            };
            assert(s1.data@[i].refs == s0.data@[j].refs);
            assert(s0.live(s0.data@[j].refs.edge_seq()[k].0));
        }
    }
    assert forall|k: int|
        0 <= k < s1.data@.len() implies ((#[trigger] s1.marked_at(k)) <==> k < f + 1) by {
        if k == f as int {
        } else if k == slot_a as int {
            assert(!s0.marked_at(f as int));
        } else {
            assert(s1.data@[k] == s0.data@[k]);
            assert(s0.marked_at(k) <==> k < f as int);
        }
    }
    assert forall|k: int| 0 <= k < f implies s1.data@[k] == s0.data@[k] by {
        assert(k != f as int && k != slot_a as int);
    }
}

/// One step of the mark phase, seen from the pre-sweep arena `g0`: if a
/// `touch` turns `pre` into `cur` and the one node it may newly mark is known
/// reachable, then liveness, payloads and edges still agree with `g0` and
/// every marked node is still reachable.
proof fn lemma_sweep_frame<N, C: NodeCollection>(
    g0: GraphRaw<N, C>,
    pre: GraphRaw<N, C>,
    cur: GraphRaw<N, C>,
    roots: Seq<usize>,
)
    requires
        forall|b: usize| #[trigger] pre.live(b) == g0.live(b),
        forall|b: usize|
            #![trigger pre.data_of(b)]
            #![trigger pre.edges_of(b)]
            g0.live(b) ==> pre.data_of(b) == g0.data_of(b) && pre.edges_of(b)
                == g0.edges_of(b),
        forall|b: usize| pre.live(b) && #[trigger] pre.marked(b) ==> g0.reachable(roots, b),
        forall|b: usize| #[trigger] cur.live(b) == pre.live(b),
        forall|b: usize|
            #![trigger cur.data_of(b)]
            #![trigger cur.edges_of(b)]
            pre.live(b) ==> cur.data_of(b) == pre.data_of(b) && cur.edges_of(b)
                == pre.edges_of(b),
        forall|b: usize|
            cur.live(b) && #[trigger] cur.marked(b) ==> pre.marked(b) || g0.reachable(roots, b),
    ensures
        forall|b: usize| #[trigger] cur.live(b) == g0.live(b),
        forall|b: usize|
            #![trigger cur.data_of(b)]
            #![trigger cur.edges_of(b)]
            g0.live(b) ==> cur.data_of(b) == g0.data_of(b) && cur.edges_of(b)
                == g0.edges_of(b),
        forall|b: usize| cur.live(b) && #[trigger] cur.marked(b) ==> g0.reachable(roots, b),
{
    assert forall|b: usize| #[trigger] cur.live(b) == g0.live(b) by {
        assert(cur.live(b) == pre.live(b));
        assert(pre.live(b) == g0.live(b));
    }
    assert forall|b: usize|
        #![trigger cur.data_of(b)]
        #![trigger cur.edges_of(b)]
        g0.live(b) implies cur.data_of(b) == g0.data_of(b) && cur.edges_of(b)
            == g0.edges_of(b) by {
        assert(pre.live(b) == g0.live(b));
        assert(pre.data_of(b) == g0.data_of(b) && pre.edges_of(b) == g0.edges_of(b));
        assert(cur.data_of(b) == pre.data_of(b) && cur.edges_of(b) == pre.edges_of(b));
    }
    assert forall|b: usize|
        cur.live(b) && #[trigger] cur.marked(b) implies g0.reachable(roots, b) by {
        assert(pre.live(b) == cur.live(b));
        if pre.marked(b) {
            assert(g0.reachable(roots, b));
        }
    }
}

/// The facts that `kill` needs about the arena it leaves behind: `s1` is `s0`
/// with the node at address `a` gone, the former last node moved into the
/// freed slot, and every other address untouched.
#[verifier::rlimit(100)]
#[verifier::spinoff_prover]
proof fn lemma_kill_shape<N, C: NodeCollection>(
    s0: GraphRaw<N, C>,
    s1: GraphRaw<N, C>,
    a: usize,
    slot: usize,
    last_addr: usize,
)
    requires
        s0.wf(),
        s0.live(a),
        forall|b: usize| s0.live(b) && b != a ==> !has_key(#[trigger] s0.edges_of(b), a),
        slot == s0.slot_of(a),
        s0.data@.len() > 0,
        last_addr == s0.data@[s0.data@.len() - 1].meta.addr,
        s1.cleanup_gen == s0.cleanup_gen,
        s1.lookup@.len() == s0.lookup@.len(),
        s1.data@.len() == s0.data@.len() - 1,
        (slot as int) != s0.data@.len() - 1 ==> {
            let moved = s0.data@.last();
            &&& s1.data@[slot as int].data == moved.data
            &&& s1.data@[slot as int].refs == moved.refs
            &&& s1.data@[slot as int].meta == (MetaData {
                cleanup_gen: moved.meta.cleanup_gen,
                store_index: slot,
                addr: last_addr,
            })
        },
        forall|i: int|
            0 <= i < s0.data@.len() - 1 && i != slot ==> s1.data@[i] == s0.data@[i],
        s1.lookup@[a as int] is None,
        a != last_addr ==> s1.lookup@[last_addr as int] == Some(slot),
        forall|b: int|
            0 <= b < s0.lookup@.len() && b != a && b != last_addr ==> s1.lookup@[b]
                == s0.lookup@[b],
    ensures
        s1.wf(),
        forall|b: usize| #[trigger] s1.live(b) <==> (s0.live(b) && b != a),
        forall|b: usize|
            #![trigger s1.data_of(b)]
            #![trigger s1.edges_of(b)]
            s1.live(b) ==> s1.data_of(b) == s0.data_of(b) && s1.edges_of(b) == s0.edges_of(b),
{
    let n = s0.data@.len() as int;
    assert(s0.lookup@[a as int] == Some(slot));
    assert(slot < n);
    assert(s0.data@[slot as int].meta.addr == a);
    assert(s0.lookup@[last_addr as int] == Some((n - 1) as usize));
    assert(last_addr < s0.lookup@.len());
    if slot as int == n - 1 {
        assert(a == last_addr);
    } else {
        assert(a != last_addr);
    }
    assert forall|b: usize| #[trigger] s1.live(b) <==> (s0.live(b) && b != a) by {
        if b == a {
        } else if b == last_addr {
            assert(s0.live(b));
            assert(s1.lookup@[b as int] == Some(slot));
        } else if (b as int) < s0.lookup@.len() {
            assert(s1.lookup@[b as int] == s0.lookup@[b as int]);
        }
    }
    assert forall|b: usize|
        #![trigger s1.data_of(b)]
        #![trigger s1.edges_of(b)]
        s1.live(b) implies s1.data_of(b) == s0.data_of(b) && s1.edges_of(b)
        == s0.edges_of(b) by {
        if b == last_addr {
            assert(s1.slot_of(b) == slot as int);
            assert(s0.slot_of(b) == n - 1);
            assert(slot as int != n - 1);
        } else {
            let i = s0.slot_of(b);
            assert(s0.lookup@[b as int] == Some(i as usize));
            assert(s0.data@[i].meta.addr == b);
            assert(i != slot && i != n - 1);
            assert(s1.data@[i] == s0.data@[i]);
        }
    }
    assert(s1.slots_wf()) by {
        assert forall|i: int|
            0 <= i < s1.data@.len() implies (#[trigger] s1.data@[i]).meta.store_index == i by {
            if i != slot {
                assert(s1.data@[i] == s0.data@[i]);
            }
        }
        assert forall|i: int|
            0 <= i < s1.data@.len() implies {
                let b = (#[trigger] s1.data@[i]).meta.addr;
                b < s1.lookup@.len() && s1.lookup@[b as int] == Some(i as usize)
            } by {
            if i == slot as int {
                assert(slot as int != n - 1);
                assert(s1.data@[i].meta.addr == last_addr);
            } else {
                assert(s1.data@[i] == s0.data@[i]);
                let b = s0.data@[i].meta.addr;
                assert(s0.lookup@[b as int] == Some(i as usize));
                assert(b != a && b != last_addr);
            }
        }
        assert forall|b: int|
            0 <= b < s1.lookup@.len() && (#[trigger] s1.lookup@[b]) is Some implies {
                let i = s1.lookup@[b]->0;
                i < s1.data@.len() && s1.data@[i as int].meta.addr == b
            } by {
            assert(b != a);
            if b == last_addr as int {
                assert(s1.lookup@[b] == Some(slot));
                assert(slot as int != n - 1);
            } else {
                assert(s1.lookup@[b] == s0.lookup@[b]);
                let i = s0.lookup@[b]->0;
                assert(s0.data@[i as int].meta.addr == b);
                assert(i as int != slot as int && i as int != n - 1);
                assert(s1.data@[i as int] == s0.data@[i as int]);
            }
        }
    }
    assert(s1.gen_wf()) by {
        assert forall|i: int|
            0 <= i < s1.data@.len() implies (#[trigger] s1.data@[i]).meta.cleanup_gen
                == s1.cleanup_gen by {
            if i == slot as int && slot as int != n - 1 {
                assert(s0.data@[n - 1].meta.cleanup_gen == s0.cleanup_gen);
            } else {
                assert(s1.data@[i] == s0.data@[i]);
            }
        }
    }
    assert(s1.edges_wf()) by {
        assert forall|i: int|
            0 <= i < s1.data@.len() implies (#[trigger] s1.data@[i]).refs.well_formed() by {
            if i == slot as int && slot as int != n - 1 {
                assert(s0.data@[n - 1].refs.well_formed());
            } else {
                assert(s1.data@[i] == s0.data@[i]);
            }
        }
        assert forall|i: int, k: int|
            0 <= i < s1.data@.len() && 0 <= k < (
            #[trigger] s1.data@[i]).refs.edge_seq().len() implies s1.live(
            #[trigger] s1.data@[i].refs.edge_seq()[k].0,
        ) by {
            let j: int = if i == slot as int && slot as int != n - 1 {
                n - 1
            } else {
                i
            };
            assert(s1.data@[i].refs == s0.data@[j].refs);
            let b = s0.data@[j].meta.addr;
            assert(s0.lookup@[b as int] == Some(j as usize));
            assert(s0.live(b) && s0.slot_of(b) == j);
            assert(s0.edges_of(b) == s0.data@[j].refs.edge_seq());
            let t = s0.data@[j].refs.edge_seq()[k].0;
            assert(s0.live(t));
            assert(b != a);
            if t == a {
                assert(has_key(s0.edges_of(b), a));
                assert(false);
            }
        }
    }
}

/// One step of the truncation pass: popping the (unvisited) last node and
/// blanking its lookup entry keeps the slot table consistent and removes
/// exactly that one node from the live set.
#[verifier::rlimit(100)]
#[verifier::spinoff_prover]
proof fn lemma_truncate_step<N, C: NodeCollection>(
    pre: GraphRaw<N, C>,
    cur: GraphRaw<N, C>,
    smark: GraphRaw<N, C>,
    b_pop: usize,
)
    requires
        pre.slots_wf(),
        pre.data@.len() > 0,
        pre.lookup@.len() == smark.lookup@.len(),
        pre.data@.len() <= smark.data@.len(),
        pre.data@ == smark.data@.subrange(0, pre.data@.len() as int),
        forall|b: usize|
            #[trigger] pre.live(b) <==> (smark.live(b) && smark.slot_of(b) < pre.data@.len()),
        forall|b: usize| pre.live(b) ==> pre.lookup@[b as int] == smark.lookup@[b as int],
        b_pop == pre.data@.last().meta.addr,
        cur.data@ == pre.data@.drop_last(),
        cur.lookup@ == pre.lookup@.update(b_pop as int, None),
        cur.cleanup_gen == pre.cleanup_gen,
    ensures
        cur.slots_wf(),
        cur.lookup@.len() == smark.lookup@.len(),
        cur.data@.len() <= smark.data@.len(),
        cur.data@ == smark.data@.subrange(0, cur.data@.len() as int),
        forall|b: usize|
            #[trigger] cur.live(b) <==> (smark.live(b) && smark.slot_of(b) < cur.data@.len()),
        forall|b: usize| cur.live(b) ==> cur.lookup@[b as int] == smark.lookup@[b as int],
{
    let n = pre.data@.len() - 1;
    assert(pre.data@[n].meta.addr == b_pop);
    assert(pre.lookup@[b_pop as int] == Some(n as usize));
    assert(b_pop < pre.lookup@.len());
    assert(cur.data@.len() == n);
    assert forall|i: int| 0 <= i < n implies cur.data@[i] == smark.data@[i] by {
        assert(pre.data@[i] == smark.data@.subrange(0, pre.data@.len() as int)[i]);
    }
    assert(cur.data@ =~= smark.data@.subrange(0, n));
    assert(cur.slots_wf()) by {
        assert forall|i: int|
            0 <= i < cur.data@.len() implies (#[trigger] cur.data@[i]).meta.store_index == i by {
            assert(cur.data@[i] == pre.data@[i]);
        }
        assert forall|i: int|
            0 <= i < cur.data@.len() implies {
                let b = (#[trigger] cur.data@[i]).meta.addr;
                b < cur.lookup@.len() && cur.lookup@[b as int] == Some(i as usize)
            } by {
            assert(cur.data@[i] == pre.data@[i]);
            let b = pre.data@[i].meta.addr;
            assert(pre.lookup@[b as int] == Some(i as usize));
            assert(b != b_pop);
        }
        assert forall|b: int|
            0 <= b < cur.lookup@.len() && (#[trigger] cur.lookup@[b]) is Some implies {
                let i = cur.lookup@[b]->0;
                i < cur.data@.len() && cur.data@[i as int].meta.addr == b
            } by {
            assert(b != b_pop);
            assert(cur.lookup@[b] == pre.lookup@[b]);
            let i = pre.lookup@[b]->0;
            assert(pre.data@[i as int].meta.addr == b);
            assert(i as int != n);
            assert(cur.data@[i as int] == pre.data@[i as int]);
        }
    }
    assert forall|b: usize|
        #[trigger] cur.live(b) <==> (smark.live(b) && smark.slot_of(b) < cur.data@.len()) by {
        if b == b_pop {
            assert(!cur.live(b));
            assert(pre.live(b));
            assert(pre.lookup@[b as int] == smark.lookup@[b as int]);
            assert(smark.slot_of(b) == n);
        } else if (b as int) < pre.lookup@.len() {
            assert(cur.lookup@[b as int] == pre.lookup@[b as int]);
            if pre.live(b) {
                assert(pre.lookup@[b as int] == smark.lookup@[b as int]);
                if pre.slot_of(b) == n {
                    assert(pre.data@[n].meta.addr == b);
                    assert(false);
                }
            }
        }
    }
}

/// The last mile of the sweep: with the walk finished (`smark`, whose visited
/// prefix of length `f` is closed under edges and holds every root) and the
/// arena truncated to that prefix (`gend`), the stored nodes are exactly the
/// ones reachable in the pre-sweep arena `g0`, unchanged in payload and edges.
#[verifier::rlimit(100)]
#[verifier::spinoff_prover]
proof fn lemma_cleanup_final<N, C: NodeCollection>(
    g0: GraphRaw<N, C>,
    smark: GraphRaw<N, C>,
    gend: GraphRaw<N, C>,
    roots: Seq<usize>,
    f: int,
)
    requires
        g0.wf(),
        forall|k: int| 0 <= k < roots.len() ==> g0.live(#[trigger] roots[k]),
        smark.slots_wf(),
        smark.edges_wf(),
        smark.mark_partition(f),
        0 <= f <= smark.count(),
        smark.bound() == g0.bound(),
        smark.count() == g0.count(),
        forall|b: usize| #[trigger] smark.live(b) == g0.live(b),
        forall|b: usize|
            #![trigger smark.data_of(b)]
            #![trigger smark.edges_of(b)]
            g0.live(b) ==> smark.data_of(b) == g0.data_of(b) && smark.edges_of(b)
                == g0.edges_of(b),
        forall|b: usize|
            smark.live(b) && #[trigger] smark.marked(b) ==> g0.reachable(roots, b),
        forall|k: int| 0 <= k < roots.len() ==> smark.marked(#[trigger] roots[k]),
        forall|j: int, e: int|
            #![trigger smark.data@[j].refs.edge_seq()[e]]
            0 <= j < f && 0 <= e < smark.data@[j].refs.edge_seq().len() ==> smark.marked(
                smark.data@[j].refs.edge_seq()[e].0,
            ),
        gend.data@.len() == f,
        gend.slots_wf(),
        gend.cleanup_gen == smark.cleanup_gen,
        gend.lookup@.len() == smark.lookup@.len(),
        gend.data@ == smark.data@.subrange(0, f),
        forall|b: usize|
            #[trigger] gend.live(b) <==> (smark.live(b) && smark.slot_of(b) < gend.data@.len()),
        forall|b: usize| gend.live(b) ==> gend.lookup@[b as int] == smark.lookup@[b as int],
    ensures
        gend.wf(),
        gend.count() <= g0.count(),
        forall|a: usize| #[trigger] gend.live(a) <==> g0.reachable(roots, a),
        forall|a: usize|
            #![trigger gend.data_of(a)]
            #![trigger gend.edges_of(a)]
            gend.live(a) ==> gend.data_of(a) == g0.data_of(a) && gend.edges_of(a)
                == g0.edges_of(a),
        gend.bound() == g0.bound(),
{
    // A node survives the truncation exactly when the walk marked it.
    assert forall|b: usize|
        #[trigger] gend.live(b) <==> (smark.live(b) && smark.marked(b)) by {
        if smark.live(b) {
            assert(smark.marked(b) <==> smark.marked_at(smark.slot_of(b)));
            assert(0 <= smark.slot_of(b) < smark.data@.len());
        }
    }
    // Survivors keep their slot, payload and edges.
    assert forall|b: usize|
        #![trigger gend.data_of(b)]
        #![trigger gend.edges_of(b)]
        gend.live(b) implies gend.data_of(b) == g0.data_of(b) && gend.edges_of(b)
            == g0.edges_of(b) by {
        let i = smark.slot_of(b);
        assert(gend.lookup@[b as int] == smark.lookup@[b as int]);
        assert(gend.slot_of(b) == i);
        assert(gend.data@[i] == smark.data@[i]);
        assert(gend.data_of(b) == smark.data_of(b));
        assert(gend.edges_of(b) == smark.edges_of(b));
        assert(g0.live(b));
        assert(smark.data_of(b) == g0.data_of(b) && smark.edges_of(b) == g0.edges_of(b));
    }
    assert(gend.gen_wf()) by {
        assert forall|i: int|
            0 <= i < gend.data@.len() implies (#[trigger] gend.data@[i]).meta.cleanup_gen
                == gend.cleanup_gen by {
            assert(gend.data@[i] == smark.data@[i]);
            assert(smark.marked_at(i));
        }
    }
    assert(gend.edges_wf()) by {
        assert forall|i: int|
            0 <= i < gend.data@.len() implies (#[trigger] gend.data@[i]).refs.well_formed() by {
            assert(gend.data@[i] == smark.data@[i]);
        }
        assert forall|i: int, k: int|
            0 <= i < gend.data@.len() && 0 <= k < (
            #[trigger] gend.data@[i]).refs.edge_seq().len() implies gend.live(
            #[trigger] gend.data@[i].refs.edge_seq()[k].0,
        ) by {
            assert(gend.data@[i] == smark.data@[i]);
            let t = smark.data@[i].refs.edge_seq()[k].0;
            assert(smark.live(t));
            assert(smark.marked(t));
            assert(smark.slot_of(t) < f);
        }
    }
    // The marked set contains every root and is closed under edges, so it
    // holds everything reachable; soundness gives the other direction.
    let m = Set::new(|x: usize| smark.live(x) && smark.marked(x));
    assert forall|a: usize| #[trigger] gend.live(a) <==> g0.reachable(roots, a) by {
        if gend.live(a) {
            assert(smark.live(a) && smark.marked(a));
            assert(g0.reachable(roots, a));
        }
        if g0.reachable(roots, a) {
            assert forall|rr: usize| roots.contains(rr) && g0.live(rr) implies m.contains(
                rr,
            ) by {
                let k = choose|k: int| 0 <= k < roots.len() && roots[k] == rr;
                assert(smark.marked(roots[k]));
            }
            assert forall|b: usize, t: usize|
                m.contains(b) && g0.live(b) && (#[trigger] g0.targets_of(b)).contains(t)
                    && g0.live(t) implies #[trigger] m.contains(t) by {
                let j = smark.slot_of(b);
                assert(smark.live(b) && smark.marked(b));
                assert(0 <= j < smark.data@.len());
                assert(j < f);
                assert(smark.data@[j].refs.edge_seq() == smark.edges_of(b));
                assert(smark.edges_of(b) == g0.edges_of(b));
                let e = choose|e: int|
                    0 <= e < g0.targets_of(b).len() && g0.targets_of(b)[e] == t;
                assert(g0.edges_of(b)[e].0 == t);
                assert(smark.data@[j].refs.edge_seq()[e].0 == t);
                assert(smark.marked(t));
                assert(smark.live(t));
            }
            g0.lemma_reachable_in_closed_set(roots, m, a);
            assert(m.contains(a));
            assert(smark.live(a) && smark.marked(a));
        }
    }
}

/// Exclusive references to the payloads of the nodes in two distinct slots of
/// the store. Everything else about the two nodes, and every other slot, stays
/// exactly as it was.
fn two_payloads<N, C>(v: &mut Vec<GraphNode<N, C>>, i: usize, j: usize) -> (r: (&mut N, &mut N))
    requires
        i < old(v)@.len(),
        j < old(v)@.len(),
        i != j,
    ensures
        *r.0 == old(v)@[i as int].data,
        *r.1 == old(v)@[j as int].data,
        final(v)@.len() == old(v)@.len(),
        final(v)@[i as int].data == *final(r.0),
        final(v)@[i as int].refs == old(v)@[i as int].refs,
        final(v)@[i as int].meta == old(v)@[i as int].meta,
        final(v)@[j as int].data == *final(r.1),
        final(v)@[j as int].refs == old(v)@[j as int].refs,
        final(v)@[j as int].meta == old(v)@[j as int].meta,
        forall|k: int|
            0 <= k < old(v)@.len() && k != i && k != j ==> final(v)@[k] == old(v)@[k],
{
    let sl = v.as_mut_slice();
    if i < j {
        let (left, right) = sl.split_at_mut(j);
        let (left_lo, _) = left.split_at_mut(i + 1);
        let ni = left_lo.last_mut().unwrap();
        let nj = right.first_mut().unwrap();
        (&mut ni.data, &mut nj.data)
    } else {
        let (left, right) = sl.split_at_mut(i);
        let (left_lo, _) = left.split_at_mut(j + 1);
        let nj = left_lo.last_mut().unwrap();
        let ni = right.first_mut().unwrap();
        (&mut ni.data, &mut nj.data)
    }
}

/// The node arena: the single owning store of all node allocations for one
/// graph value.
///
/// `data` holds the nodes themselves; `lookup` maps a node's stable address to
/// the slot it currently occupies, or `None` once the node has been killed or
/// swept. Addresses are issued in spawning order and are never reused, which
/// is what lets a handle stay meaningful across sweeps for as long as its node
/// survives them.
pub struct GraphRaw<N, C> {
    pub(crate) data: Vec<GraphNode<N, C>>,
    pub(crate) lookup: Vec<Option<usize>>,
    pub(crate) cleanup_gen: CleanupGen,
}

impl<N, C: NodeCollection> GraphRaw<N, C> {
    /// Whether a node with stable address `a` is currently stored.
    pub closed spec fn live(&self, a: usize) -> bool {
        a < self.lookup@.len() && self.lookup@[a as int] is Some
    }

    /// The slot the node at address `a` currently occupies.
    pub(crate) open spec fn slot_of(&self, a: usize) -> int {
        self.lookup@[a as int]->0 as int
    }

    /// The payload of the live node at address `a`.
    pub closed spec fn data_of(&self, a: usize) -> N {
        self.data@[self.slot_of(a)].data
    }

    /// The `(target address, edge value)` entries of the live node at address `a`.
    pub closed spec fn edges_of(&self, a: usize) -> Seq<(usize, C::Edge)> {
        self.data@[self.slot_of(a)].refs.edge_seq()
    }

    /// The outgoing edge targets of the live node at address `a`.
    pub open spec fn targets_of(&self, a: usize) -> Seq<usize> {
        self.edges_of(a).map_values(|e: (usize, C::Edge)| e.0)
    }

    /// How many addresses have ever been issued; also the next fresh address.
    pub closed spec fn bound(&self) -> int {
        self.lookup@.len() as int
    }

    /// How many nodes are currently stored.
    pub closed spec fn count(&self) -> int {
        self.data@.len() as int
    }

    /// The slot table and the nodes' own bookkeeping agree: every stored node
    /// knows its slot and its address, and `lookup` inverts that exactly.
    pub(crate) open spec fn slots_wf(&self) -> bool {
        &&& forall|i: int|
            0 <= i < self.data@.len() ==> (#[trigger] self.data@[i]).meta.store_index == i
        &&& forall|i: int|
            0 <= i < self.data@.len() ==> {
                let a = (#[trigger] self.data@[i]).meta.addr;
                &&& a < self.lookup@.len()
                &&& self.lookup@[a as int] == Some(i as usize)
            }
        &&& forall|a: int|
            0 <= a < self.lookup@.len() && (#[trigger] self.lookup@[a]) is Some ==> {
                let i = self.lookup@[a]->0;
                &&& i < self.data@.len()
                &&& self.data@[i as int].meta.addr == a
            }
    }

    /// Every stored edge collection is well formed and every edge entry in any
    /// stored node points at a node that is itself currently stored: no edge
    /// ever dangles.
    pub(crate) open spec fn edges_wf(&self) -> bool {
        &&& forall|i: int|
            0 <= i < self.data@.len() ==> (#[trigger] self.data@[i]).refs.well_formed()
        &&& forall|i: int, k: int|
            0 <= i < self.data@.len() && 0 <= k < (#[trigger] self.data@[i]).refs.edge_seq().len()
                ==> self.live(#[trigger] self.data@[i].refs.edge_seq()[k].0)
    }

    /// At rest every stored node carries the arena's current sweep tag; only
    /// in the middle of a sweep do the two diverge, which is what lets the
    /// sweep tell visited nodes from unvisited ones.
    pub(crate) open spec fn gen_wf(&self) -> bool {
        forall|i: int|
            0 <= i < self.data@.len() ==> (#[trigger] self.data@[i]).meta.cleanup_gen
                == self.cleanup_gen
    }

    /// The arena's full invariant.
    pub closed spec fn wf(&self) -> bool {
        self.slots_wf() && self.edges_wf() && self.gen_wf()
    }

    /// Nothing outside `except` changed: liveness, payloads and edges of every
    /// other address are the same in `g2` as in `g1`.
    pub open spec fn unchanged_outside(g1: &Self, g2: &Self, except: Set<usize>) -> bool {
        forall|a: usize|
            !except.contains(a) ==> {
                &&& (#[trigger] g2.live(a)) <==> g1.live(a)
                &&& g1.live(a) ==> g2.data_of(a) == g1.data_of(a) && g2.edges_of(a)
                    == g1.edges_of(a)
            }
    }

    /// A fresh, empty arena.
    pub(crate) fn new() -> (g: Self)
        ensures
            g.wf(),
            g.bound() == 0,
            g.count() == 0,
            forall|a: usize| !(#[trigger] g.live(a)),
            g.cleanup_gen == CleanupGen::Even,
    {
        GraphRaw { data: Vec::new(), lookup: Vec::new(), cleanup_gen: CleanupGen::Even }
    }

    /// How many nodes are stored right now.
    pub(crate) fn node_count(&self) -> (n: usize)
        ensures
            n == self.count(),
    {
        self.data.len()
    }

    /// Whether address `a` currently names a stored node.
    pub(crate) fn is_live(&self, a: usize) -> (r: bool)
        ensures
            r == self.live(a),
    {
        a < self.lookup.len() && self.lookup[a].is_some()
    }

    /// Allocates a detached node holding `data` and no edges, and returns its
    /// fresh stable address.
    pub(crate) fn spawn_detached(&mut self, data: N) -> (a: usize)
        requires
            old(self).wf(),
        ensures
            final(self).wf(),
            a == old(self).bound(),
            !old(self).live(a),
            final(self).live(a),
            final(self).bound() == old(self).bound() + 1,
            final(self).count() == old(self).count() + 1,
            final(self).data_of(a) == data,
            final(self).edges_of(a) == Seq::<(usize, C::Edge)>::empty(),
            Self::unchanged_outside(old(self), final(self), set![a]),
            final(self).cleanup_gen == old(self).cleanup_gen,
    {
        let a = self.lookup.len();
        let slot = self.data.len();
        let meta = MetaData { cleanup_gen: self.cleanup_gen, store_index: slot, addr: a };
        let node = GraphNode { data, refs: C::empty(), meta };
        self.data.push(node);
        self.lookup.push(Some(slot));
        a
    }

    /// The set of addresses currently stored.
    pub open spec fn live_set(&self) -> Set<usize> {
        Set::new(|a: usize| self.live(a))
    }

    /// The arena's count is exactly the number of live addresses: every
    /// stored node occupies one slot and owns one address.
    pub proof fn lemma_count_is_live_set_size(&self)
        requires
            self.wf(),
        ensures
            self.live_set().finite(),
            self.live_set().len() == self.count(),
    {
        broadcast use vstd::seq_lib::seq_to_set_is_finite;

        let addrs = self.data@.map_values(|nd: GraphNode<N, C>| nd.meta.addr);
        assert(addrs.len() == self.count());
        assert(addrs.no_duplicates()) by {
            assert forall|i: int, j: int|
                0 <= i < addrs.len() && 0 <= j < addrs.len() && i != j implies addrs[i]
                != addrs[j] by {
                assert(addrs[i] == self.data@[i].meta.addr);
                assert(addrs[j] == self.data@[j].meta.addr);
                if self.data@[i].meta.addr == self.data@[j].meta.addr {
                    assert(self.lookup@[addrs[i] as int] == Some(i as usize));
                    assert(self.lookup@[addrs[j] as int] == Some(j as usize));
                }
            }
        }
        addrs.unique_seq_to_set();
        assert(self.live_set() =~= addrs.to_set()) by {
            assert forall|a: usize|
                #[trigger] self.live_set().contains(a) implies addrs.to_set().contains(a) by {
                assert(self.live(a));
                let i = self.slot_of(a);
                assert(self.data@[i].meta.addr == a);
                assert(addrs[i] == a);
                assert(addrs.contains(a));
            }
            assert forall|a: usize|
                #[trigger] addrs.to_set().contains(a) implies self.live_set().contains(a) by {
                assert(addrs.contains(a));
                let i = choose|i: int| 0 <= i < addrs.len() && addrs[i] == a;
                assert(self.data@[i].meta.addr == a);
                assert(self.lookup@[a as int] == Some(i as usize));
                assert(self.live(a));
            }
        }
    }

    /// Whether the node in slot `k` has been visited in the current round.
    pub(crate) open spec fn marked_at(&self, k: int) -> bool {
        self.data@[k].meta.cleanup_gen == self.cleanup_gen
    }

    /// Whether the live node at address `a` has been visited in the current round.
    pub(crate) open spec fn marked(&self, a: usize) -> bool {
        self.marked_at(self.slot_of(a))
    }

    /// The stable address of the node in slot `k`.
    pub(crate) open spec fn addr_at(&self, k: int) -> usize {
        self.data@[k].meta.addr
    }

    /// Slots below `f` hold exactly the nodes already visited this round.
    pub(crate) open spec fn mark_partition(&self, f: int) -> bool {
        forall|k: int| 0 <= k < self.data@.len() ==> ((#[trigger] self.marked_at(k)) <==> k < f)
    }

    /// The single primitive of the sweep: if the node at address `a` has
    /// already been visited this round, does nothing and reports `false`.
    /// Otherwise it marks the node visited, swaps it into slot `f` (the next
    /// free slot of the compacted live prefix) and reports `true`. Marking and
    /// relocation happen in one pass, so that when the walk finishes, the live
    /// prefix holds exactly the visited nodes and the rest can be dropped in
    /// one truncation.
    #[verifier::rlimit(100)]
    #[verifier::spinoff_prover]
    pub(crate) fn touch(&mut self, f: usize, a: usize) -> (hit: bool)
        requires
            old(self).slots_wf(),
            old(self).edges_wf(),
            old(self).live(a),
            old(self).mark_partition(f as int),
        ensures
            final(self).slots_wf(),
            final(self).edges_wf(),
            final(self).cleanup_gen == old(self).cleanup_gen,
            final(self).bound() == old(self).bound(),
            final(self).count() == old(self).count(),
            forall|b: usize| #[trigger] final(self).live(b) == old(self).live(b),
            forall|b: usize|
                #![trigger final(self).data_of(b)]
                #![trigger final(self).edges_of(b)]
                old(self).live(b) ==> final(self).data_of(b) == old(self).data_of(b)
                    && final(self).edges_of(b) == old(self).edges_of(b),
            hit == !old(self).marked(a),
            !hit ==> *final(self) == *old(self),
            hit ==> {
                &&& f < old(self).count()
                &&& final(self).mark_partition(f + 1)
                &&& final(self).addr_at(f as int) == a
                &&& forall|k: int| 0 <= k < f ==> final(self).data@[k] == old(self).data@[k]
                &&& forall|b: usize|
                    old(self).live(b) ==> ((#[trigger] final(self).marked(b)) <==> old(self).marked(b) || b == a)
            },
            !hit ==> forall|b: usize|
                old(self).live(b) ==> (#[trigger] final(self).marked(b)) == old(self).marked(b),
    {
        let ghost s0 = *self;
        let cg = self.cleanup_gen;
        let slot_a = self.lookup[a].unwrap();
        if self.data[slot_a].meta.cleanup_gen == cg {
            return false;
        }
        // The node is unvisited, so it sits in the unvisited suffix: f is in range.
        proof {
            assert(s0.data@[slot_a as int].meta.addr == a);
            assert(slot_a < s0.data@.len());
            assert(!s0.marked_at(slot_a as int));
            if (slot_a as int) < f as int {
                assert(s0.marked_at(slot_a as int));
            }
            assert(f < s0.data@.len());
        }
        let addr_f = self.data[f].meta.addr;
        {
            let node = vstd::std_specs::vec::vec_index_mut(&mut self.data, slot_a);
            node.meta = MetaData { cleanup_gen: cg, store_index: f, addr: a };
        }
        {
            let node_f = vstd::std_specs::vec::vec_index_mut(&mut self.data, f);
            let gen_f = node_f.meta.cleanup_gen;
            node_f.meta = MetaData { cleanup_gen: gen_f, store_index: slot_a, addr: addr_f };
        }
        vec_swap(&mut self.data, slot_a, f);
        self.lookup.set(a, Some(f));
        self.lookup.set(addr_f, Some(slot_a));
        proof {
            let s1 = *self;
            assert(s1.cleanup_gen == s0.cleanup_gen);
            assert(s1.data@.len() == s0.data@.len());
            assert(s1.lookup@.len() == s0.lookup@.len());
            assert(s1.lookup@[a as int] == Some(f));
            assert(s1.lookup@[addr_f as int] == Some(slot_a));
            assert forall|b: int|
                0 <= b < s0.lookup@.len() && b != a && b != addr_f implies s1.lookup@[b]
                == s0.lookup@[b] by {}
            assert(s1.data@[f as int].data == s0.data@[slot_a as int].data);
            assert(s1.data@[f as int].refs == s0.data@[slot_a as int].refs);
            assert(s1.data@[f as int].meta == (MetaData {
                cleanup_gen: s0.cleanup_gen,
                store_index: f,
                addr: a,
            }));
            if slot_a != f {
                assert(s1.data@[slot_a as int].data == s0.data@[f as int].data);
                assert(s1.data@[slot_a as int].refs == s0.data@[f as int].refs);
                assert(s1.data@[slot_a as int].meta == (MetaData {
                    cleanup_gen: s0.data@[f as int].meta.cleanup_gen,
                    store_index: slot_a,
                    addr: addr_f,
                }));
            }
            assert forall|i: int|
                0 <= i < s0.data@.len() && i != f && i != slot_a implies s1.data@[i]
                == s0.data@[i] by {}
            lemma_touch_shape(s0, s1, f, a, slot_a, addr_f);
        }
        true
    }

    /// A path through the stored graph: a nonempty sequence of live node
    /// addresses whose first element is named by `roots` and where each later
    /// element is an edge target of the one before it.
    pub open spec fn is_graph_path(&self, roots: Seq<usize>, p: Seq<usize>) -> bool {
        &&& p.len() > 0
        &&& roots.contains(p[0])
        &&& forall|k: int| 0 <= k < p.len() ==> self.live(#[trigger] p[k])
        &&& forall|k: int|
            0 <= k < p.len() - 1 ==> (#[trigger] self.targets_of(p[k])).contains(p[k + 1])
    }

    /// Whether the node at address `a` can be reached from `roots` by
    /// following stored edges.
    pub open spec fn reachable(&self, roots: Seq<usize>, a: usize) -> bool {
        exists|p: Seq<usize>| self.is_graph_path(roots, p) && p.last() == a
    }

    /// A live node named by the root collection is reachable.
    pub proof fn lemma_reachable_root(&self, roots: Seq<usize>, a: usize)
        requires
            self.live(a),
            roots.contains(a),
        ensures
            self.reachable(roots, a),
    {
        let p = seq![a];
        assert(self.is_graph_path(roots, p));
        assert(p.last() == a);
    }

    /// Reachability follows edges: an edge target of a reachable node is
    /// itself reachable.
    pub proof fn lemma_reachable_step(&self, roots: Seq<usize>, a: usize, t: usize)
        requires
            self.reachable(roots, a),
            self.targets_of(a).contains(t),
            self.live(t),
        ensures
            self.reachable(roots, t),
    {
        let p = choose|p: Seq<usize>| self.is_graph_path(roots, p) && p.last() == a;
        let q = p.push(t);
        assert forall|k: int| 0 <= k < q.len() implies self.live(#[trigger] q[k]) by {
            if k < p.len() {
                assert(q[k] == p[k]);
            }
        }
        assert forall|k: int|
            0 <= k < q.len() - 1 implies (#[trigger] self.targets_of(q[k])).contains(
            q[k + 1],
        ) by {
            if k < p.len() - 1 {
                assert(q[k] == p[k] && q[k + 1] == p[k + 1]);
            } else {
                assert(q[k] == a && q[k + 1] == t);
            }
        }
        assert(self.is_graph_path(roots, q));
        assert(q.last() == t);
    }

    /// Every node on a path lands in any set that contains the roots and is
    /// closed under following edges.
    pub proof fn lemma_path_in_closed_set(
        &self,
        roots: Seq<usize>,
        m: Set<usize>,
        p: Seq<usize>,
    )
        requires
            self.is_graph_path(roots, p),
            forall|r: usize| roots.contains(r) && self.live(r) ==> m.contains(r),
            forall|b: usize, t: usize|
                m.contains(b) && self.live(b) && (#[trigger] self.targets_of(b)).contains(t)
                    && self.live(t) ==> #[trigger] m.contains(t),
        ensures
            m.contains(p.last()),
        decreases p.len(),
    {
        if p.len() == 1 {
            assert(m.contains(p[0]));
        } else {
            let q = p.drop_last();
            assert(q[0] == p[0]);
            assert forall|k: int| 0 <= k < q.len() implies self.live(#[trigger] q[k]) by {
                assert(q[k] == p[k]);
            }
            assert forall|k: int|
                0 <= k < q.len() - 1 implies (#[trigger] self.targets_of(q[k])).contains(
                q[k + 1],
            ) by {
                assert(q[k] == p[k] && q[k + 1] == p[k + 1]);
            }
            assert(self.is_graph_path(roots, q));
            self.lemma_path_in_closed_set(roots, m, q);
            assert(q.last() == p[p.len() - 2]);
            assert(self.targets_of(p[p.len() - 2]).contains(p[p.len() - 1]));
            assert(m.contains(p.last()));
        }
    }

    /// Every reachable node lands in any set that contains the roots and is
    /// closed under following edges.
    pub proof fn lemma_reachable_in_closed_set(
        &self,
        roots: Seq<usize>,
        m: Set<usize>,
        a: usize,
    )
        requires
            self.reachable(roots, a),
            forall|r: usize| roots.contains(r) && self.live(r) ==> m.contains(r),
            forall|b: usize, t: usize|
                m.contains(b) && self.live(b) && (#[trigger] self.targets_of(b)).contains(t)
                    && self.live(t) ==> #[trigger] m.contains(t),
        ensures
            m.contains(a),
    {
        let p = choose|p: Seq<usize>| self.is_graph_path(roots, p) && p.last() == a;
        self.lemma_path_in_closed_set(roots, m, p);
    }

    /// Any nonempty prefix of a path is itself a path.
    pub proof fn lemma_path_prefix(&self, roots: Seq<usize>, p: Seq<usize>, m: int)
        requires
            self.is_graph_path(roots, p),
            0 < m <= p.len(),
        ensures
            self.is_graph_path(roots, p.subrange(0, m)),
    {
        let q = p.subrange(0, m);
        assert(q[0] == p[0]);
        assert forall|k: int| 0 <= k < q.len() implies self.live(#[trigger] q[k]) by {
            assert(q[k] == p[k]);
        }
        assert forall|k: int|
            0 <= k < q.len() - 1 implies (#[trigger] self.targets_of(q[k])).contains(
            q[k + 1],
        ) by {
            assert(q[k] == p[k] && q[k + 1] == p[k + 1]);
        }
    }

    /// Sweep idempotence: when `g2` is what a precise sweep leaves of `g1` —
    /// its stored nodes are exactly the ones reachable in `g1`, with their
    /// edges intact — then in `g2` every stored node is again reachable from
    /// the same roots. A second sweep with no mutation in between therefore
    /// keeps the live set exactly as it is.
    pub proof fn lemma_cleanup_idempotent(g1: Self, g2: Self, roots: Seq<usize>)
        requires
            forall|a: usize| #[trigger] g2.live(a) <==> g1.reachable(roots, a),
            forall|a: usize| g2.live(a) ==> (#[trigger] g2.edges_of(a)) == g1.edges_of(a),
        ensures
            forall|a: usize| #[trigger] g2.reachable(roots, a) <==> g2.live(a),
    {
        assert forall|a: usize| #[trigger] g2.reachable(roots, a) <==> g2.live(a) by {
            if g2.reachable(roots, a) {
                g2.lemma_reachable_live(roots, a);
            }
            if g2.live(a) {
                assert(g1.reachable(roots, a));
                let p = choose|p: Seq<usize>| g1.is_graph_path(roots, p) && p.last() == a;
                assert forall|k: int| 0 <= k < p.len() implies g2.live(#[trigger] p[k]) by {
                    g1.lemma_path_prefix(roots, p, k + 1);
                    let q = p.subrange(0, k + 1);
                    assert(g1.is_graph_path(roots, q));
                    assert(q.last() == p[k]);
                    assert(g1.reachable(roots, p[k]));
                }
                assert forall|k: int|
                    0 <= k < p.len() - 1 implies (#[trigger] g2.targets_of(p[k])).contains(
                    p[k + 1],
                ) by {
                    assert(g2.live(p[k]));
                    assert(g2.edges_of(p[k]) == g1.edges_of(p[k]));
                    assert(g2.targets_of(p[k]) =~= g1.targets_of(p[k]));
                    assert(g1.targets_of(p[k]).contains(p[k + 1]));
                }
                assert(g2.is_graph_path(roots, p));
                assert(p.last() == a);
            }
        }
    }

    /// A reachable node is live: the path that reaches it ends at it.
    pub proof fn lemma_reachable_live(&self, roots: Seq<usize>, a: usize)
        requires
            self.reachable(roots, a),
        ensures
            self.live(a),
    {
        let p = choose|p: Seq<usize>| self.is_graph_path(roots, p) && p.last() == a;
        assert(p[p.len() - 1] == a);
    }

    /// Everything that holds throughout the mark phase of a sweep over the
    /// pre-sweep arena `g0`: the slot table is intact, the visited nodes form
    /// exactly the prefix below the frontier `f`, nothing observable has
    /// changed since `g0`, and every visited node is reachable from `roots`.
    pub(crate) open spec fn sweep_inv(s: Self, g0: Self, roots: Seq<usize>, f: int) -> bool {
        &&& g0.wf()
        &&& s.slots_wf()
        &&& s.edges_wf()
        &&& 0 <= f <= s.count()
        &&& s.mark_partition(f)
        &&& s.bound() == g0.bound()
        &&& s.count() == g0.count()
        &&& forall|b: usize| #[trigger] s.live(b) == g0.live(b)
        &&& forall|b: usize|
            #![trigger s.data_of(b)]
            #![trigger s.edges_of(b)]
            g0.live(b) ==> s.data_of(b) == g0.data_of(b) && s.edges_of(b)
                == g0.edges_of(b)
        &&& forall|b: usize| s.live(b) && #[trigger] s.marked(b) ==> g0.reachable(roots, b)
    }

    /// One mark step over a node already known reachable: `touch` it at the
    /// frontier `f` and return the new frontier. The sweep invariant is kept,
    /// the node ends up visited, no other node's visit state changes, and the
    /// compacted prefix below `f` stays in place.
    #[verifier::rlimit(100)]
    #[verifier::spinoff_prover]
    fn mark_from(
        &mut self,
        f: usize,
        a: usize,
        Ghost(g0): Ghost<GraphRaw<N, C>>,
        Ghost(roots): Ghost<Seq<usize>>,
    ) -> (nf: usize)
        requires
            Self::sweep_inv(*old(self), g0, roots, f as int),
            old(self).live(a),
            g0.reachable(roots, a),
        ensures
            Self::sweep_inv(*final(self), g0, roots, nf as int),
            final(self).cleanup_gen == old(self).cleanup_gen,
            f <= nf <= f + 1,
            final(self).live(a) && final(self).marked(a),
            forall|b: usize|
                old(self).live(b) ==> ((#[trigger] final(self).marked(b)) <==> old(self).marked(b) || b == a),
            forall|k: int| 0 <= k < f ==> final(self).data@[k] == old(self).data@[k],
    {
        let hit = self.touch(f, a);
        proof {
            lemma_sweep_frame(g0, *old(self), *self, roots);
        }
        if hit {
            let n = self.data.len();
            proof {
                assert(f < n);
            }
            f + 1
        } else {
            f
        }
    }

    /// The precise reachability sweep. Flips the sweep tag, walks the graph
    /// breadth-first from the root collection, and truncates everything the
    /// walk did not visit. `touch` both marks and relocates, so the compacted
    /// live prefix doubles as the FIFO queue: `qhead` chases the frontier `f`
    /// until no enqueued node is left. Afterwards exactly the nodes reachable
    /// from the roots are stored, each with its payload and edges intact.
    #[verifier::rlimit(100)]
    #[verifier::spinoff_prover]
    pub(crate) fn cleanup_precise<R: RootCollection>(&mut self, root: &R)
        requires
            old(self).wf(),
            forall|k: int|
                0 <= k < root.root_seq().len() ==> old(self).live(
                    #[trigger] root.root_seq()[k],
                ),
        ensures
            final(self).wf(),
            forall|a: usize|
                #[trigger] final(self).live(a) <==> old(self).reachable(root.root_seq(), a),
            forall|a: usize|
                #![trigger final(self).data_of(a)]
                #![trigger final(self).edges_of(a)]
                final(self).live(a) ==> final(self).data_of(a) == old(self).data_of(a)
                    && final(self).edges_of(a) == old(self).edges_of(a),
            final(self).bound() == old(self).bound(),
            final(self).count() <= old(self).count(),
            final(self).cleanup_gen != old(self).cleanup_gen,
    {
        let ghost g0 = *old(self);
        let ghost roots = root.root_seq();
        let mut cg = self.cleanup_gen;
        cg.flip();
        self.cleanup_gen = cg;
        proof {
            assert(self.mark_partition(0));
            assert(Self::sweep_inv(*self, g0, roots, 0));
        }
        let mut f: usize = 0;
        let nroots = root.len();
        let mut r: usize = 0;
        while r < nroots
            invariant
                Self::sweep_inv(*self, g0, roots, f as int),
                self.cleanup_gen != g0.cleanup_gen,
                nroots == roots.len(),
                roots == root.root_seq(),
                forall|k: int| 0 <= k < roots.len() ==> g0.live(#[trigger] roots[k]),
                r <= nroots,
                forall|k: int| 0 <= k < r ==> self.marked(#[trigger] roots[k]),
            decreases nroots - r,
        {
            let ghost pre = *self;
            let a = root.root_at(r);
            proof {
                assert(roots[r as int] == a);
                assert(roots.contains(a));
                g0.lemma_reachable_root(roots, a);
            }
            let nf = self.mark_from(f, a, Ghost(g0), Ghost(roots));
            f = nf;
            proof {
                assert forall|k: int| 0 <= k < r + 1 implies self.marked(
                    #[trigger] roots[k],
                ) by {
                    if k < r {
                        assert(pre.marked(roots[k]));
                        assert(pre.live(roots[k]));
                    }
                }
            }
            r = r + 1;
        }
        let mut qhead: usize = 0;
        while qhead < f
            invariant
                Self::sweep_inv(*self, g0, roots, f as int),
                self.cleanup_gen != g0.cleanup_gen,
                nroots == roots.len(),
                roots == root.root_seq(),
                forall|k: int| 0 <= k < roots.len() ==> g0.live(#[trigger] roots[k]),
                qhead <= f,
                forall|k: int| 0 <= k < roots.len() ==> self.marked(#[trigger] roots[k]),
                forall|j: int, e: int|
                    #![trigger self.data@[j].refs.edge_seq()[e]]
                    0 <= j < qhead && 0 <= e < self.data@[j].refs.edge_seq().len()
                        ==> self.marked(self.data@[j].refs.edge_seq()[e].0),
            decreases g0.count() - qhead,
        {
            let ghost stable_node = self.data@[qhead as int];
            let m = self.data[qhead].refs.len();
            let mut e: usize = 0;
            while e < m
                invariant
                    Self::sweep_inv(*self, g0, roots, f as int),
                    self.cleanup_gen != g0.cleanup_gen,
                    nroots == roots.len(),
                    roots == root.root_seq(),
                    forall|k: int| 0 <= k < roots.len() ==> g0.live(#[trigger] roots[k]),
                    qhead < f,
                    e <= m,
                    self.data@[qhead as int] == stable_node,
                    m == stable_node.refs.edge_seq().len(),
                    forall|k: int| 0 <= k < roots.len() ==> self.marked(#[trigger] roots[k]),
                    forall|j: int, ei: int|
                        #![trigger self.data@[j].refs.edge_seq()[ei]]
                        0 <= j < qhead && 0 <= ei < self.data@[j].refs.edge_seq().len()
                            ==> self.marked(self.data@[j].refs.edge_seq()[ei].0),
                    forall|ti: int|
                        0 <= ti < e ==> self.marked(
                            #[trigger] stable_node.refs.edge_seq()[ti].0,
                        ),
                decreases m - e,
            {
                let ghost pre = *self;
                let t = self.data[qhead].refs.target_at(e);
                proof {
                    let b = stable_node.meta.addr;
                    assert(self.data@[qhead as int].meta.addr == b);
                    assert(self.lookup@[b as int] == Some(qhead));
                    assert(self.live(b) && self.slot_of(b) == qhead as int);
                    assert(self.marked_at(qhead as int));
                    assert(self.marked(b));
                    assert(g0.reachable(roots, b));
                    assert(self.edges_of(b) == stable_node.refs.edge_seq());
                    assert(g0.live(b));
                    assert(g0.edges_of(b) == stable_node.refs.edge_seq());
                    assert(self.live(t));
                    assert(g0.live(t));
                    assert(g0.targets_of(b)[e as int] == t);
                    assert(g0.targets_of(b).contains(t));
                    g0.lemma_reachable_step(roots, b, t);
                }
                let nf = self.mark_from(f, t, Ghost(g0), Ghost(roots));
                proof {
                    assert(self.data@[qhead as int] == stable_node);
                    assert forall|k: int| 0 <= k < roots.len() implies self.marked(
                        #[trigger] roots[k],
                    ) by {
                        assert(pre.marked(roots[k]));
                        assert(pre.live(roots[k]));
                    }
                    assert forall|j: int, ei: int|
                        #![trigger self.data@[j].refs.edge_seq()[ei]]
                        0 <= j < qhead && 0 <= ei < self.data@[j].refs.edge_seq().len()
                            implies self.marked(self.data@[j].refs.edge_seq()[ei].0) by {
                        assert(self.data@[j] == pre.data@[j]);
                        let tt = pre.data@[j].refs.edge_seq()[ei].0;
                        assert(pre.marked(tt));
                        assert(pre.live(tt));
                    }
                    assert forall|ti: int| 0 <= ti < e + 1 implies self.marked(
                        #[trigger] stable_node.refs.edge_seq()[ti].0,
                    ) by {
                        let tt = stable_node.refs.edge_seq()[ti].0;
                        if ti < e {
                            assert(pre.marked(tt));
                            assert(pre.live(tt));
                        } else {
                            assert(tt == t);
                        }
                    }
                }
                f = nf;
                e = e + 1;
            }
            qhead = qhead + 1;
        }
        // Everything the walk visited sits before `f`; drop the rest in one pass.
        let ghost smark = *self;
        while self.data.len() > f
            invariant
                f <= self.data@.len(),
                self.data@.len() <= smark.data@.len(),
                self.slots_wf(),
                self.cleanup_gen == smark.cleanup_gen,
                self.lookup@.len() == smark.lookup@.len(),
                self.data@ == smark.data@.subrange(0, self.data@.len() as int),
                forall|b: usize|
                    #[trigger] self.live(b) <==> (smark.live(b) && smark.slot_of(b)
                        < self.data@.len()),
                forall|b: usize|
                    self.live(b) ==> self.lookup@[b as int] == smark.lookup@[b as int],
            decreases self.data@.len(),
        {
            let ghost pre = *self;
            let node = self.data.pop().unwrap();
            proof {
                assert(pre.data@[pre.data@.len() - 1].meta.addr == node.meta.addr);
                assert(node.meta.addr < pre.lookup@.len());
            }
            self.lookup.set(node.meta.addr, None);
            proof {
                lemma_truncate_step(pre, *self, smark, node.meta.addr);
            }
        }
        proof {
            lemma_cleanup_final(g0, smark, *self, roots, f as int);
        }
    }

    /// Removes the node at `a` immediately, swapping the last node into its
    /// slot, without a sweep. The caller must already have made the node
    /// unreachable: no other stored node's edge collection may still name it,
    /// and the root collection must not either (the anchor checks that part).
    #[verifier::rlimit(100)]
    #[verifier::spinoff_prover]
    pub(crate) fn kill(&mut self, a: usize)
        requires
            old(self).wf(),
            old(self).live(a),
            forall|b: usize|
                old(self).live(b) && b != a ==> !has_key(#[trigger] old(self).edges_of(b), a),
        ensures
            final(self).wf(),
            !final(self).live(a),
            final(self).count() == old(self).count() - 1,
            final(self).bound() == old(self).bound(),
            Self::unchanged_outside(old(self), final(self), set![a]),
            final(self).cleanup_gen == old(self).cleanup_gen,
    {
        let slot = self.lookup[a].unwrap();
        let last = self.data.len() - 1;
        let last_addr = self.data[last].meta.addr;
        let last_gen = self.data[last].meta.cleanup_gen;
        {
            let node_last = vstd::std_specs::vec::vec_index_mut(&mut self.data, last);
            node_last.meta = MetaData {
                cleanup_gen: last_gen,
                store_index: slot,
                addr: last_addr,
            };
        }
        let _victim = self.data.swap_remove(slot);
        self.lookup.set(last_addr, Some(slot));
        self.lookup.set(a, None);
        proof {
            lemma_kill_shape(*old(self), *self, a, slot, last_addr);
        }
    }

    /// Whether the live node at `src` holds an edge whose target is `dst`.
    pub open spec fn has_edge(&self, src: usize, dst: usize) -> bool {
        has_key(self.edges_of(src), dst)
    }

    /// The value carried by the edge from `src` to `dst` (meaningful when the
    /// edge is present and the collection keys edges by target).
    pub open spec fn edge_val(&self, src: usize, dst: usize) -> C::Edge {
        val_of(self.edges_of(src), dst)
    }

    /// How many edges leave the live node at `a`.
    pub(crate) fn edge_count(&self, a: usize) -> (n: usize)
        requires
            self.wf(),
            self.live(a),
        ensures
            n == self.edges_of(a).len(),
    {
        let slot = self.lookup[a].unwrap();
        self.data[slot].refs.len()
    }

    /// The target address of edge `k` of the live node at `a`.
    pub(crate) fn edge_target(&self, a: usize, k: usize) -> (t: usize)
        requires
            self.wf(),
            self.live(a),
            k < self.edges_of(a).len(),
        ensures
            t == self.edges_of(a)[k as int].0,
    {
        let slot = self.lookup[a].unwrap();
        self.data[slot].refs.target_at(k)
    }

    /// Exclusive references to the payloads of two distinct live nodes at
    /// once. Distinctness is what makes the pair safe: the two slots are
    /// different, so the references can never alias.
    #[verifier::rlimit(100)]
    #[verifier::spinoff_prover]
    pub(crate) fn bridge(&mut self, x: usize, y: usize) -> (r: (&mut N, &mut N))
        requires
            old(self).wf(),
            old(self).live(x),
            old(self).live(y),
            x != y,
        ensures
            *r.0 == old(self).data_of(x),
            *r.1 == old(self).data_of(y),
            final(self).wf(),
            forall|b: usize| #[trigger] final(self).live(b) == old(self).live(b),
            final(self).bound() == old(self).bound(),
            final(self).count() == old(self).count(),
            final(self).cleanup_gen == old(self).cleanup_gen,
            final(self).data_of(x) == *final(r.0),
            final(self).data_of(y) == *final(r.1),
            final(self).edges_of(x) == old(self).edges_of(x),
            final(self).edges_of(y) == old(self).edges_of(y),
            Self::unchanged_outside(old(self), final(self), set![x, y]),
    {
        let i = self.lookup[x].unwrap();
        let j = self.lookup[y].unwrap();
        proof {
            assert(self.data@[i as int].meta.addr == x);
            assert(self.data@[j as int].meta.addr == y);
            assert(i != j);
        }
        two_payloads(&mut self.data, i, j)
    }

    /// The target of edge `k` of the live node at `a` is itself live: no
    /// stored edge dangles.
    pub proof fn lemma_edge_target_live(&self, a: usize, k: int)
        requires
            self.wf(),
            self.live(a),
            0 <= k < self.edges_of(a).len(),
        ensures
            self.live(self.edges_of(a)[k].0),
    {
        let slot = self.slot_of(a);
        assert(self.data@[slot].refs.edge_seq() == self.edges_of(a));
        assert(self.live(self.data@[slot].refs.edge_seq()[k].0));
    }

    /// The view of edge `k` of the live node at `a`: the target's address
    /// together with the connected node data — a `Loop` view when the edge
    /// returns to `a`, a `Both` view of the two distinct nodes otherwise —
    /// and the value stored on the edge.
    pub(crate) fn edge_view(&self, a: usize, k: usize) -> (r: (usize, Edge<&N, &C::Edge>))
        requires
            self.wf(),
            self.live(a),
            k < self.edges_of(a).len(),
        ensures
            r.0 == self.edges_of(a)[k as int].0,
            self.live(r.0),
            match r.1 {
                Edge::Loop(l) => r.0 == a && *l.this == self.data_of(a) && *l.edge
                    == self.edges_of(a)[k as int].1,
                Edge::Both(bo) => r.0 != a && *bo.this == self.data_of(a) && *bo.that
                    == self.data_of(r.0) && *bo.edge == self.edges_of(a)[k as int].1,
            },
    {
        let slot = self.lookup[a].unwrap();
        let t = self.data[slot].refs.target_at(k);
        let v = self.data[slot].refs.value_at(k);
        proof {
            self.lemma_edge_target_live(a, k as int);
        }
        if t == a {
            (t, Edge::Loop(EdgeLoop { this: self.get(a), edge: v }))
        } else {
            (t, Edge::Both(EdgeBoth { this: self.get(a), that: self.get(t), edge: v }))
        }
    }

    /// A shared reference to the payload of the live node at `a`.
    pub(crate) fn get(&self, a: usize) -> (r: &N)
        requires
            self.wf(),
            self.live(a),
        ensures
            *r == self.data_of(a),
    {
        let slot = self.lookup[a].unwrap();
        &self.data[slot].data
    }

    /// An exclusive reference to the payload of the live node at `a`. Only the
    /// payload can change through it; the graph's shape stays as it was.
    pub(crate) fn get_mut(&mut self, a: usize) -> (r: &mut N)
        requires
            old(self).wf(),
            old(self).live(a),
        ensures
            *r == old(self).data_of(a),
            final(self).wf(),
            final(self).live(a),
            final(self).data_of(a) == *final(r),
            final(self).edges_of(a) == old(self).edges_of(a),
            Self::unchanged_outside(old(self), final(self), set![a]),
            final(self).bound() == old(self).bound(),
            final(self).count() == old(self).count(),
            final(self).cleanup_gen == old(self).cleanup_gen,
    {
        let slot = self.lookup[a].unwrap();
        let node = vstd::std_specs::vec::vec_index_mut(&mut self.data, slot);
        &mut node.data
    }
}

impl<N, E> GraphRaw<N, NodeNamedMap<E>> {
    /// Inserts (or overwrites) the edge from `src` to `dst`, carrying `e`, and
    /// reports the value the edge carried before. Nothing else changes.
    #[verifier::rlimit(100)]
    #[verifier::spinoff_prover]
    pub(crate) fn connect(&mut self, src: usize, dst: usize, e: E) -> (r: Option<E>)
        requires
            old(self).wf(),
            old(self).live(src),
            old(self).live(dst),
        ensures
            final(self).wf(),
            final(self).has_edge(src, dst),
            final(self).edge_val(src, dst) == e,
            forall|u: usize|
                (#[trigger] final(self).has_edge(src, u)) <==> (u == dst || old(self).has_edge(
                    src,
                    u,
                )),
            forall|u: usize|
                u != dst && old(self).has_edge(src, u) ==> (#[trigger] final(self).edge_val(
                    src,
                    u,
                )) == old(self).edge_val(src, u),
            final(self).data_of(src) == old(self).data_of(src),
            Self::unchanged_outside(old(self), final(self), set![src]),
            forall|b: usize| #[trigger] final(self).live(b) == old(self).live(b),
            final(self).bound() == old(self).bound(),
            final(self).count() == old(self).count(),
            match r {
                Some(v) => old(self).has_edge(src, dst) && v == old(self).edge_val(src, dst),
                None => !old(self).has_edge(src, dst),
            },
    {
        let slot = self.lookup[src].unwrap();
        let r;
        {
            let node = vstd::std_specs::vec::vec_index_mut(&mut self.data, slot);
            r = node.refs.insert(dst, e);
        }
        proof {
            assert forall|u: usize|
                #[trigger] has_key(self.data@[slot as int].refs.edge_seq(), u) implies old(self).live(u) by {
                if u != dst {
                    let oseq = old(self).data@[slot as int].refs.edge_seq();
                    assert(has_key(oseq, u));
                    let k = choose|k: int| 0 <= k < oseq.len() && (#[trigger] oseq[k]).0 == u;
                    assert(old(self).live(old(self).data@[slot as int].refs.edge_seq()[k].0));
                }
            }
            lemma_refs_update(*old(self), *self, src, slot);
            assert(self.edges_of(src) == self.data@[slot as int].refs.edge_seq());
            assert(old(self).edges_of(src) == old(self).data@[slot as int].refs.edge_seq());
        }
        r
    }

    /// Removes the edge from `src` to `dst`, if one is present, and reports
    /// the value it carried. Nothing else changes.
    #[verifier::rlimit(100)]
    #[verifier::spinoff_prover]
    pub(crate) fn disconnect(&mut self, src: usize, dst: usize) -> (r: Option<E>)
        requires
            old(self).wf(),
            old(self).live(src),
        ensures
            final(self).wf(),
            !final(self).has_edge(src, dst),
            forall|u: usize|
                (#[trigger] final(self).has_edge(src, u)) <==> (u != dst && old(self).has_edge(
                    src,
                    u,
                )),
            forall|u: usize|
                u != dst && old(self).has_edge(src, u) ==> (#[trigger] final(self).edge_val(
                    src,
                    u,
                )) == old(self).edge_val(src, u),
            final(self).data_of(src) == old(self).data_of(src),
            Self::unchanged_outside(old(self), final(self), set![src]),
            forall|b: usize| #[trigger] final(self).live(b) == old(self).live(b),
            final(self).bound() == old(self).bound(),
            final(self).count() == old(self).count(),
            match r {
                Some(v) => old(self).has_edge(src, dst) && v == old(self).edge_val(src, dst),
                None => !old(self).has_edge(src, dst),
            },
    {
        let slot = self.lookup[src].unwrap();
        let r;
        {
            let node = vstd::std_specs::vec::vec_index_mut(&mut self.data, slot);
            r = node.refs.remove(dst);
        }
        proof {
            assert forall|u: usize|
                #[trigger] has_key(self.data@[slot as int].refs.edge_seq(), u) implies old(self).live(u) by {
                let oseq = old(self).data@[slot as int].refs.edge_seq();
                assert(has_key(oseq, u));
                let k = choose|k: int| 0 <= k < oseq.len() && (#[trigger] oseq[k]).0 == u;
                assert(old(self).live(old(self).data@[slot as int].refs.edge_seq()[k].0));
            }
            lemma_refs_update(*old(self), *self, src, slot);
            assert(self.edges_of(src) == self.data@[slot as int].refs.edge_seq());
            assert(old(self).edges_of(src) == old(self).data@[slot as int].refs.edge_seq());
        }
        r
    }

    /// An exclusive reference to the value on the edge from `src` to `dst`,
    /// if present. Only that value can change through it: the edge targets,
    /// their order and everything else in the graph stay as they were.
    #[verifier::rlimit(100)]
    #[verifier::spinoff_prover]
    pub(crate) fn edge_val_mut(&mut self, src: usize, dst: usize) -> (r: Option<&mut E>)
        requires
            old(self).wf(),
            old(self).live(src),
        ensures
            r is Some <==> old(self).has_edge(src, dst),
            final(self).wf(),
            forall|b: usize| #[trigger] final(self).live(b) == old(self).live(b),
            final(self).bound() == old(self).bound(),
            final(self).count() == old(self).count(),
            final(self).cleanup_gen == old(self).cleanup_gen,
            final(self).data_of(src) == old(self).data_of(src),
            final(self).edges_of(src).len() == old(self).edges_of(src).len(),
            forall|i: int|
                0 <= i < final(self).edges_of(src).len() ==> (#[trigger] final(self).edges_of(src)[i]).0 == old(self).edges_of(src)[i].0,
            forall|u: usize|
                (#[trigger] has_key(final(self).edges_of(src), u)) <==> has_key(
                    old(self).edges_of(src),
                    u,
                ),
            forall|u: usize|
                u != dst && has_key(old(self).edges_of(src), u) ==> (#[trigger] val_of(
                    final(self).edges_of(src),
                    u,
                )) == val_of(old(self).edges_of(src), u),
            Self::unchanged_outside(old(self), final(self), set![src]),
            r matches Some(v) ==> *v == old(self).edge_val(src, dst) && val_of(
                final(self).edges_of(src),
                dst,
            ) == *final(v),
            r is None ==> final(self).edges_of(src) == old(self).edges_of(src),
    {
        let slot = self.lookup[src].unwrap();
        let node = vstd::std_specs::vec::vec_index_mut(&mut self.data, slot);
        node.refs.get_mut(dst)
    }

    /// A reference to the value on the edge from `src` to `dst`, if present.
    pub(crate) fn get_edge_val(&self, src: usize, dst: usize) -> (r: Option<&E>)
        requires
            self.wf(),
            self.live(src),
        ensures
            r is Some <==> self.has_edge(src, dst),
            r is Some ==> *r->0 == self.edge_val(src, dst),
    {
        let slot = self.lookup[src].unwrap();
        self.data[slot].refs.get(dst)
    }
}

impl<N, E> GraphRaw<N, NodeVec<E>> {
    /// Appends an edge from `src` to `dst`, carrying `e`, to `src`'s ordered
    /// edge list. Nothing else changes.
    #[verifier::rlimit(100)]
    #[verifier::spinoff_prover]
    pub(crate) fn connect_push(&mut self, src: usize, dst: usize, e: E)
        requires
            old(self).wf(),
            old(self).live(src),
            old(self).live(dst),
        ensures
            final(self).wf(),
            final(self).edges_of(src) == old(self).edges_of(src).push((dst, e)),
            final(self).data_of(src) == old(self).data_of(src),
            Self::unchanged_outside(old(self), final(self), set![src]),
            forall|b: usize| #[trigger] final(self).live(b) == old(self).live(b),
            final(self).bound() == old(self).bound(),
            final(self).count() == old(self).count(),
    {
        let slot = self.lookup[src].unwrap();
        {
            let node = vstd::std_specs::vec::vec_index_mut(&mut self.data, slot);
            node.refs.push_entry(dst, e);
        }
        proof {
            assert forall|u: usize|
                #[trigger] has_key(self.data@[slot as int].refs.edge_seq(), u) implies old(self).live(u) by {
                let nseq = self.data@[slot as int].refs.edge_seq();
                let oseq = old(self).data@[slot as int].refs.edge_seq();
                let k = choose|k: int| 0 <= k < nseq.len() && (#[trigger] nseq[k]).0 == u;
                if k < oseq.len() {
                    assert(old(self).live(old(self).data@[slot as int].refs.edge_seq()[k].0));
                } else {
                    assert(u == dst);
                }
            }
            lemma_refs_update(*old(self), *self, src, slot);
            assert(self.edges_of(src) == self.data@[slot as int].refs.edge_seq());
            assert(old(self).edges_of(src) == old(self).data@[slot as int].refs.edge_seq());
        }
    }
}

impl<N, E> GraphRaw<N, NodeVec<E>> {
    /// An exclusive reference to the value of edge `i` of `src`'s ordered
    /// edge list. Only that value can change through it: the edge targets and
    /// everything else in the graph stay as they were.
    #[verifier::rlimit(100)]
    #[verifier::spinoff_prover]
    pub(crate) fn edge_val_mut_at(&mut self, src: usize, i: usize) -> (v: &mut E)
        requires
            old(self).wf(),
            old(self).live(src),
            i < old(self).edges_of(src).len(),
        ensures
            *v == old(self).edges_of(src)[i as int].1,
            final(self).wf(),
            forall|b: usize| #[trigger] final(self).live(b) == old(self).live(b),
            final(self).bound() == old(self).bound(),
            final(self).count() == old(self).count(),
            final(self).cleanup_gen == old(self).cleanup_gen,
            final(self).data_of(src) == old(self).data_of(src),
            final(self).edges_of(src) == old(self).edges_of(src).update(
                i as int,
                (old(self).edges_of(src)[i as int].0, *final(v)),
            ),
            Self::unchanged_outside(old(self), final(self), set![src]),
    {
        let slot = self.lookup[src].unwrap();
        let node = vstd::std_specs::vec::vec_index_mut(&mut self.data, slot);
        node.refs.value_mut_at(i)
    }

    /// Removes edge `i` of `src`'s ordered edge list, keeping the order of
    /// the rest, and reports its entry. Nothing else changes.
    #[verifier::rlimit(100)]
    #[verifier::spinoff_prover]
    pub(crate) fn disconnect_at(&mut self, src: usize, i: usize) -> (r: (usize, E))
        requires
            old(self).wf(),
            old(self).live(src),
            i < old(self).edges_of(src).len(),
        ensures
            final(self).wf(),
            r == old(self).edges_of(src)[i as int],
            final(self).edges_of(src) == old(self).edges_of(src).remove(i as int),
            final(self).data_of(src) == old(self).data_of(src),
            Self::unchanged_outside(old(self), final(self), set![src]),
            forall|b: usize| #[trigger] final(self).live(b) == old(self).live(b),
            final(self).bound() == old(self).bound(),
            final(self).count() == old(self).count(),
    {
        let slot = self.lookup[src].unwrap();
        let r;
        {
            let node = vstd::std_specs::vec::vec_index_mut(&mut self.data, slot);
            r = node.refs.remove_entry(i);
        }
        proof {
            assert forall|u: usize|
                #[trigger] has_key(self.data@[slot as int].refs.edge_seq(), u) implies old(
                self,
            ).live(u) by {
                let nseq = self.data@[slot as int].refs.edge_seq();
                let oseq = old(self).data@[slot as int].refs.edge_seq();
                let k = choose|k: int| 0 <= k < nseq.len() && (#[trigger] nseq[k]).0 == u;
                let kk: int = if k < i as int {
                    k
                } else {
                    k + 1
                };
                assert(nseq[k] == oseq[kk]);
                assert(old(self).live(old(self).data@[slot as int].refs.edge_seq()[kk].0));
            }
            lemma_refs_update(*old(self), *self, src, slot);
            assert(self.edges_of(src) == self.data@[slot as int].refs.edge_seq());
            assert(old(self).edges_of(src) == old(self).data@[slot as int].refs.edge_seq());
        }
        r
    }
}

impl<N, E> GraphRaw<N, NodeOption<E>> {
    /// Sets `src`'s single optional edge to point at `dst` carrying `e`,
    /// reporting the edge it replaces. Nothing else changes.
    #[verifier::rlimit(100)]
    #[verifier::spinoff_prover]
    pub(crate) fn set_single(&mut self, src: usize, dst: usize, e: E) -> (r: Option<(usize, E)>)
        requires
            old(self).wf(),
            old(self).live(src),
            old(self).live(dst),
        ensures
            final(self).wf(),
            final(self).edges_of(src) == seq![(dst, e)],
            old(self).edges_of(src).len() == 0 ==> r is None,
            old(self).edges_of(src).len() == 1 ==> r == Some(old(self).edges_of(src)[0]),
            final(self).data_of(src) == old(self).data_of(src),
            Self::unchanged_outside(old(self), final(self), set![src]),
            forall|b: usize| #[trigger] final(self).live(b) == old(self).live(b),
            final(self).bound() == old(self).bound(),
            final(self).count() == old(self).count(),
    {
        let slot = self.lookup[src].unwrap();
        let r;
        {
            let node = vstd::std_specs::vec::vec_index_mut(&mut self.data, slot);
            r = node.refs.set_entry(dst, e);
        }
        proof {
            assert forall|u: usize|
                #[trigger] has_key(self.data@[slot as int].refs.edge_seq(), u) implies old(self).live(u) by {
                let nseq = self.data@[slot as int].refs.edge_seq();
                let k = choose|k: int| 0 <= k < nseq.len() && (#[trigger] nseq[k]).0 == u;
                assert(u == dst);
            }
            lemma_refs_update(*old(self), *self, src, slot);
            assert(self.edges_of(src) == self.data@[slot as int].refs.edge_seq());
            assert(old(self).edges_of(src) == old(self).data@[slot as int].refs.edge_seq());
        }
        r
    }

    /// Clears `src`'s single optional edge, reporting what it was. Nothing
    /// else changes.
    #[verifier::rlimit(100)]
    #[verifier::spinoff_prover]
    pub(crate) fn clear_single(&mut self, src: usize) -> (r: Option<(usize, E)>)
        requires
            old(self).wf(),
            old(self).live(src),
        ensures
            final(self).wf(),
            final(self).edges_of(src) == Seq::<(usize, E)>::empty(),
            old(self).edges_of(src).len() == 0 ==> r is None,
            old(self).edges_of(src).len() == 1 ==> r == Some(old(self).edges_of(src)[0]),
            final(self).data_of(src) == old(self).data_of(src),
            Self::unchanged_outside(old(self), final(self), set![src]),
            forall|b: usize| #[trigger] final(self).live(b) == old(self).live(b),
            final(self).bound() == old(self).bound(),
            final(self).count() == old(self).count(),
    {
        let slot = self.lookup[src].unwrap();
        let r;
        {
            let node = vstd::std_specs::vec::vec_index_mut(&mut self.data, slot);
            r = node.refs.clear_entry();
        }
        proof {
            assert forall|u: usize|
                #[trigger] has_key(self.data@[slot as int].refs.edge_seq(), u) implies old(self).live(u) by {
                let nseq = self.data@[slot as int].refs.edge_seq();
                let k = choose|k: int| 0 <= k < nseq.len() && (#[trigger] nseq[k]).0 == u;
            }
            lemma_refs_update(*old(self), *self, src, slot);
            assert(self.edges_of(src) == self.data@[slot as int].refs.edge_seq());
            assert(old(self).edges_of(src) == old(self).data@[slot as int].refs.edge_seq());
        }
        r
    }
}

impl<N, E> GraphRaw<N, NodeTreeMap<E>> {
    /// Whether the live node at `src` stores an edge under the ordered key `key`.
    pub closed spec fn has_keyed_edge(&self, src: usize, key: u64) -> bool {
        self.data@[self.slot_of(src)].refs.has_edge_key(key)
    }

    /// The `(target address, edge value)` pair the live node at `src` stores
    /// under `key` (meaningful when such an edge is present).
    pub closed spec fn keyed_edge(&self, src: usize, key: u64) -> (usize, E) {
        self.data@[self.slot_of(src)].refs.edge_under(key)
    }

    /// A node with no edges stores nothing under any key.
    pub proof fn lemma_empty_has_no_keys(&self, src: usize, key: u64)
        requires
            self.live(src),
            self.edges_of(src).len() == 0,
        ensures
            !self.has_keyed_edge(src, key),
    {
        self.data@[self.slot_of(src)].refs.lemma_empty_has_no_keys(key);
    }

    /// Inserts an edge from `src` to `dst` carrying `e` under the ordered key
    /// `key`, replacing any edge already stored under that key. Nothing else
    /// changes.
    #[verifier::rlimit(100)]
    #[verifier::spinoff_prover]
    pub(crate) fn connect_keyed(&mut self, src: usize, key: u64, dst: usize, e: E) -> (r: Option<
        (usize, E),
    >)
        requires
            old(self).wf(),
            old(self).live(src),
            old(self).live(dst),
        ensures
            final(self).wf(),
            final(self).data_of(src) == old(self).data_of(src),
            Self::unchanged_outside(old(self), final(self), set![src]),
            forall|b: usize| #[trigger] final(self).live(b) == old(self).live(b),
            final(self).bound() == old(self).bound(),
            final(self).count() == old(self).count(),
            final(self).has_keyed_edge(src, key),
            final(self).keyed_edge(src, key) == (dst, e),
            forall|u: u64|
                u != key ==> ((#[trigger] final(self).has_keyed_edge(src, u)) <==> old(self).has_keyed_edge(src, u)),
            forall|u: u64|
                u != key && old(self).has_keyed_edge(src, u) ==> (#[trigger] final(self).keyed_edge(src, u)) == old(self).keyed_edge(src, u),
            forall|i: int|
                0 <= i < final(self).edges_of(src).len() ==> (#[trigger] final(self).edges_of(src)[i]).0 == dst || has_key(
                    old(self).edges_of(src),
                    final(self).edges_of(src)[i].0,
                ),
            match r {
                Some(v) => old(self).has_keyed_edge(src, key) && v == old(self).keyed_edge(
                    src,
                    key,
                ),
                None => !old(self).has_keyed_edge(src, key),
            },
    {
        let slot = self.lookup[src].unwrap();
        let r;
        {
            let node = vstd::std_specs::vec::vec_index_mut(&mut self.data, slot);
            r = node.refs.insert_keyed(key, dst, e);
        }
        proof {
            assert forall|u: usize|
                #[trigger] has_key(self.data@[slot as int].refs.edge_seq(), u) implies old(self).live(u) by {
                let nseq = self.data@[slot as int].refs.edge_seq();
                let oseq = old(self).data@[slot as int].refs.edge_seq();
                let k = choose|k: int| 0 <= k < nseq.len() && (#[trigger] nseq[k]).0 == u;
                if u != dst {
                    assert(has_key(oseq, u));
                    let k2 = choose|k2: int| 0 <= k2 < oseq.len() && (#[trigger] oseq[k2]).0
                        == u;
                    assert(old(self).live(old(self).data@[slot as int].refs.edge_seq()[k2].0));
                }
            }
            lemma_refs_update(*old(self), *self, src, slot);
            assert(self.edges_of(src) == self.data@[slot as int].refs.edge_seq());
            assert(old(self).edges_of(src) == old(self).data@[slot as int].refs.edge_seq());
        }
        r
    }
}

/// After an operation replaced only the edge collection of the node at `a`
/// (same payload, same bookkeeping) with one that is well formed and whose
/// targets are all live, the arena invariant holds again and nothing else is
/// different.
#[verifier::rlimit(100)]
#[verifier::spinoff_prover]
proof fn lemma_refs_update<N, C: NodeCollection>(
    s0: GraphRaw<N, C>,
    s1: GraphRaw<N, C>,
    a: usize,
    slot: usize,
)
    requires
        s0.wf(),
        s0.live(a),
        slot == s0.slot_of(a),
        s1.lookup@ == s0.lookup@,
        s1.cleanup_gen == s0.cleanup_gen,
        s1.data@.len() == s0.data@.len(),
        s1.data@[slot as int].data == s0.data@[slot as int].data,
        s1.data@[slot as int].meta == s0.data@[slot as int].meta,
        s1.data@[slot as int].refs.well_formed(),
        forall|u: usize|
            #[trigger] has_key(s1.data@[slot as int].refs.edge_seq(), u) ==> s0.live(u),
        forall|i: int|
            0 <= i < s0.data@.len() && i != slot ==> s1.data@[i] == s0.data@[i],
    ensures
        s1.wf(),
        forall|b: usize| #[trigger] s1.live(b) == s0.live(b),
        s1.data_of(a) == s0.data_of(a),
        s1.edges_of(a) == s1.data@[slot as int].refs.edge_seq(),
        GraphRaw::<N, C>::unchanged_outside(&s0, &s1, set![a]),
        s1.bound() == s0.bound(),
        s1.count() == s0.count(),
{
    assert(s0.lookup@[a as int] == Some(slot));
    assert(0 <= slot < s0.data@.len());
    assert(s0.data@[slot as int].meta.addr == a);
    assert forall|b: usize| #[trigger] s1.live(b) == s0.live(b) by {}
    assert(s1.slots_wf()) by {
        assert forall|i: int|
            0 <= i < s1.data@.len() implies (#[trigger] s1.data@[i]).meta.store_index == i by {
            if i != slot {
                assert(s1.data@[i] == s0.data@[i]);
            }
        }
        assert forall|i: int|
            0 <= i < s1.data@.len() implies {
                let b = (#[trigger] s1.data@[i]).meta.addr;
                b < s1.lookup@.len() && s1.lookup@[b as int] == Some(i as usize)
            } by {
            if i != slot {
                assert(s1.data@[i] == s0.data@[i]);
            }
        }
        assert forall|b: int|
            0 <= b < s1.lookup@.len() && (#[trigger] s1.lookup@[b]) is Some implies {
                let i = s1.lookup@[b]->0;
                i < s1.data@.len() && s1.data@[i as int].meta.addr == b
            } by {
            let i = s0.lookup@[b]->0;
            assert(s0.data@[i as int].meta.addr == b);
            if i as int != slot {
                assert(s1.data@[i as int] == s0.data@[i as int]);
            }
        }
    }
    assert(s1.gen_wf()) by {
        assert forall|i: int|
            0 <= i < s1.data@.len() implies (#[trigger] s1.data@[i]).meta.cleanup_gen
                == s1.cleanup_gen by {
            if i != slot {
                assert(s1.data@[i] == s0.data@[i]);
            }
        }
    }
    assert(s1.edges_wf()) by {
        assert forall|i: int|
            0 <= i < s1.data@.len() implies (#[trigger] s1.data@[i]).refs.well_formed() by {
            if i != slot {
                assert(s1.data@[i] == s0.data@[i]);
            }
        }
        assert forall|i: int, k: int|
            0 <= i < s1.data@.len() && 0 <= k < (
            #[trigger] s1.data@[i]).refs.edge_seq().len() implies s1.live(
            #[trigger] s1.data@[i].refs.edge_seq()[k].0,
        ) by {
            if i == slot as int {
                let u = s1.data@[i].refs.edge_seq()[k].0;
                assert(has_key(s1.data@[slot as int].refs.edge_seq(), u));
                assert(s0.live(u));
            } else {
                assert(s1.data@[i] == s0.data@[i]);
                assert(s0.live(s0.data@[i].refs.edge_seq()[k].0));
            }
        }
    }
    assert forall|b: usize|
        !set![a].contains(b) implies {
            &&& ((#[trigger] s1.live(b)) <==> s0.live(b))
            &&& (s0.live(b) ==> s1.data_of(b) == s0.data_of(b) && s1.edges_of(b) == s0.edges_of(
                b,
            ))
        } by {
        if s0.live(b) {
            let i = s0.slot_of(b);
            assert(s0.data@[i].meta.addr == b);
            if i == slot as int {
                assert(b == a);
            } else {
                assert(s1.data@[i] == s0.data@[i]);
            }
        }
    }
}

} // verus!