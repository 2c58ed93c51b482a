//! The instruction tree locator: find every instruction, at any depth, whose
//! program identity equals a target program.

use vstd::prelude::*;
use crate::models::{
    clone_strings, lemma_views_concat, lemma_views_push, lemma_views_singleton, node_view,
    views_of, InstrNode, ReadOnlyInstruction,
};

verus! {

/// Concatenation of node sequences is associative.
proof fn lemma_nodes_assoc(a: Seq<InstrNode>, b: Seq<InstrNode>, c: Seq<InstrNode>)
    ensures
        (a + b) + c == a + (b + c),
{
    assert((a + b) + c =~= a + (b + c));
}

/// Every node of the forest, in depth-first order, whose program identity
/// equals `target`.  Descent never stops at a match: a matching node may
/// itself hold further matching descendants, which appear as entries of
/// their own.
pub open spec fn matches_in(nodes: Seq<InstrNode>, target: Seq<char>) -> Seq<InstrNode>
    decreases nodes,
{
    if nodes.len() == 0 {
        Seq::empty()
    } else {
        (if nodes[0].program_id == target {
            seq![nodes[0]]
        } else {
            Seq::empty()
        }) + matches_in(nodes[0].inner, target) + matches_in(
            nodes.subrange(1, nodes.len() as int),
            target,
        )
    }
}

/// Matching distributes over concatenation of forests.
proof fn lemma_matches_concat(a: Seq<InstrNode>, b: Seq<InstrNode>, target: Seq<char>)
    ensures
        matches_in(a + b, target) == matches_in(a, target) + matches_in(b, target),
    decreases a,
{
    if a.len() == 0 {
        assert(a + b =~= b);
        assert(matches_in(a, target) + matches_in(b, target) =~= matches_in(b, target));
    } else {
        let ab = a + b;
        assert(ab[0] == a[0]);
        assert(ab.subrange(1, ab.len() as int) =~= a.subrange(1, a.len() as int) + b);
        lemma_matches_concat(a.subrange(1, a.len() as int), b, target);
        let head = if a[0].program_id == target {
            seq![a[0]]
        } else {
            Seq::<InstrNode>::empty()
        };
        lemma_nodes_assoc(
            head + matches_in(a[0].inner, target),
            matches_in(a.subrange(1, a.len() as int), target),
            matches_in(b, target),
        );
    }
}

/// The matches of a one-node forest: the node itself if it matches, then
/// the matches inside it.
proof fn lemma_matches_singleton(n: InstrNode, target: Seq<char>)
    ensures
        matches_in(seq![n], target) == (if n.program_id == target {
            seq![n]
        } else {
            Seq::<InstrNode>::empty()
        }) + matches_in(n.inner, target),
{
    let s = seq![n];
    assert(s.subrange(1, 1) =~= Seq::<InstrNode>::empty());
    assert(matches_in(Seq::<InstrNode>::empty(), target) == Seq::<InstrNode>::empty());
    let head = if n.program_id == target {
        seq![n]
    } else {
        Seq::<InstrNode>::empty()
    };
    assert(head + matches_in(n.inner, target) + Seq::<InstrNode>::empty() =~= head
        + matches_in(n.inner, target));
}

/// Copy a forest of instruction trees, preserving its shape.
fn clone_instr_list(list: &Vec<ReadOnlyInstruction>) -> (r: Vec<ReadOnlyInstruction>)
    ensures
        views_of(r@) == views_of(list@),
    decreases *list,
{
    let mut r: Vec<ReadOnlyInstruction> = Vec::new();
    let mut i: usize = 0;
    while i < list.len()
        invariant
            i <= list@.len(),
            views_of(r@) == views_of(list@.take(i as int)),
        decreases list@.len() - i,
    {
        let e = &list[i];
        let inner = clone_instr_list(&e.inner_instructions);
        let node = ReadOnlyInstruction {
            program_id: e.program_id.clone(),
            data: e.data.clone(),
            accounts: clone_strings(&e.accounts),
            inner_instructions: inner,
        };
        proof {
            assert(node.accounts.deep_view() =~= e.accounts.deep_view());
            assert(node_view(node) == node_view(list@[i as int]));
            lemma_views_push(r@, node);
            assert(list@.take(i as int + 1) =~= list@.take(i as int).push(list@[i as int]));
            lemma_views_push(list@.take(i as int), list@[i as int]);
        }
        r.push(node);
        i = i + 1;
    }
    proof {
        assert(list@.take(list@.len() as int) =~= list@);
    }
    r
}

/// Copy one instruction tree, preserving its shape.
pub fn clone_instruction(i: &ReadOnlyInstruction) -> (r: ReadOnlyInstruction)
    ensures
        node_view(r) == node_view(*i),
{
    let r = ReadOnlyInstruction {
        program_id: i.program_id.clone(),
        data: i.data.clone(),
        accounts: clone_strings(&i.accounts),
        inner_instructions: clone_instr_list(&i.inner_instructions),
    };
    proof {
        assert(r.accounts.deep_view() =~= i.accounts.deep_view());
    }
    r
}

/// Append every match in the forest `list` to `out`, in depth-first order.
fn collect_matches(list: &Vec<ReadOnlyInstruction>, target: &String, out: &mut Vec<ReadOnlyInstruction>)
    ensures
        views_of(final(out)@) == views_of(old(out)@) + matches_in(views_of(list@), target@),
    decreases *list,
{
    proof {
        assert(views_of(list@.take(0)) =~= views_of(Seq::<ReadOnlyInstruction>::empty()));
        assert(views_of(out@) =~= views_of(out@) + matches_in(views_of(list@.take(0)), target@));
    }
    let mut i: usize = 0;
    while i < list.len()
        invariant
            i <= list@.len(),
            views_of(out@) == views_of(old(out)@) + matches_in(
                views_of(list@.take(i as int)),
                target@,
            ),
        decreases list@.len() - i,
    {
        let e = &list[i];
        let ghost pre = out@;
        if e.program_id == *target {
            let c = clone_instruction(e);
            proof {
                lemma_views_push(out@, c);
            }
            out.push(c);
        }
        collect_matches(&e.inner_instructions, target, out);
        proof {
            let n = node_view(list@[i as int]);
            let t = target@;
            assert(list@.take(i as int + 1) =~= list@.take(i as int).push(list@[i as int]));
            lemma_views_push(list@.take(i as int), list@[i as int]);
            lemma_matches_concat(views_of(list@.take(i as int)), seq![n], t);
            lemma_matches_singleton(n, t);
            let head = if n.program_id == t {
                seq![n]
            } else {
                Seq::<InstrNode>::empty()
            };
            if n.program_id != t {
                assert(head + matches_in(n.inner, t) =~= matches_in(n.inner, t));
                assert(views_of(pre) == views_of(old(out)@) + matches_in(
                    views_of(list@.take(i as int)),
                    t,
                ));
            }
            lemma_nodes_assoc(
                views_of(old(out)@),
                matches_in(views_of(list@.take(i as int)), t),
                head + matches_in(n.inner, t),
            );
            lemma_nodes_assoc(head, matches_in(n.inner, t), Seq::<InstrNode>::empty());
            assert(views_of(out@) =~= views_of(old(out)@) + matches_in(
                views_of(list@.take(i as int + 1)),
                t,
            ));
        }
        i = i + 1;
    }
    proof {
        assert(list@.take(list@.len() as int) =~= list@);
    }
}

/// Find every instruction, at any depth of the given instruction trees,
/// whose program identity equals `program_id`.  Matches found inside the
/// descendants of a non-matching — or matching — node are all collected,
/// in depth-first order.
pub fn find_all_instructions_by_program_id(
    instructions: Vec<ReadOnlyInstruction>,
    program_id: &str,
) -> (r: Vec<ReadOnlyInstruction>)
    ensures
        views_of(r@) == matches_in(views_of(instructions@), program_id@),
{
    let target: String = program_id.to_owned();
    let mut out: Vec<ReadOnlyInstruction> = Vec::new();
    collect_matches(&instructions, &target, &mut out);
    proof {
        assert(views_of(Seq::<ReadOnlyInstruction>::empty()) + matches_in(
            views_of(instructions@),
            target@,
        ) =~= matches_in(views_of(instructions@), program_id@));
    }
    out
}

} // verus!
