//! The canonical transaction record handed to consumers, and the ghost view
//! of its instruction tree that contracts are stated over.

use vstd::prelude::*;

verus! {

/// One instruction of a flattened transaction: program identity, payload in
/// its transport string form, the ordered account keys it references, and
/// the ordered instructions invoked during its execution, as a nested tree.
#[derive(Debug)]
pub struct ReadOnlyInstruction {
    pub program_id: String,
    pub data: String,
    pub accounts: Vec<String>,
    pub inner_instructions: Vec<ReadOnlyInstruction>,
}

/// One canonical, fully resolved transaction record: the first signer's
/// signature, the block timestamp, the log lines in order, the resolved
/// account key list, and the top-level instruction trees in order.
#[derive(Debug)]
pub struct ReadOnlyTransaction {
    pub signature: String,
    pub block_time: i64,
    pub log_messages: Vec<String>,
    pub accounts: Vec<String>,
    pub instructions: Vec<ReadOnlyInstruction>,
}

/// The mathematical shape of one instruction node: every string as a
/// sequence of characters, every list as a sequence.
pub struct InstrNode {
    pub program_id: Seq<char>,
    pub data: Seq<char>,
    pub accounts: Seq<Seq<char>>,
    pub inner: Seq<InstrNode>,
}

/// The shapes of a list of instruction trees, in order.
pub open spec fn views_of(s: Seq<ReadOnlyInstruction>) -> Seq<InstrNode>
    decreases s,
{
    if s.len() == 0 {
        Seq::empty()
    } else {
        seq![
            InstrNode {
                program_id: s[0].program_id@,
                data: s[0].data@,
                accounts: s[0].accounts.deep_view(),
                inner: views_of(s[0].inner_instructions@),
            }
        ] + views_of(s.subrange(1, s.len() as int))
    }
}

/// The shape of one instruction tree.
pub open spec fn node_view(i: ReadOnlyInstruction) -> InstrNode {
    InstrNode {
        program_id: i.program_id@,
        data: i.data@,
        accounts: i.accounts.deep_view(),
        inner: views_of(i.inner_instructions@),
    }
}

/// The shape of one transaction record.
pub open spec fn tx_view(t: ReadOnlyTransaction) -> (Seq<char>, int, Seq<Seq<char>>, Seq<Seq<char>>, Seq<InstrNode>) {
    (t.signature@, t.block_time as int, t.log_messages.deep_view(), t.accounts.deep_view(), views_of(t.instructions@))
}

/// Concatenation distributes over taking shapes.
pub proof fn lemma_views_concat(a: Seq<ReadOnlyInstruction>, b: Seq<ReadOnlyInstruction>)
    ensures
        views_of(a + b) == views_of(a) + views_of(b),
    decreases a,
{
    if a.len() == 0 {
        assert(a + b =~= b);
        assert(views_of(a) + views_of(b) =~= views_of(b));
    } else {
        let ab = a + b;
        assert(ab[0] == a[0]);
        assert(ab.subrange(1, ab.len() as int) =~= a.subrange(1, a.len() as int) + b);
        lemma_views_concat(a.subrange(1, a.len() as int), b);
        assert(views_of(ab) =~= views_of(a) + views_of(b));
    }
}

/// The shape of a one-element list is the one node's shape.
pub proof fn lemma_views_singleton(x: ReadOnlyInstruction)
    ensures
        views_of(seq![x]) == seq![node_view(x)],
{
    let s = seq![x];
    assert(s.subrange(1, 1) =~= Seq::<ReadOnlyInstruction>::empty());
    assert(views_of(Seq::<ReadOnlyInstruction>::empty()) == Seq::<InstrNode>::empty());
    assert(views_of(s) =~= seq![node_view(x)]);
}

/// Appending one tree appends its shape.
pub proof fn lemma_views_push(s: Seq<ReadOnlyInstruction>, x: ReadOnlyInstruction)
    ensures
        views_of(s.push(x)) == views_of(s) + seq![node_view(x)],
{
    assert(s.push(x) =~= s + seq![x]);
    lemma_views_concat(s, seq![x]);
    lemma_views_singleton(x);
}

/// A forest and its shape sequence have the same length, and corresponding
/// entries correspond.
pub proof fn lemma_views_index(s: Seq<ReadOnlyInstruction>)
    ensures
        views_of(s).len() == s.len(),
        forall|i: int| 0 <= i < s.len() ==> views_of(s)[i] == node_view(s[i]),
    decreases s,
{
    if s.len() > 0 {
        lemma_views_index(s.subrange(1, s.len() as int));
    }
}

/// Replacing one tree replaces its shape.
pub proof fn lemma_views_update(s: Seq<ReadOnlyInstruction>, i: int, x: ReadOnlyInstruction)
    requires
        0 <= i < s.len(),
    ensures
        views_of(s.update(i, x)) == views_of(s).update(i, node_view(x)),
{
    lemma_views_index(s);
    lemma_views_index(s.update(i, x));
    assert forall|j: int| 0 <= j < s.len() implies views_of(s.update(i, x))[j] == views_of(
        s,
    ).update(i, node_view(x))[j] by {
        if j != i {
            assert(s.update(i, x)[j] == s[j]);
        }
    }
    assert(views_of(s.update(i, x)) =~= views_of(s).update(i, node_view(x)));
}

/// Copy a list of strings.
pub fn clone_strings(v: &Vec<String>) -> (r: Vec<String>)
    ensures
        r@ == v@,
{
    let mut r: Vec<String> = Vec::new();
    let mut i: usize = 0;
    while i < v.len()
        invariant
            i <= v@.len(),
            r@ =~= v@.take(i as int),
        decreases v@.len() - i,
    {
        r.push(v[i].clone());
        proof {
            assert(r@ =~= v@.take(i as int + 1));
        }
        i = i + 1;
    }
    proof {
        assert(v@.take(v@.len() as int) =~= v@);
    }
    r
}

} // verus!
