//! The transaction flattener: turn one upstream transaction record — in its
//! pre-parsed or raw shape — together with the resolved account key list and
//! the annotated inner-instruction lists into one canonical
//! [`ReadOnlyTransaction`] with a correctly nested call tree.

use vstd::prelude::*;
use crate::models::{
    clone_strings, lemma_views_index, lemma_views_push, lemma_views_update, node_view,
    tx_view, views_of, InstrNode, ReadOnlyInstruction, ReadOnlyTransaction,
};
use crate::resolver::{keys_at, spec_keys_at};
use vstd::std_specs::vec::vec_index_mut;

verus! {

/// One instruction of a raw-shape message: program and accounts are indices
/// into the resolved account key list.
#[derive(Clone, Debug, PartialEq)]
pub struct RawInstruction {
    pub program_id_index: u8,
    pub accounts: Vec<u8>,
    pub data: String,
}

/// One instruction of a pre-parsed message.
#[derive(Clone, Debug, PartialEq)]
pub enum ParsedInstruction {
    /// Program and accounts already given as keys; the payload is passed
    /// through verbatim.
    PartiallyDecoded { program_id: String, data: String, accounts: Vec<String> },
    /// Fully parsed by the transport: the payload is its canonical string
    /// form, and no account list is exposed.
    Parsed { program_id: String, json: String },
    /// A compiled instruction inside a pre-parsed message exposes nothing
    /// and yields no node.
    Compiled,
}

/// The two mutually exclusive upstream message shapes.
#[derive(Clone, Debug, PartialEq)]
pub enum TxMessage {
    Parsed { instructions: Vec<ParsedInstruction> },
    Raw { instructions: Vec<RawInstruction> },
}

/// One inner instruction, annotated with the stack height at which it
/// executed; heights start at 2, directly under a top-level instruction.
#[derive(Clone, Debug, PartialEq)]
pub struct InnerInstruction {
    pub program_id_index: u8,
    pub accounts: Vec<u8>,
    pub data: String,
    pub stack_height: Option<u32>,
}

/// The ordered inner instructions of one top-level instruction, named by its
/// position in the top-level list.
#[derive(Clone, Debug, PartialEq)]
pub struct InnerInstructionEntry {
    pub index: u8,
    pub instructions: Vec<InnerInstruction>,
}

/// One upstream transaction, reduced to the plain values the flattener
/// reads, plus the fully resolved account key list for index resolution.
#[derive(Debug)]
pub struct EncodedTransactionExtractor {
    pub block_time: Option<i64>,
    pub has_error: bool,
    pub signatures: Vec<String>,
    pub message: TxMessage,
    pub inner_instructions: Option<Vec<InnerInstructionEntry>>,
    pub log_messages: Option<Vec<String>>,
    pub accounts: Vec<String>,
}

/// The nodes of a pre-parsed instruction list, in order: partially decoded
/// instructions keep their accounts, fully parsed ones expose none, and
/// compiled ones are skipped.
pub open spec fn parsed_nodes(instrs: Seq<ParsedInstruction>) -> Seq<InstrNode>
    decreases instrs,
{
    if instrs.len() == 0 {
        Seq::empty()
    } else {
        (match instrs[0] {
            ParsedInstruction::PartiallyDecoded { program_id, data, accounts } => seq![
                InstrNode {
                    program_id: program_id@,
                    data: data@,
                    accounts: accounts.deep_view(),
                    inner: Seq::empty(),
                }
            ],
            ParsedInstruction::Parsed { program_id, json } => seq![
                InstrNode {
                    program_id: program_id@,
                    data: json@,
                    accounts: Seq::empty(),
                    inner: Seq::empty(),
                }
            ],
            ParsedInstruction::Compiled => Seq::empty(),
        }) + parsed_nodes(instrs.subrange(1, instrs.len() as int))
    }
}

/// The nodes of a raw instruction list: every program or account index is
/// resolved against the account key list, and any index out of range fails
/// the whole list.
pub open spec fn raw_nodes(instrs: Seq<RawInstruction>, accounts: Seq<Seq<char>>) -> Option<
    Seq<InstrNode>,
>
    decreases instrs,
{
    if instrs.len() == 0 {
        Some(Seq::empty())
    } else if instrs[0].program_id_index < accounts.len() {
        match spec_keys_at(accounts, instrs[0].accounts@) {
            Some(accs) => match raw_nodes(instrs.subrange(1, instrs.len() as int), accounts) {
                Some(rest) => Some(
                    seq![
                        InstrNode {
                            program_id: accounts[instrs[0].program_id_index as int],
                            data: instrs[0].data@,
                            accounts: accs,
                            inner: Seq::empty(),
                        }
                    ] + rest,
                ),
                None => None,
            },
            None => None,
        }
    } else {
        None
    }
}

/// The node of one inner instruction, resolved like a raw instruction.
pub open spec fn inner_node(ii: InnerInstruction, accounts: Seq<Seq<char>>) -> Option<InstrNode> {
    if ii.program_id_index < accounts.len() {
        match spec_keys_at(accounts, ii.accounts@) {
            Some(accs) => Some(
                InstrNode {
                    program_id: accounts[ii.program_id_index as int],
                    data: ii.data@,
                    accounts: accs,
                    inner: Seq::empty(),
                },
            ),
            None => None,
        }
    } else {
        None
    }
}

/// Attach `child` under the most recently appended descendant chain of `n`:
/// at depth 0 directly under `n`, else under the last child, `depth` steps
/// down.  Fails when the chain is shorter than `depth` — a skipped ancestor
/// has no defined recovery, so the transaction is failed rather than
/// repaired.
pub open spec fn attach_at(n: InstrNode, depth: nat, child: InstrNode) -> Option<InstrNode>
    decreases depth,
{
    if depth == 0 {
        Some(InstrNode { inner: n.inner.push(child), ..n })
    } else if n.inner.len() == 0 {
        None
    } else {
        match attach_at(n.inner.last(), (depth - 1) as nat, child) {
            Some(m) => Some(InstrNode { inner: n.inner.update(n.inner.len() - 1, m), ..n }),
            None => None,
        }
    }
}

/// The depth below the top-level instruction at which a nested instruction
/// of stack height `h` attaches.
pub open spec fn depth_of_height(h: u32) -> nat {
    if h <= 2 {
        0
    } else {
        (h - 2) as nat
    }
}

/// Apply one top-level entry's inner instructions, in supplied order, to the
/// top-level node at `index`.  An inner instruction without a stack height
/// yields no node; an unresolvable one fails the transaction.
pub open spec fn apply_inners(
    tops: Seq<InstrNode>,
    index: int,
    inners: Seq<InnerInstruction>,
    accounts: Seq<Seq<char>>,
) -> Option<Seq<InstrNode>>
    decreases inners,
{
    if inners.len() == 0 {
        Some(tops)
    } else {
        match inner_node(inners[0], accounts) {
            None => None,
            Some(child) => match inners[0].stack_height {
                None => apply_inners(tops, index, inners.subrange(1, inners.len() as int), accounts),
                Some(h) => if 0 <= index < tops.len() {
                    match attach_at(tops[index], depth_of_height(h), child) {
                        Some(m) => apply_inners(
                            tops.update(index, m),
                            index,
                            inners.subrange(1, inners.len() as int),
                            accounts,
                        ),
                        None => None,
                    }
                } else {
                    None
                },
            },
        }
    }
}

/// Apply every inner-instruction entry, in order, to the top-level nodes.
pub open spec fn apply_entries(
    tops: Seq<InstrNode>,
    entries: Seq<InnerInstructionEntry>,
    accounts: Seq<Seq<char>>,
) -> Option<Seq<InstrNode>>
    decreases entries,
{
    if entries.len() == 0 {
        Some(tops)
    } else if entries[0].index < tops.len() {
        match apply_inners(tops, entries[0].index as int, entries[0].instructions@, accounts) {
            Some(t2) => apply_entries(t2, entries.subrange(1, entries.len() as int), accounts),
            None => None,
        }
    } else {
        None
    }
}

/// The flattened instruction forest of one upstream transaction: the
/// top-level nodes of its message shape, with every annotated inner
/// instruction attached under its nearest open ancestor.
pub open spec fn spec_instructions(e: EncodedTransactionExtractor) -> Option<Seq<InstrNode>> {
    let tops = match e.message {
        TxMessage::Parsed { instructions } => Some(parsed_nodes(instructions@)),
        TxMessage::Raw { instructions } => raw_nodes(instructions@, e.accounts.deep_view()),
    };
    match tops {
        None => None,
        Some(t) => match e.inner_instructions {
            None => Some(t),
            Some(entries) => apply_entries(t, entries@, e.accounts.deep_view()),
        },
    }
}

/// The log lines of the record: copied verbatim in order if present, else
/// empty.
pub open spec fn spec_logs(o: Option<Vec<String>>) -> Seq<Seq<char>> {
    match o {
        Some(l) => l.deep_view(),
        None => Seq::empty(),
    }
}

/// The canonical record of one upstream transaction, or nothing: a
/// transaction carrying an execution error or lacking a block timestamp is
/// deliberately skipped, one with no signer or an unresolvable reference is
/// failed.
pub open spec fn spec_parse(e: EncodedTransactionExtractor) -> Option<
    (Seq<char>, int, Seq<Seq<char>>, Seq<Seq<char>>, Seq<InstrNode>),
> {
    if e.has_error {
        None
    } else {
        match e.block_time {
            None => None,
            Some(bt) => if e.signatures@.len() == 0 {
                None
            } else {
                match spec_instructions(e) {
                    None => None,
                    Some(nodes) => Some(
                        (
                            e.signatures@[0]@,
                            bt as int,
                            spec_logs(e.log_messages),
                            e.accounts.deep_view(),
                            nodes,
                        ),
                    ),
                }
            },
        }
    }
}

impl EncodedTransactionExtractor {
    /// Build one extractor over the plain values of an upstream transaction
    /// and its resolved account key list.
    pub fn new(
        block_time: Option<i64>,
        has_error: bool,
        signatures: Vec<String>,
        message: TxMessage,
        inner_instructions: Option<Vec<InnerInstructionEntry>>,
        log_messages: Option<Vec<String>>,
        accounts: Vec<String>,
    ) -> (r: Self)
        ensures
            r == (EncodedTransactionExtractor {
                block_time,
                has_error,
                signatures,
                message,
                inner_instructions,
                log_messages,
                accounts,
            }),
    {
        EncodedTransactionExtractor {
            block_time,
            has_error,
            signatures,
            message,
            inner_instructions,
            log_messages,
            accounts,
        }
    }

    /// The transaction identity: the first signer's signature, or nothing
    /// when the transaction has no signer.
    pub fn extract_signature(&self) -> (r: Option<String>)
        ensures
            match r {
                Some(s) => self.signatures@.len() > 0 && s@ == self.signatures@[0]@,
                None => self.signatures@.len() == 0,
            },
    {
        if self.signatures.len() > 0 {
            Some(self.signatures[0].clone())
        } else {
            None
        }
    }

    /// The fully resolved account key list this transaction was built
    /// with: static keys first, then pre-resolved lists, then looked-up
    /// writable and readonly keys, as the resolver ordered them.
    pub fn extract_accounts(&self) -> (r: Vec<String>)
        ensures
            r@ == self.accounts@,
    {
        clone_strings(&self.accounts)
    }

    /// The log lines, copied verbatim in order if present, else empty.
    pub fn extract_raw_logs(&self) -> (r: Vec<String>)
        ensures
            r.deep_view() == spec_logs(self.log_messages),
    {
        match &self.log_messages {
            Some(l) => {
                let r = clone_strings(l);
                proof {
                    assert(r.deep_view() =~= spec_logs(self.log_messages));
                }
                r
            }
            None => {
                let r: Vec<String> = Vec::new();
                proof {
                    assert(r.deep_view() =~= spec_logs(self.log_messages));
                }
                r
            }
        }
    }

    /// The flattened instruction forest, or nothing when an account
    /// reference cannot be resolved or an inner instruction names a deeper
    /// ancestor than the tree holds.
    pub fn extract_readonly_instructions(&self) -> (r: Option<Vec<ReadOnlyInstruction>>)
        ensures
            match r {
                Some(v) => spec_instructions(*self) == Some(views_of(v@)),
                None => spec_instructions(*self) is None,
            },
    {
        let tops_opt = match &self.message {
            TxMessage::Parsed { instructions } => Some(build_parsed_tops(instructions)),
            TxMessage::Raw { instructions } => build_raw_tops(instructions, &self.accounts),
        };
        match tops_opt {
            None => None,
            Some(mut tops) => {
                match &self.inner_instructions {
                    None => Some(tops),
                    Some(entries) => {
                        if apply_all_entries(&mut tops, entries, &self.accounts) {
                            Some(tops)
                        } else {
                            None
                        }
                    }
                }
            }
        }
    }

    /// The canonical record of this transaction.  A transaction marked with
    /// an execution error, or without a block timestamp, yields nothing
    /// before any extraction runs; so does one without a signer, and one
    /// whose references cannot be resolved.
    pub fn parse_readonly_transaction(&self) -> (r: Option<ReadOnlyTransaction>)
        ensures
            self.has_error ==> r is None,
            self.block_time is None ==> r is None,
            match r {
                Some(t) => spec_parse(*self) == Some(tx_view(t)),
                None => spec_parse(*self) is None,
            },
    {
        if self.has_error {
            return None;
        }
        let block_time = match self.block_time {
            Some(bt) => bt,
            None => {
                return None;
            }
        };
        let signature = match self.extract_signature() {
            Some(s) => s,
            None => {
                return None;
            }
        };
        let instructions = match self.extract_readonly_instructions() {
            Some(v) => v,
            None => {
                return None;
            }
        };
        let t = ReadOnlyTransaction {
            signature,
            block_time,
            log_messages: self.extract_raw_logs(),
            accounts: clone_strings(&self.accounts),
            instructions,
        };
        proof {
            assert(t.accounts.deep_view() =~= self.accounts.deep_view());
        }
        Some(t)
    }
}

/// Build the top-level nodes of a pre-parsed message.
fn build_parsed_tops(instructions: &Vec<ParsedInstruction>) -> (r: Vec<ReadOnlyInstruction>)
    ensures
        views_of(r@) == parsed_nodes(instructions@),
{
    let mut out: Vec<ReadOnlyInstruction> = Vec::new();
    let mut i: usize = 0;
    proof {
        assert(views_of(out@) =~= parsed_nodes(instructions@.take(0)));
    }
    while i < instructions.len()
        invariant
            i <= instructions@.len(),
            views_of(out@) == parsed_nodes(instructions@.take(i as int)),
        decreases instructions@.len() - i,
    {
        let ghost pre = out@;
        match &instructions[i] {
            ParsedInstruction::PartiallyDecoded { program_id, data, accounts } => {
                let node = ReadOnlyInstruction {
                    program_id: program_id.clone(),
                    data: data.clone(),
                    accounts: clone_strings(accounts),
                    inner_instructions: Vec::new(),
                };
                proof {
                    assert(node.accounts.deep_view() =~= accounts.deep_view());
                    lemma_views_push(pre, node);
                }
                out.push(node);
            }
            ParsedInstruction::Parsed { program_id, json } => {
                let node = ReadOnlyInstruction {
                    program_id: program_id.clone(),
                    data: json.clone(),
                    accounts: Vec::new(),
                    inner_instructions: Vec::new(),
                };
                proof {
                    assert(node.accounts.deep_view() =~= Seq::<Seq<char>>::empty());
                    lemma_views_push(pre, node);
                }
                out.push(node);
            }
            ParsedInstruction::Compiled => {}
        }
        proof {
            lemma_parsed_nodes_snoc(instructions@, i as int);
        }
        i = i + 1;
    }
    proof {
        assert(instructions@.take(instructions@.len() as int) =~= instructions@);
    }
    out
}

/// Taking one more instruction extends the node list by that instruction's
/// nodes.
proof fn lemma_parsed_nodes_snoc(s: Seq<ParsedInstruction>, i: int)
    requires
        0 <= i < s.len(),
    ensures
        parsed_nodes(s.take(i + 1)) == parsed_nodes(s.take(i)) + (match s[i] {
            ParsedInstruction::PartiallyDecoded { program_id, data, accounts } => seq![
                InstrNode {
                    program_id: program_id@,
                    data: data@,
                    accounts: accounts.deep_view(),
                    inner: Seq::empty(),
                }
            ],
            ParsedInstruction::Parsed { program_id, json } => seq![
                InstrNode {
                    program_id: program_id@,
                    data: json@,
                    accounts: Seq::empty(),
                    inner: Seq::empty(),
                }
            ],
            ParsedInstruction::Compiled => Seq::<InstrNode>::empty(),
        }),
    decreases i,
{
    if i == 0 {
        assert(s.take(1)[0] == s[0]);
        assert(s.take(1).subrange(1, 1) =~= Seq::<ParsedInstruction>::empty());
        assert(parsed_nodes(Seq::<ParsedInstruction>::empty()) == Seq::<InstrNode>::empty());
        assert(parsed_nodes(s.take(0)) == Seq::<InstrNode>::empty());
        assert(parsed_nodes(s.take(1)) =~= parsed_nodes(s.take(0)) + parsed_nodes(s.take(1)));
    } else {
        let a = s.take(i + 1);
        let b = s.take(i);
        assert(a[0] == s[0] && b[0] == s[0]);
        assert(a.subrange(1, a.len() as int) =~= s.subrange(1, s.len() as int).take(i));
        assert(b.subrange(1, b.len() as int) =~= s.subrange(1, s.len() as int).take(i - 1));
        lemma_parsed_nodes_snoc(s.subrange(1, s.len() as int), i - 1);
        assert(s.subrange(1, s.len() as int)[i - 1] == s[i]);
        assert(parsed_nodes(a) =~= parsed_nodes(b) + (match s[i] {
            ParsedInstruction::PartiallyDecoded { program_id, data, accounts } => seq![
                InstrNode {
                    program_id: program_id@,
                    data: data@,
                    accounts: accounts.deep_view(),
                    inner: Seq::empty(),
                }
            ],
            ParsedInstruction::Parsed { program_id, json } => seq![
                InstrNode {
                    program_id: program_id@,
                    data: json@,
                    accounts: Seq::empty(),
                    inner: Seq::empty(),
                }
            ],
            ParsedInstruction::Compiled => Seq::<InstrNode>::empty(),
        }));
    }
}

/// Build the top-level nodes of a raw message, resolving every index.
fn build_raw_tops(instructions: &Vec<RawInstruction>, accounts: &Vec<String>) -> (r: Option<
    Vec<ReadOnlyInstruction>,
>)
    ensures
        match r {
            Some(v) => raw_nodes(instructions@, accounts.deep_view()) == Some(views_of(v@)),
            None => raw_nodes(instructions@, accounts.deep_view()) is None,
        },
{
    let r = build_raw_tops_from(instructions, accounts, 0);
    proof {
        assert(instructions@.skip(0) =~= instructions@);
    }
    r
}

/// Build the nodes of the raw instructions from position `i` on.
fn build_raw_tops_from(
    instructions: &Vec<RawInstruction>,
    accounts: &Vec<String>,
    i: usize,
) -> (r: Option<Vec<ReadOnlyInstruction>>)
    requires
        i <= instructions@.len(),
    ensures
        match r {
            Some(v) => raw_nodes(instructions@.skip(i as int), accounts.deep_view()) == Some(
                views_of(v@),
            ),
            None => raw_nodes(instructions@.skip(i as int), accounts.deep_view()) is None,
        },
    decreases instructions@.len() - i,
{
    let ghost acc = accounts.deep_view();
    if i == instructions.len() {
        let v: Vec<ReadOnlyInstruction> = Vec::new();
        proof {
            assert(instructions@.skip(i as int) =~= Seq::<RawInstruction>::empty());
            assert(views_of(v@) =~= Seq::<InstrNode>::empty());
        }
        Some(v)
    } else {
        let ri = &instructions[i];
        let ghost rest_s = instructions@.skip(i as int);
        proof {
            assert(rest_s[0] == instructions@[i as int]);
            assert(rest_s.subrange(1, rest_s.len() as int) =~= instructions@.skip(i as int + 1));
        }
        let pid_idx = ri.program_id_index as usize;
        if pid_idx < accounts.len() {
            match keys_at(accounts, &ri.accounts) {
                Some(accs) => {
                    match build_raw_tops_from(instructions, accounts, i + 1) {
                        Some(mut rest) => {
                            let node = ReadOnlyInstruction {
                                program_id: accounts[pid_idx].clone(),
                                data: ri.data.clone(),
                                accounts: accs,
                                inner_instructions: Vec::new(),
                            };
                            proof {
                                assert(node.program_id@ == acc[pid_idx as int]);
                                assert(node_view(node) == (InstrNode {
                                    program_id: acc[ri.program_id_index as int],
                                    data: ri.data@,
                                    accounts: node.accounts.deep_view(),
                                    inner: Seq::empty(),
                                }));
                            }
                            let ghost rest_before = rest@;
                            rest.insert(0, node);
                            proof {
                                assert(rest@[0] == node);
                                assert(rest@.subrange(1, rest@.len() as int) =~= rest_before);
                                lemma_views_cons(rest@);
                            }
                            Some(rest)
                        }
                        None => None,
                    }
                }
                None => None,
            }
        } else {
            None
        }
    }
}

/// The shape of a nonempty forest is the head's shape followed by the
/// tail's shapes.
proof fn lemma_views_cons(s: Seq<ReadOnlyInstruction>)
    requires
        s.len() > 0,
    ensures
        views_of(s) == seq![node_view(s[0])] + views_of(s.subrange(1, s.len() as int)),
{
}

/// Attach `child` at the given depth under `node`'s most recently appended
/// descendant chain; on failure the node is left unchanged.
fn attach_inner(node: &mut ReadOnlyInstruction, depth: usize, child: ReadOnlyInstruction) -> (ok:
    bool)
    ensures
        match attach_at(node_view(*old(node)), depth as nat, node_view(child)) {
            Some(m) => ok && node_view(*final(node)) == m,
            None => !ok && node_view(*final(node)) == node_view(*old(node)),
        },
    decreases depth,
{
    if depth == 0 {
        proof {
            lemma_views_push(node.inner_instructions@, child);
            assert(views_of(node.inner_instructions@) + seq![node_view(child)] =~= views_of(
                node.inner_instructions@,
            ).push(node_view(child)));
        }
        node.inner_instructions.push(child);
        true
    } else {
        let n = node.inner_instructions.len();
        if n == 0 {
            false
        } else {
            let ghost before = node.inner_instructions@;
            let last = vec_index_mut(&mut node.inner_instructions, n - 1);
            let ok = attach_inner(last, depth - 1, child);
            proof {
                lemma_views_index(before);
                assert(views_of(before).last() == node_view(before[n - 1]));
                lemma_views_update(before, n - 1, *last);
                if !ok {
                    assert(views_of(before).update(n - 1, node_view(*last)) =~= views_of(before));
                }
            }
            ok
        }
    }
}

/// Apply one entry's inner instructions, in order, to the top-level node it
/// names.
fn apply_entry_inners(
    tops: &mut Vec<ReadOnlyInstruction>,
    index: usize,
    inners: &Vec<InnerInstruction>,
    accounts: &Vec<String>,
) -> (ok: bool)
    requires
        index < old(tops)@.len(),
    ensures
        final(tops)@.len() == old(tops)@.len(),
        match apply_inners(
            views_of(old(tops)@),
            index as int,
            inners@,
            accounts.deep_view(),
        ) {
            Some(t2) => ok && views_of(final(tops)@) == t2,
            None => !ok,
        },
{
    let ghost acc = accounts.deep_view();
    let mut j: usize = 0;
    proof {
        lemma_views_index(tops@);
        assert(inners@.skip(0) =~= inners@);
    }
    while j < inners.len()
        invariant
            j <= inners@.len(),
            index < tops@.len(),
            tops@.len() == old(tops)@.len(),
            acc == accounts.deep_view(),
            apply_inners(views_of(old(tops)@), index as int, inners@, acc) == apply_inners(
                views_of(tops@),
                index as int,
                inners@.skip(j as int),
                acc,
            ),
        decreases inners@.len() - j,
    {
        let ii = &inners[j];
        let ghost rest_s = inners@.skip(j as int);
        proof {
            assert(rest_s[0] == inners@[j as int]);
            assert(rest_s.subrange(1, rest_s.len() as int) =~= inners@.skip(j as int + 1));
            lemma_views_index(tops@);
        }
        let pid_idx = ii.program_id_index as usize;
        if pid_idx >= accounts.len() {
            return false;
        }
        let accs = match keys_at(accounts, &ii.accounts) {
            Some(a) => a,
            None => {
                return false;
            }
        };
        let child = ReadOnlyInstruction {
            program_id: accounts[pid_idx].clone(),
            data: ii.data.clone(),
            accounts: accs,
            inner_instructions: Vec::new(),
        };
        proof {
            assert(node_view(child) == inner_node(inners@[j as int], acc).unwrap());
        }
        match ii.stack_height {
            None => {}
            Some(h) => {
                let depth: usize = if h <= 2 {
                    0
                } else {
                    (h - 2) as usize
                };
                let ghost tops_before = tops@;
                let target = vec_index_mut(tops, index);
                let ok = attach_inner(target, depth, child);
                proof {
                    lemma_views_index(tops_before);
                    lemma_views_update(tops_before, index as int, *target);
                }
                if !ok {
                    proof {
                        assert(views_of(tops@) =~= views_of(tops_before));
                    }
                    return false;
                }
            }
        }
        j = j + 1;
    }
    proof {
        assert(inners@.skip(inners@.len() as int) =~= Seq::<InnerInstruction>::empty());
    }
    true
}

/// Apply every inner-instruction entry, in order.
fn apply_all_entries(
    tops: &mut Vec<ReadOnlyInstruction>,
    entries: &Vec<InnerInstructionEntry>,
    accounts: &Vec<String>,
) -> (ok: bool)
    ensures
        match apply_entries(views_of(old(tops)@), entries@, accounts.deep_view()) {
            Some(t2) => ok && views_of(final(tops)@) == t2,
            None => !ok,
        },
{
    let ghost acc = accounts.deep_view();
    let mut e: usize = 0;
    proof {
        assert(entries@.skip(0) =~= entries@);
    }
    while e < entries.len()
        invariant
            e <= entries@.len(),
            acc == accounts.deep_view(),
            apply_entries(views_of(old(tops)@), entries@, acc) == apply_entries(
                views_of(tops@),
                entries@.skip(e as int),
                acc,
            ),
        decreases entries@.len() - e,
    {
        let entry = &entries[e];
        let ghost rest_s = entries@.skip(e as int);
        proof {
            assert(rest_s[0] == entries@[e as int]);
            assert(rest_s.subrange(1, rest_s.len() as int) =~= entries@.skip(e as int + 1));
            lemma_views_index(tops@);
        }
        let index = entry.index as usize;
        if index >= tops.len() {
            return false;
        }
        let ok = apply_entry_inners(tops, index, &entry.instructions, accounts);
        if !ok {
            return false;
        }
        e = e + 1;
    }
    proof {
        assert(entries@.skip(entries@.len() as int) =~= Seq::<InnerInstructionEntry>::empty());
    }
    true
}

} // verus!
