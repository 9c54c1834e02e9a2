//! Calls into participants. A participant is reached through a caller-supplied
//! function that performs one call and reports its outcome. The library hands
//! every call to that function through [`Participants`], which keeps the
//! history of calls made and what each returned, so that contracts can say
//! exactly which calls an operation makes.
use vstd::prelude::*;
use crate::names::{entry_point, entry_point_name};
use crate::types::{copy_strings, ParticipantCall, TransactionOperation};

verus! {

/// One call handed to a participant, with what it returned.
pub type CallRecord = (ParticipantCall, Result<(), String>);

/// The participants of a transaction, reached through `invoke`.
pub struct Participants<F: Fn(ParticipantCall) -> Result<(), String>> {
    invoke: F,
    history: Ghost<Seq<CallRecord>>,
}

impl<F: Fn(ParticipantCall) -> Result<(), String>> Participants<F> {
    /// Every call made so far, in order, with its outcome.
    pub closed spec fn history(&self) -> Seq<CallRecord> {
        self.history@
    }

    /// The function that performs the calls.
    pub closed spec fn invoker(&self) -> F {
        self.invoke
    }

    /// Every call may be handed to the invoker.
    pub open spec fn ready(&self) -> bool {
        forall|c: ParticipantCall| call_requires(self.invoker(), (c,))
    }

    pub fn new(invoke: F) -> (r: Self)
        ensures
            r.history() == Seq::<CallRecord>::empty(),
            r.invoker() == invoke,
    {
        Participants { invoke, history: Ghost(Seq::empty()) }
    }

    /// Hands `c` to the invoker and records the call with its outcome.
    pub fn call(&mut self, c: ParticipantCall) -> (r: Result<(), String>)
        requires
            old(self).ready(),
        ensures
            final(self).history() == old(self).history().push((c, r)),
            final(self).invoker() == old(self).invoker(),
            call_ensures(old(self).invoker(), (c,), r),
    {
        let ghost recorded = c;
        assert(call_requires(self.invoker(), (c,)));
        let r = (self.invoke)(c);
        self.history = Ghost(self.history@.push((recorded, r)));
        r
    }
}

/// `c` is the call of `op`'s entry point under `prefix`, with `op`'s own
/// address and parameters.
pub open spec fn call_for(c: ParticipantCall, op: TransactionOperation, prefix: Seq<char>) -> bool {
    &&& c.contract_address@ == op.contract_address@
    &&& c.entry_point@ == entry_point_name(prefix, op.function_name@)
    &&& c.parameters@ == op.parameters@
}

/// The records that `new_h` adds to `old_h`.
pub open spec fn new_records(old_h: Seq<CallRecord>, new_h: Seq<CallRecord>) -> Seq<CallRecord> {
    new_h.subrange(old_h.len() as int, new_h.len() as int)
}

/// `new_h` is `old_h` followed by exactly one call per operation of `ops`,
/// in order, each the call of that operation's entry point under `prefix`,
/// each outcome one that `invoke` can return.
pub open spec fn appended_calls<F: Fn(ParticipantCall) -> Result<(), String>>(
    invoke: F,
    old_h: Seq<CallRecord>,
    new_h: Seq<CallRecord>,
    ops: Seq<TransactionOperation>,
    prefix: Seq<char>,
) -> bool {
    &&& new_h.len() == old_h.len() + ops.len()
    &&& new_h.subrange(0, old_h.len() as int) == old_h
    &&& forall|i: int|
        0 <= i < ops.len() ==> call_for((#[trigger] new_records(old_h, new_h)[i]).0, ops[i], prefix)
            && call_ensures(invoke, (new_records(old_h, new_h)[i].0,), new_records(old_h, new_h)[i].1)
}

/// Every call of `invoke` succeeds.
pub open spec fn never_fails<F: Fn(ParticipantCall) -> Result<(), String>>(invoke: F) -> bool {
    forall|c: ParticipantCall, out: Result<(), String>|
        #[trigger] call_ensures(invoke, (c,), out) ==> out is Ok
}

pub proof fn lemma_no_calls<F: Fn(ParticipantCall) -> Result<(), String>>(
    invoke: F,
    h: Seq<CallRecord>,
    prefix: Seq<char>,
)
    ensures
        appended_calls(invoke, h, h, Seq::<TransactionOperation>::empty(), prefix),
        new_records(h, h).len() == 0,
{
    assert(h.subrange(0, h.len() as int) =~= h);
}

/// Appending the call of the next operation extends `appended_calls` by one.
pub proof fn lemma_append_call<F: Fn(ParticipantCall) -> Result<(), String>>(
    invoke: F,
    old_h: Seq<CallRecord>,
    h: Seq<CallRecord>,
    ops: Seq<TransactionOperation>,
    m: int,
    prefix: Seq<char>,
    rec: CallRecord,
)
    requires
        0 <= m < ops.len(),
        appended_calls(invoke, old_h, h, ops.subrange(0, m), prefix),
        call_for(rec.0, ops[m], prefix),
        call_ensures(invoke, (rec.0,), rec.1),
    ensures
        appended_calls(invoke, old_h, h.push(rec), ops.subrange(0, m + 1), prefix),
        new_records(old_h, h.push(rec)) == new_records(old_h, h).push(rec),
{
    let nh = h.push(rec);
    assert(new_records(old_h, nh) =~= new_records(old_h, h).push(rec));
    assert(nh.subrange(0, old_h.len() as int) =~= h.subrange(0, old_h.len() as int));
    assert forall|i: int| 0 <= i < m + 1 implies call_for(
        (#[trigger] new_records(old_h, nh)[i]).0,
        ops.subrange(0, m + 1)[i],
        prefix,
    ) && call_ensures(invoke, (new_records(old_h, nh)[i].0,), new_records(old_h, nh)[i].1) by {
        if i < m {
            assert(new_records(old_h, nh)[i] == new_records(old_h, h)[i]);
            assert(ops.subrange(0, m)[i] == ops.subrange(0, m + 1)[i]);
        }
    }
}

/// A history that gained the call of a single operation gained exactly that
/// one record.
pub proof fn lemma_single_call<F: Fn(ParticipantCall) -> Result<(), String>>(
    invoke: F,
    h: Seq<CallRecord>,
    h2: Seq<CallRecord>,
    op: TransactionOperation,
    prefix: Seq<char>,
)
    requires
        appended_calls(invoke, h, h2, seq![op], prefix),
    ensures
        h2 == h.push(new_records(h, h2)[0]),
        call_for(new_records(h, h2)[0].0, op, prefix),
        call_ensures(invoke, (new_records(h, h2)[0].0,), new_records(h, h2)[0].1),
{
    assert(new_records(h, h2)[0] == h2[h.len() as int]);
    assert(h2 =~= h.push(new_records(h, h2)[0])) by {
        assert forall|i: int| 0 <= i < h.len() implies h2[i] == h[i] by {
            assert(h2.subrange(0, h.len() as int)[i] == h2[i]);
        }
    }
}

/// Builds the call of `op`'s entry point under `prefix`.
pub fn participant_call(prefix: &str, op: &TransactionOperation) -> (c: ParticipantCall)
    ensures
        call_for(c, *op, prefix@),
{
    ParticipantCall {
        contract_address: op.contract_address.clone(),
        entry_point: entry_point(prefix, &op.function_name),
        parameters: copy_strings(&op.parameters),
    }
}

} // verus!
