use vstd::prelude::*;
use sha2::Digest;

use crate::assembler::{Assembler, Output, Slot, fulfilled, pop_front, written};
use crate::bytes::{copy_range, occurs_at};
use crate::client::{
    ClientAction, ClientView, DecompilationRequest, ProtocolClient, admission, client_wf, respond,
};
use crate::payload::{lf_only, marker, split_payload, splits_at_marker};

verus! {

pub uninterp spec fn sha256_hex(b: Seq<u8>) -> Seq<char>;

/// Relies on sha2's `Sha256::digest`, printed in lower-case hex: the fingerprint
/// of a payload depends on its bytes alone.
#[verifier::external_body]
fn fingerprint(b: &[u8]) -> (r: String)
    ensures
        r@ == sha256_hex(b@),
{
    format!("{:x}", sha2::Sha256::digest(b))
}

/// A byte count as recorded in a request: lengths past `u32::MAX` stay at
/// `u32::MAX`, which is over the cap either way.
pub open spec fn clamp_len(n: nat) -> u32 {
    if n <= u32::MAX {
        n as u32
    } else {
        u32::MAX
    }
}

/// `r` is the request for payload `bytecode` under receipt `id`.
pub open spec fn request_matches(r: DecompilationRequest, bytecode: Seq<u8>, id: u64) -> bool {
    &&& r.id == id
    &&& r.bytecode@ == bytecode
    &&& r.bytecode_hash@ == sha256_hex(bytecode)
    &&& r.bytecode_len == clamp_len(bytecode.len())
}

/// Builds the request for one payload: its bytes, fingerprint and size.
pub fn request_for(bytecode: &[u8], id: u64) -> (r: DecompilationRequest)
    ensures
        request_matches(r, bytecode@, id),
{
    let bytecode_hash = fingerprint(bytecode);
    let n: usize = bytecode.len();
    let bytecode_len: u32 = if n <= u32::MAX as usize {
        n as u32
    } else {
        u32::MAX
    };
    let copy = copy_range(bytecode, 0, n);
    assert(bytecode@.subrange(0, n as int) =~= bytecode@);
    DecompilationRequest { id, bytecode: copy, bytecode_hash, bytecode_len }
}

/// The actions that leave the pipeline: all but the receipt fulfilments.
pub open spec fn outgoing(acts: Seq<ClientAction>) -> Seq<ClientAction>
    decreases acts.len(),
{
    if acts.len() == 0 {
        seq![]
    } else if acts.last() is Resolve {
        outgoing(acts.drop_last())
    } else {
        outgoing(acts.drop_last()).push(acts.last())
    }
}

/// The slots after each fulfilment among `acts` is delivered, in order.
pub open spec fn apply_resolves<T>(s: Seq<Slot<T>>, acts: Seq<ClientAction>) -> Seq<Slot<T>>
    decreases acts.len(),
{
    if acts.len() == 0 {
        s
    } else {
        let s1 = apply_resolves(s, acts.drop_last());
        match acts.last() {
            ClientAction::Resolve { id, outcome } => fulfilled(s1, id, outcome),
            _ => s1,
        }
    }
}

/// The streaming transform: each document item enters in order; payload nodes are
/// submitted to the protocol client and wait in the output as placeholders; outcomes
/// fill them; output leaves strictly in document order.
pub struct Pipeline<T> {
    output: Assembler<T>,
    client: ProtocolClient,
}

impl<T> Pipeline<T> {
    pub closed spec fn slots(&self) -> Seq<Slot<T>> {
        self.output.slots()
    }

    pub closed spec fn client_state(&self) -> ClientView {
        self.client@
    }

    pub closed spec fn next_id(&self) -> u64 {
        self.output.next_id()
    }

    pub closed spec fn wf(&self) -> bool {
        self.output.wf() && client_wf(self.client@)
    }

    pub fn new() -> (r: Self)
        ensures
            r.wf(),
            r.slots().len() == 0,
            r.next_id() == 0,
            r.client_state().groups.len() == 0,
            r.client_state().queue.len() == 0,
            r.client_state().in_flight == 0,
    {
        Pipeline { output: Assembler::new(), client: ProtocolClient::new() }
    }

    /// A structural item that is not a payload node: it is written unchanged.
    pub fn pass(&mut self, item: T)
        requires
            old(self).wf(),
        ensures
            final(self).wf(),
            final(self).slots() == old(self).slots().push(Slot::Pass(item)),
            final(self).client_state() == old(self).client_state(),
            final(self).next_id() == old(self).next_id(),
    {
        self.output.push_pass(item);
    }

    /// A text node `text`, which stands for the item `item`. Without the payload
    /// marker the item passes through; else a placeholder takes its place and its
    /// request goes to the client. Returns what must be sent or rejected.
    pub fn node(&mut self, text: &[u8], item: T) -> (out: Vec<ClientAction>)
        requires
            old(self).wf(),
            old(self).next_id() < u64::MAX,
        ensures
            final(self).wf(),
            (forall|j: int| !occurs_at(text@, marker(), j)) ==> {
                &&& final(self).slots() == old(self).slots().push(Slot::Pass(item))
                &&& final(self).client_state() == old(self).client_state()
                &&& final(self).next_id() == old(self).next_id()
                &&& out@.len() == 0
            },
            (exists|j: int| occurs_at(text@, marker(), j)) ==> exists|
                h: Vec<u8>,
                b: Vec<u8>,
                r: DecompilationRequest,
            |
                {
                    &&& splits_at_marker(text@, marker(), lf_only(), h@, b@)
                    &&& final(self).slots() == old(self).slots().push(
                        Slot::Placeholder { header: h, bytecode: b, id: old(self).next_id(), outcome: None },
                    )
                    &&& final(self).next_id() == old(self).next_id() + 1
                    &&& request_matches(r, b@, old(self).next_id())
                    &&& final(self).client_state() == admission(old(self).client_state(), r).0
                    &&& out@ == admission(old(self).client_state(), r).1
                },
    {
        match split_payload(text) {
            None => {
                self.output.push_pass(item);
                Vec::new()
            },
            Some(n) => {
                let r = request_for(n.bytecode.as_slice(), self.output.next_id_exec());
                let ghost h = n.header;
                let ghost b = n.bytecode;
                self.output.push_placeholder(n.header, n.bytecode);
                let out = self.client.submit(r);
                assert(splits_at_marker(text@, marker(), lf_only(), h@, b@));
                out
            },
        }
    }

    /// A response from the service: the outcome fills the placeholders of its
    /// group, and the returned actions are the submissions that the freed budget
    /// admits.
    pub fn response(&mut self, success: bool, data: String, input_hash: &String) -> (out: Vec<ClientAction>)
        requires
            old(self).wf(),
        ensures
            final(self).wf(),
            final(self).client_state() == respond(old(self).client_state(), success, data, input_hash@).0,
            final(self).slots() == apply_resolves(
                old(self).slots(),
                respond(old(self).client_state(), success, data, input_hash@).1,
            ),
            out@ == outgoing(respond(old(self).client_state(), success, data, input_hash@).1),
            final(self).next_id() == old(self).next_id(),
    {
        let mut acts = self.client.on_response(success, data, input_hash);
        let ghost all = acts@;
        let ghost s0 = self.output.slots();
        let mut out: Vec<ClientAction> = Vec::new();
        let ghost mut k: int = 0;
        assert(all.subrange(0, 0) =~= Seq::<ClientAction>::empty());
        while acts.len() > 0
            invariant
                0 <= k <= all.len(),
                acts@ == all.subrange(k, all.len() as int),
                self.output.wf(),
                client_wf(self.client@),
                self.output.slots() == apply_resolves(s0, all.subrange(0, k)),
                self.output.next_id() == old(self).next_id(),
                self.client@ == respond(old(self).client_state(), success, data, input_hash@).0,
                out@ == outgoing(all.subrange(0, k)),
            decreases acts@.len(),
        {
            let a = acts.remove(0);
            proof {
                assert(a == all[k]);
                assert(all.subrange(0, k + 1).drop_last() =~= all.subrange(0, k));
                assert(all.subrange(0, k + 1).last() == all[k]);
                assert(acts@ =~= all.subrange(k + 1, all.len() as int));
            }
            match a {
                ClientAction::Resolve { id, outcome } => {
                    self.output.fulfil(id, outcome);
                },
                other => {
                    out.push(other);
                },
            }
            proof {
                k = k + 1;
            }
        }
        assert(all.subrange(0, k) =~= all);
        out
    }

    /// Fulfils receipt `id` directly, as for a request rejected before sending.
    pub fn resolve(&mut self, id: u64, outcome: Result<String, String>) -> (found: bool)
        requires
            old(self).wf(),
        ensures
            final(self).wf(),
            final(self).slots() == fulfilled(old(self).slots(), id, outcome),
            final(self).client_state() == old(self).client_state(),
            final(self).next_id() == old(self).next_id(),
    {
        self.output.fulfil(id, outcome)
    }

    /// The next output in document order, if it can be written yet.
    pub fn next_output(&mut self) -> (r: Option<Output<T>>)
        requires
            old(self).wf(),
        ensures
            final(self).wf(),
            final(self).slots() == pop_front(old(self).slots()).0,
            match r {
                Some(o) => pop_front(old(self).slots()).1 == Some(written(o)),
                None => pop_front(old(self).slots()).1 is None,
            },
            final(self).client_state() == old(self).client_state(),
            final(self).next_id() == old(self).next_id(),
            final(self).resolved_count() == if r matches Some(Output::Text(_)) && old(self).resolved_count() < u64::MAX {
                old(self).resolved_count() + 1
            } else {
                old(self).resolved_count() as int
            },
    {
        self.output.pop_ready()
    }

    /// Whether all output is written and nothing is open or deferred.
    pub fn is_finished(&self) -> (r: bool)
        ensures
            r == (self.slots().len() == 0 && self.client_state().groups.len() == 0
                && self.client_state().queue.len() == 0),
    {
        self.output.is_empty() && self.client.is_idle()
    }

    /// The payload nodes discovered so far.
    pub fn discovered(&self) -> (r: u64)
        ensures
            r == self.next_id(),
    {
        self.output.next_id_exec()
    }

    /// The payload nodes written so far.
    pub closed spec fn resolved_count(&self) -> u64 {
        self.output.resolved_count()
    }

    /// The payload nodes written so far.
    pub fn resolved(&self) -> (r: u64)
        ensures
            r == self.resolved_count(),
    {
        self.output.resolved()
    }

    /// The bytes that currently await a response.
    pub fn in_flight_bytes(&self) -> (r: u32)
        ensures
            r == self.client_state().in_flight,
    {
        self.client.in_flight_bytes()
    }
}

} // verus!
