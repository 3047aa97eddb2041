use vstd::prelude::*;

verus! {

/// The admission cap: at most this many payload bytes await a response at once.
pub const MAX_BYTES_IN_FLIGHT: u32 = 8 * 1024 * 1024;

/// One logical decompilation request. `id` names the receipt through which its
/// outcome is delivered.
pub struct DecompilationRequest {
    pub id: u64,
    pub bytecode: Vec<u8>,
    pub bytecode_hash: String,
    pub bytecode_len: u32,
}

/// Requests that share one fingerprint and were sent as one network submission.
pub struct PendingGroup {
    pub hash: String,
    pub members: Vec<u64>,
    pub size: u32,
}

/// What the event loop around the client must do.
pub enum ClientAction {
    /// Send one decompile message holding `bytecode`.
    Submit { bytecode: Vec<u8>, hash: String },
    /// Fulfil the receipt `id` with `outcome`.
    Resolve { id: u64, outcome: Result<String, String> },
    /// Fulfil the receipt `id` with a size-limit error: `size` alone exceeds the cap.
    RejectTooLarge { id: u64, size: u32 },
}

/// An open group as the contracts see it: fingerprint, receipt ids, byte cost.
pub ghost struct GroupView {
    pub hash: Seq<char>,
    pub members: Seq<u64>,
    pub size: nat,
}

impl View for PendingGroup {
    type V = GroupView;

    open spec fn view(&self) -> GroupView {
        GroupView { hash: self.hash@, members: self.members@, size: self.size as nat }
    }
}

/// The client as the contracts see it: open groups in the order they opened, the
/// deferral queue, and the in-flight byte budget.
pub ghost struct ClientView {
    pub groups: Seq<GroupView>,
    pub queue: Seq<DecompilationRequest>,
    pub in_flight: nat,
}

/// The sum of the byte costs of `gs`.
pub open spec fn group_bytes(gs: Seq<GroupView>) -> nat
    decreases gs.len(),
{
    if gs.len() == 0 {
        0
    } else {
        group_bytes(gs.drop_last()) + gs.last().size
    }
}

/// Some open group carries fingerprint `h`.
pub open spec fn has_group(gs: Seq<GroupView>, h: Seq<char>) -> bool {
    exists|i: int| 0 <= i < gs.len() && gs[i].hash == h
}

/// The position of the open group with fingerprint `h`.
pub open spec fn group_index(gs: Seq<GroupView>, h: Seq<char>) -> int {
    choose|i: int| 0 <= i < gs.len() && gs[i].hash == h
}

/// No two open groups share a fingerprint.
pub open spec fn hashes_unique(gs: Seq<GroupView>) -> bool {
    forall|i: int, j: int| 0 <= i < gs.len() && 0 <= j < gs.len() && i != j ==> gs[i].hash != gs[j].hash
}

/// The state invariant: the budget is the sum of the open groups' costs and within
/// the cap, fingerprints of open groups are unique, and nothing held is over the cap.
pub open spec fn client_wf(c: ClientView) -> bool {
    &&& c.in_flight == group_bytes(c.groups)
    &&& c.in_flight <= MAX_BYTES_IN_FLIGHT
    &&& hashes_unique(c.groups)
    &&& forall|i: int| 0 <= i < c.groups.len() ==> #[trigger] c.groups[i].size <= MAX_BYTES_IN_FLIGHT
    &&& forall|i: int| 0 <= i < c.queue.len() ==> #[trigger] c.queue[i].bytecode_len <= MAX_BYTES_IN_FLIGHT
}

/// Group `i` with receipt `id` added to its members.
pub open spec fn join(gs: Seq<GroupView>, i: int, id: u64) -> Seq<GroupView> {
    gs.update(i, GroupView { members: gs[i].members.push(id), ..gs[i] })
}

/// A new group holding request `r` alone.
pub open spec fn new_group(r: DecompilationRequest) -> GroupView {
    GroupView { hash: r.bytecode_hash@, members: seq![r.id], size: r.bytecode_len as nat }
}

/// The submission that sends `r`.
pub open spec fn submit_action(r: DecompilationRequest) -> ClientAction {
    ClientAction::Submit { bytecode: r.bytecode, hash: r.bytecode_hash }
}

/// Admission of a new request: join an open group of the same fingerprint; else
/// reject it when it alone exceeds the cap; else defer it when it does not fit in
/// what is left of the budget; else send it as a new group.
pub open spec fn admission(c: ClientView, r: DecompilationRequest) -> (ClientView, Seq<ClientAction>) {
    if has_group(c.groups, r.bytecode_hash@) {
        (ClientView { groups: join(c.groups, group_index(c.groups, r.bytecode_hash@), r.id), ..c }, seq![])
    } else if r.bytecode_len > MAX_BYTES_IN_FLIGHT {
        (c, seq![ClientAction::RejectTooLarge { id: r.id, size: r.bytecode_len }])
    } else if c.in_flight + r.bytecode_len > MAX_BYTES_IN_FLIGHT {
        (ClientView { queue: c.queue.push(r), ..c }, seq![])
    } else {
        (
            ClientView {
                groups: c.groups.push(new_group(r)),
                in_flight: (c.in_flight + r.bytecode_len) as nat,
                ..c
            },
            seq![submit_action(r)],
        )
    }
}

/// The deferred requests `q` examined in order, first in first out: one whose
/// fingerprint has an open group joins it; one that fits is sent as a new group;
/// the rest stay deferred, in their order.
pub open spec fn drain(gs: Seq<GroupView>, in_flight: nat, q: Seq<DecompilationRequest>) -> (
    Seq<GroupView>,
    nat,
    Seq<DecompilationRequest>,
    Seq<ClientAction>,
)
    decreases q.len(),
{
    if q.len() == 0 {
        (gs, in_flight, seq![], seq![])
    } else {
        let (g, f, kept, acts) = drain(gs, in_flight, q.drop_last());
        let r = q.last();
        if has_group(g, r.bytecode_hash@) {
            (join(g, group_index(g, r.bytecode_hash@), r.id), f, kept, acts)
        } else if f + r.bytecode_len <= MAX_BYTES_IN_FLIGHT {
            (g.push(new_group(r)), (f + r.bytecode_len) as nat, kept, acts.push(submit_action(r)))
        } else {
            (g, f, kept.push(r), acts)
        }
    }
}

/// A response's flag and text as an outcome.
pub open spec fn outcome_of(success: bool, data: String) -> Result<String, String> {
    if success {
        Ok(data)
    } else {
        Err(data)
    }
}

/// One `Resolve` per member, in order, all with the same outcome.
pub open spec fn fan_out(members: Seq<u64>, outcome: Result<String, String>) -> Seq<ClientAction> {
    Seq::new(members.len(), |k: int| ClientAction::Resolve { id: members[k], outcome })
}

/// A response for fingerprint `h`: without an open group it is ignored; else the
/// group closes, its cost leaves the budget, its outcome goes to every member, and
/// the deferred requests are drained.
pub open spec fn respond(c: ClientView, success: bool, data: String, h: Seq<char>) -> (
    ClientView,
    Seq<ClientAction>,
) {
    if !has_group(c.groups, h) {
        (c, seq![])
    } else {
        let i = group_index(c.groups, h);
        let (g, f, kept, acts) = drain(c.groups.remove(i), (c.in_flight - c.groups[i].size) as nat, c.queue);
        (
            ClientView { groups: g, in_flight: f, queue: kept },
            fan_out(c.groups[i].members, outcome_of(success, data)) + acts,
        )
    }
}

/// The multiplexing protocol client: open groups keyed by fingerprint, the deferral
/// queue, and the in-flight byte budget.
pub struct ProtocolClient {
    pending: Vec<PendingGroup>,
    queue: Vec<DecompilationRequest>,
    in_flight: u32,
}

impl View for ProtocolClient {
    type V = ClientView;

    closed spec fn view(&self) -> ClientView {
        ClientView {
            groups: self.pending@.map_values(|g: PendingGroup| g@),
            queue: self.queue@,
            in_flight: self.in_flight as nat,
        }
    }
}

proof fn lemma_group_bytes_push(gs: Seq<GroupView>, g: GroupView)
    ensures
        group_bytes(gs.push(g)) == group_bytes(gs) + g.size,
{
    assert(gs.push(g).drop_last() =~= gs);
}

proof fn lemma_group_bytes_remove(gs: Seq<GroupView>, i: int)
    requires
        0 <= i < gs.len(),
    ensures
        group_bytes(gs.remove(i)) + gs[i].size == group_bytes(gs),
    decreases gs.len(),
{
    if i == gs.len() - 1 {
        assert(gs.remove(i) =~= gs.drop_last());
    } else {
        lemma_group_bytes_remove(gs.drop_last(), i);
        assert(gs.remove(i).drop_last() =~= gs.drop_last().remove(i));
    }
}

proof fn lemma_group_bytes_join(gs: Seq<GroupView>, i: int, id: u64)
    requires
        0 <= i < gs.len(),
    ensures
        group_bytes(join(gs, i, id)) == group_bytes(gs),
    decreases gs.len(),
{
    if i == gs.len() - 1 {
        assert(join(gs, i, id).drop_last() =~= gs.drop_last());
    } else {
        lemma_group_bytes_join(gs.drop_last(), i, id);
        assert(join(gs, i, id).drop_last() =~= join(gs.drop_last(), i, id));
    }
}

proof fn lemma_group_index_unique(gs: Seq<GroupView>, i: int, h: Seq<char>)
    requires
        hashes_unique(gs),
        0 <= i < gs.len(),
        gs[i].hash == h,
    ensures
        has_group(gs, h),
        group_index(gs, h) == i,
{
    assert(has_group(gs, h));
}

proof fn lemma_join_keeps_wf(c: ClientView, i: int, id: u64)
    requires
        client_wf(c),
        0 <= i < c.groups.len(),
    ensures
        client_wf(ClientView { groups: join(c.groups, i, id), ..c }),
{
    lemma_group_bytes_join(c.groups, i, id);
    let gs = join(c.groups, i, id);
    assert forall|a: int, b: int| 0 <= a < gs.len() && 0 <= b < gs.len() && a != b implies gs[a].hash
        != gs[b].hash by {
        assert(gs[a].hash == c.groups[a].hash);
        assert(gs[b].hash == c.groups[b].hash);
    }
    assert forall|k: int| 0 <= k < gs.len() implies #[trigger] gs[k].size <= MAX_BYTES_IN_FLIGHT by {
        assert(gs[k].size == c.groups[k].size);
    }
}

proof fn lemma_push_keeps_wf(c: ClientView, r: DecompilationRequest)
    requires
        client_wf(c),
        !has_group(c.groups, r.bytecode_hash@),
        c.in_flight + r.bytecode_len <= MAX_BYTES_IN_FLIGHT,
    ensures
        client_wf(
            ClientView {
                groups: c.groups.push(new_group(r)),
                in_flight: (c.in_flight + r.bytecode_len) as nat,
                ..c
            },
        ),
{
    lemma_group_bytes_push(c.groups, new_group(r));
    let gs = c.groups.push(new_group(r));
    assert forall|a: int, b: int| 0 <= a < gs.len() && 0 <= b < gs.len() && a != b implies gs[a].hash
        != gs[b].hash by {
        if a < c.groups.len() && b < c.groups.len() {
        } else if a < c.groups.len() {
            assert(c.groups[a].hash != r.bytecode_hash@);
        } else {
            assert(c.groups[b].hash != r.bytecode_hash@);
        }
    }
    assert forall|k: int| 0 <= k < gs.len() implies #[trigger] gs[k].size <= MAX_BYTES_IN_FLIGHT by {
        if k < c.groups.len() {
            assert(gs[k] == c.groups[k]);
        }
    }
}

proof fn lemma_remove_keeps_wf(c: ClientView, i: int)
    requires
        client_wf(c),
        0 <= i < c.groups.len(),
    ensures
        client_wf(
            ClientView {
                groups: c.groups.remove(i),
                in_flight: (c.in_flight - c.groups[i].size) as nat,
                queue: seq![],
            },
        ),
        c.groups[i].size <= c.in_flight,
{
    lemma_group_bytes_remove(c.groups, i);
    let gs = c.groups.remove(i);
    assert forall|a: int, b: int| 0 <= a < gs.len() && 0 <= b < gs.len() && a != b implies gs[a].hash
        != gs[b].hash by {
        let a0 = if a < i { a } else { a + 1 };
        let b0 = if b < i { b } else { b + 1 };
        assert(gs[a] == c.groups[a0]);
        assert(gs[b] == c.groups[b0]);
    }
    assert forall|a: int| 0 <= a < gs.len() implies #[trigger] gs[a].size <= MAX_BYTES_IN_FLIGHT by {
        let a0 = if a < i { a } else { a + 1 };
        assert(gs[a] == c.groups[a0]);
    }
}

proof fn lemma_drain_wf(gs: Seq<GroupView>, f: nat, q: Seq<DecompilationRequest>)
    requires
        client_wf(ClientView { groups: gs, in_flight: f, queue: seq![] }),
        forall|i: int| 0 <= i < q.len() ==> #[trigger] q[i].bytecode_len <= MAX_BYTES_IN_FLIGHT,
    ensures
        client_wf(
            ClientView {
                groups: drain(gs, f, q).0,
                in_flight: drain(gs, f, q).1,
                queue: drain(gs, f, q).2,
            },
        ),
    decreases q.len(),
{
    if q.len() > 0 {
        let q0 = q.drop_last();
        assert forall|i: int| 0 <= i < q0.len() implies #[trigger] q0[i].bytecode_len
            <= MAX_BYTES_IN_FLIGHT by {
            assert(q0[i] == q[i]);
        }
        lemma_drain_wf(gs, f, q0);
        let (g, f1, kept, acts) = drain(gs, f, q0);
        let c = ClientView { groups: g, in_flight: f1, queue: kept };
        let r = q.last();
        assert(r.bytecode_len <= MAX_BYTES_IN_FLIGHT);
        if has_group(g, r.bytecode_hash@) {
            lemma_join_keeps_wf(c, group_index(g, r.bytecode_hash@), r.id);
        } else if f1 + r.bytecode_len <= MAX_BYTES_IN_FLIGHT {
            lemma_push_keeps_wf(c, r);
        } else {
            let k2 = kept.push(r);
            assert forall|i: int| 0 <= i < k2.len() implies #[trigger] k2[i].bytecode_len
                <= MAX_BYTES_IN_FLIGHT by {
                if i < kept.len() {
                    assert(k2[i] == kept[i]);
                    assert(c.queue[i].bytecode_len <= MAX_BYTES_IN_FLIGHT);
                } else {
                    assert(k2[i] == r);
                }
            }
        }
    }
}

/// The open groups' byte costs never sum past the cap: the invariant bounds them in
/// every state, and admitting a request or handling a response keeps the invariant.
pub proof fn lemma_budget_within_cap(
    c: ClientView,
    r: DecompilationRequest,
    success: bool,
    data: String,
    h: Seq<char>,
)
    requires
        client_wf(c),
    ensures
        group_bytes(c.groups) <= MAX_BYTES_IN_FLIGHT,
        client_wf(admission(c, r).0),
        client_wf(respond(c, success, data, h).0),
{
    if has_group(c.groups, r.bytecode_hash@) {
        lemma_join_keeps_wf(c, group_index(c.groups, r.bytecode_hash@), r.id);
    } else if r.bytecode_len > MAX_BYTES_IN_FLIGHT {
    } else if c.in_flight + r.bytecode_len > MAX_BYTES_IN_FLIGHT {
        let q2 = c.queue.push(r);
        assert forall|i: int| 0 <= i < q2.len() implies #[trigger] q2[i].bytecode_len
            <= MAX_BYTES_IN_FLIGHT by {
            if i < c.queue.len() {
                assert(q2[i] == c.queue[i]);
            }
        }
    } else {
        lemma_push_keeps_wf(c, r);
    }
    if has_group(c.groups, h) {
        let i = group_index(c.groups, h);
        lemma_remove_keeps_wf(c, i);
        lemma_drain_wf(c.groups.remove(i), (c.in_flight - c.groups[i].size) as nat, c.queue);
    }
}

/// A request whose size alone exceeds the cap is answered at once with a size-limit
/// rejection and leaves the state as it was; no open group and no deferred request
/// is ever over the cap.
pub proof fn lemma_oversized_rejected(c: ClientView, r: DecompilationRequest)
    requires
        client_wf(c),
        r.bytecode_len > MAX_BYTES_IN_FLIGHT,
        !has_group(c.groups, r.bytecode_hash@),
    ensures
        admission(c, r).0 == c,
        admission(c, r).1 == seq![ClientAction::RejectTooLarge { id: r.id, size: r.bytecode_len }],
        forall|i: int| 0 <= i < c.groups.len() ==> #[trigger] c.groups[i].size <= MAX_BYTES_IN_FLIGHT,
        forall|i: int| 0 <= i < c.queue.len() ==> #[trigger] c.queue[i].bytecode_len <= MAX_BYTES_IN_FLIGHT,
{
}

/// Two requests with one fingerprint: once the first is sent, the second joins its
/// group and causes no second submission.
pub proof fn lemma_shared_fingerprint_sent_once(
    c: ClientView,
    r1: DecompilationRequest,
    r2: DecompilationRequest,
)
    requires
        client_wf(c),
        r1.bytecode_hash@ == r2.bytecode_hash@,
        admission(c, r1).1 == seq![submit_action(r1)],
    ensures
        admission(admission(c, r1).0, r2).1 == Seq::<ClientAction>::empty(),
        admission(admission(c, r1).0, r2).0.queue == c.queue,
        admission(admission(c, r1).0, r2).0.groups.len() == c.groups.len() + 1,
        admission(admission(c, r1).0, r2).0.groups.last().members == seq![r1.id, r2.id],
        admission(admission(c, r1).0, r2).0.in_flight == c.in_flight + r1.bytecode_len,
{
    let c1 = admission(c, r1).0;
    let n = c.groups.len() as int;
    let a1 = admission(c, r1).1;
    assert(a1.len() == 1 && a1[0] is Submit);
    if has_group(c.groups, r1.bytecode_hash@) {
        assert(a1.len() == 0);
    } else if r1.bytecode_len > MAX_BYTES_IN_FLIGHT {
        assert(a1[0] is RejectTooLarge);
    } else if c.in_flight + r1.bytecode_len > MAX_BYTES_IN_FLIGHT {
        assert(a1.len() == 0);
    }
    lemma_push_keeps_wf(c, r1);
    lemma_group_index_unique(c1.groups, n, r2.bytecode_hash@);
    assert(seq![r1.id].push(r2.id) =~= seq![r1.id, r2.id]);
}

/// Every member of a group receives the same outcome when its response arrives:
/// the first actions fulfil the members, in order, with one value.
pub proof fn lemma_group_shares_outcome(c: ClientView, success: bool, data: String, h: Seq<char>)
    requires
        client_wf(c),
        has_group(c.groups, h),
    ensures
        ({
            let m = c.groups[group_index(c.groups, h)].members;
            let acts = respond(c, success, data, h).1;
            acts.len() >= m.len() && forall|k: int|
                0 <= k < m.len() ==> acts[k] == (ClientAction::Resolve {
                    id: m[k],
                    outcome: outcome_of(success, data),
                })
        }),
{
}

fn clone_outcome(o: &Result<String, String>) -> (r: Result<String, String>)
    ensures
        r == *o,
{
    match o {
        Ok(t) => Ok(t.clone()),
        Err(t) => Err(t.clone()),
    }
}

impl ProtocolClient {
    /// A client with no open group, an empty deferral queue and an empty budget.
    pub fn new() -> (r: ProtocolClient)
        ensures
            r@.groups.len() == 0,
            r@.queue.len() == 0,
            r@.in_flight == 0,
            client_wf(r@),
    {
        let r = ProtocolClient { pending: Vec::new(), queue: Vec::new(), in_flight: 0 };
        assert(r@.groups =~= Seq::<GroupView>::empty());
        r
    }

    /// The bytes that currently await a response.
    pub fn in_flight_bytes(&self) -> (r: u32)
        ensures
            r == self@.in_flight,
    {
        self.in_flight
    }

    /// The number of open groups.
    pub fn open_groups(&self) -> (r: usize)
        ensures
            r == self@.groups.len(),
    {
        self.pending.len()
    }

    /// The number of deferred requests.
    pub fn deferred(&self) -> (r: usize)
        ensures
            r == self@.queue.len(),
    {
        self.queue.len()
    }

    /// Whether nothing is open or deferred, so that the loop may end once no more
    /// requests can come.
    pub fn is_idle(&self) -> (r: bool)
        ensures
            r == (self@.groups.len() == 0 && self@.queue.len() == 0),
    {
        self.pending.len() == 0 && self.queue.len() == 0
    }

    fn find_group(&self, h: &String) -> (r: Option<usize>)
        requires
            client_wf(self@),
        ensures
            match r {
                Some(i) => i < self@.groups.len() && self@.groups[i as int].hash == h@ && has_group(
                    self@.groups,
                    h@,
                ) && group_index(self@.groups, h@) == i,
                None => !has_group(self@.groups, h@),
            },
    {
        let mut i: usize = 0;
        while i < self.pending.len()
            invariant
                i <= self@.groups.len(),
                client_wf(self@),
                self@.groups.len() == self.pending@.len(),
                forall|k: int| 0 <= k < i ==> self@.groups[k].hash != h@,
            decreases self.pending@.len() - i,
        {
            if self.pending[i].hash == *h {
                proof {
                    lemma_group_index_unique(self@.groups, i as int, h@);
                }
                return Some(i);
            }
            i = i + 1;
        }
        None
    }

    fn join_at(&mut self, i: usize, id: u64)
        requires
            i < old(self)@.groups.len(),
        ensures
            final(self)@ == (ClientView { groups: join(old(self)@.groups, i as int, id), ..old(self)@ }),
    {
        let mut g = self.pending.remove(i);
        g.members.push(id);
        self.pending.insert(i, g);
        assert(self@.groups =~= join(old(self)@.groups, i as int, id));
    }

    fn open_group(&mut self, req: DecompilationRequest) -> (a: ClientAction)
        requires
            client_wf(old(self)@),
            !has_group(old(self)@.groups, req.bytecode_hash@),
            old(self)@.in_flight + req.bytecode_len <= MAX_BYTES_IN_FLIGHT,
        ensures
            final(self)@ == (ClientView {
                groups: old(self)@.groups.push(new_group(req)),
                in_flight: (old(self)@.in_flight + req.bytecode_len) as nat,
                ..old(self)@
            }),
            a == submit_action(req),
            client_wf(final(self)@),
    {
        let hash = req.bytecode_hash.clone();
        let mut members: Vec<u64> = Vec::new();
        members.push(req.id);
        let g = PendingGroup { hash, members, size: req.bytecode_len };
        assert(g@ == new_group(req)) by {
            assert(g.members@ =~= seq![req.id]);
        }
        self.pending.push(g);
        self.in_flight = self.in_flight + req.bytecode_len;
        assert(self@.groups =~= old(self)@.groups.push(new_group(req)));
        proof {
            lemma_push_keeps_wf(old(self)@, req);
        }
        ClientAction::Submit { bytecode: req.bytecode, hash: req.bytecode_hash }
    }

    /// Hands a new request to the client. The actions say what to send and which
    /// receipts to fulfil now; a deferred or coalesced request yields none.
    pub fn submit(&mut self, req: DecompilationRequest) -> (actions: Vec<ClientAction>)
        requires
            client_wf(old(self)@),
        ensures
            client_wf(final(self)@),
            (final(self)@, actions@) == admission(old(self)@, req),
    {
        match self.find_group(&req.bytecode_hash) {
            Some(i) => {
                proof {
                    lemma_join_keeps_wf(self@, i as int, req.id);
                }
                self.join_at(i, req.id);
                Vec::new()
            },
            None => {
                if req.bytecode_len > MAX_BYTES_IN_FLIGHT {
                    let mut a: Vec<ClientAction> = Vec::new();
                    a.push(ClientAction::RejectTooLarge { id: req.id, size: req.bytecode_len });
                    assert(a@ =~= seq![ClientAction::RejectTooLarge { id: req.id, size: req.bytecode_len }]);
                    a
                } else if self.in_flight + req.bytecode_len > MAX_BYTES_IN_FLIGHT {
                    let ghost c = self@;
                    self.queue.push(req);
                    assert(self@ == (ClientView { queue: c.queue.push(req), ..c }));
                    Vec::new()
                } else {
                    let a = self.open_group(req);
                    let mut v: Vec<ClientAction> = Vec::new();
                    v.push(a);
                    assert(v@ =~= seq![submit_action(req)]);
                    v
                }
            },
        }
    }

    /// Handles a decompilation result for the fingerprint `input_hash`. The actions
    /// fulfil every member of the matching group with one outcome, then send what
    /// the freed budget admits from the deferral queue.
    pub fn on_response(&mut self, success: bool, data: String, input_hash: &String) -> (actions: Vec<
        ClientAction,
    >)
        requires
            client_wf(old(self)@),
        ensures
            client_wf(final(self)@),
            (final(self)@, actions@) == respond(old(self)@, success, data, input_hash@),
    {
        let ghost c = self@;
        match self.find_group(input_hash) {
            None => Vec::new(),
            Some(i) => {
                let g = self.pending.remove(i);
                proof {
                    lemma_group_bytes_remove(c.groups, i as int);
                    assert(self@.groups =~= c.groups.remove(i as int));
                }
                self.in_flight = self.in_flight - g.size;
                let outcome = if success {
                    Ok(data)
                } else {
                    Err(data)
                };
                let mut actions: Vec<ClientAction> = Vec::new();
                let mut k: usize = 0;
                while k < g.members.len()
                    invariant
                        k <= g.members@.len(),
                        outcome == outcome_of(success, data),
                        client_wf(c),
                        i < c.groups.len(),
                        g@ == c.groups[i as int],
                        self@.queue == c.queue,
                        self@.groups == c.groups.remove(i as int),
                        self@.in_flight + g.size == c.in_flight,
                        actions@ =~= fan_out(g.members@, outcome).subrange(0, k as int),
                    decreases g.members@.len() - k,
                {
                    actions.push(ClientAction::Resolve { id: g.members[k], outcome: clone_outcome(&outcome) });
                    k = k + 1;
                }
                assert(fan_out(g.members@, outcome).subrange(0, k as int) =~= fan_out(g.members@, outcome));
                proof {
                    let gs = c.groups.remove(i as int);
                    assert forall|a: int, b: int|
                        0 <= a < gs.len() && 0 <= b < gs.len() && a != b implies gs[a].hash
                        != gs[b].hash by {
                        let a0 = if a < i { a } else { a + 1 };
                        let b0 = if b < i { b } else { b + 1 };
                        assert(gs[a] == c.groups[a0]);
                        assert(gs[b] == c.groups[b0]);
                    }
                    assert forall|a: int| 0 <= a < gs.len() implies #[trigger] gs[a].size
                        <= MAX_BYTES_IN_FLIGHT by {
                        let a0 = if a < i { a } else { a + 1 };
                        assert(gs[a] == c.groups[a0]);
                    }
                }
                let mut sent = self.drain_queue();
                actions.append(&mut sent);
                actions
            },
        }
    }

    /// Drains the deferral queue in order against the current budget.
    fn drain_queue(&mut self) -> (sent: Vec<ClientAction>)
        requires
            old(self)@.in_flight == group_bytes(old(self)@.groups),
            old(self)@.in_flight <= MAX_BYTES_IN_FLIGHT,
            hashes_unique(old(self)@.groups),
            forall|i: int| 0 <= i < old(self)@.groups.len() ==> #[trigger] old(self)@.groups[i].size <= MAX_BYTES_IN_FLIGHT,
            forall|i: int| 0 <= i < old(self)@.queue.len() ==> #[trigger] old(self)@.queue[i].bytecode_len <= MAX_BYTES_IN_FLIGHT,
        ensures
            client_wf(final(self)@),
            (final(self)@.groups, final(self)@.in_flight, final(self)@.queue, sent@) == drain(
                old(self)@.groups,
                old(self)@.in_flight,
                old(self)@.queue,
            ),
    {
        let ghost g0 = self@.groups;
        let ghost f0 = self@.in_flight;
        let ghost q0 = self@.queue;
        let mut rest: Vec<DecompilationRequest> = Vec::new();
        core::mem::swap(&mut self.queue, &mut rest);
        let mut sent: Vec<ClientAction> = Vec::new();
        let ghost mut k: int = 0;
        assert(q0.subrange(0, 0) =~= Seq::<DecompilationRequest>::empty());
        assert(self@.queue =~= Seq::<DecompilationRequest>::empty());
        while rest.len() > 0
            invariant
                0 <= k <= q0.len(),
                rest@ == q0.subrange(k, q0.len() as int),
                client_wf(self@),
                (self@.groups, self@.in_flight, self@.queue, sent@) == drain(g0, f0, q0.subrange(0, k)),
                forall|i: int| 0 <= i < q0.len() ==> #[trigger] q0[i].bytecode_len <= MAX_BYTES_IN_FLIGHT,
            decreases rest@.len(),
        {
            let r = rest.remove(0);
            let ghost c = self@;
            proof {
                assert(r == q0[k]);
                assert(q0.subrange(0, k + 1).drop_last() =~= q0.subrange(0, k));
                assert(q0.subrange(0, k + 1).last() == q0[k]);
                assert(rest@ =~= q0.subrange(k + 1, q0.len() as int));
            }
            match self.find_group(&r.bytecode_hash) {
                Some(i) => {
                    proof {
                        lemma_join_keeps_wf(c, i as int, r.id);
                    }
                    self.join_at(i, r.id);
                },
                None => {
                    if self.in_flight + r.bytecode_len <= MAX_BYTES_IN_FLIGHT {
                        let a = self.open_group(r);
                        sent.push(a);
                    } else {
                        self.queue.push(r);
                        assert(self@ == (ClientView { queue: c.queue.push(r), ..c }));
                    }
                },
            }
            proof {
                k = k + 1;
            }
        }
        assert(q0.subrange(0, k) =~= q0);
        sent
    }
}

} // verus!
