use vstd::prelude::*;
use std::collections::VecDeque;

use crate::payload::{render_resolution, rendered};

verus! {

/// A position in the output, in document order: a structural item passed through
/// as it came, or a payload node that waits for the outcome of its receipt `id`.
pub enum Slot<T> {
    Pass(T),
    Placeholder { header: Vec<u8>, bytecode: Vec<u8>, id: u64, outcome: Option<Result<String, String>> },
}

/// What the assembler hands out for writing.
pub enum Output<T> {
    Pass(T),
    Text(Vec<u8>),
}

/// The content of an `Output`: the item, or the bytes of a rendered node.
pub ghost enum Written<T> {
    Pass(T),
    Text(Seq<u8>),
}

pub open spec fn written<T>(o: Output<T>) -> Written<T> {
    match o {
        Output::Pass(t) => Written::Pass(t),
        Output::Text(b) => Written::Text(b@),
    }
}

pub open spec fn is_placeholder<T>(s: Slot<T>) -> bool {
    s is Placeholder
}

/// A slot can be written: a pass-through item, or a placeholder whose receipt is
/// fulfilled.
pub open spec fn ready<T>(s: Slot<T>) -> bool {
    match s {
        Slot::Pass(_) => true,
        Slot::Placeholder { outcome, .. } => outcome is Some,
    }
}

/// What a ready slot writes: the item itself, or the node rendered with its outcome.
pub open spec fn emit<T>(s: Slot<T>) -> Written<T> {
    match s {
        Slot::Pass(t) => Written::Pass(t),
        Slot::Placeholder { header, bytecode, outcome, .. } => Written::Text(
            rendered(header@, bytecode@, outcome.unwrap()),
        ),
    }
}

/// One step of writing: the front slot goes out if it is ready; nothing else ever does.
pub open spec fn pop_front<T>(s: Seq<Slot<T>>) -> (Seq<Slot<T>>, Option<Written<T>>) {
    if s.len() > 0 && ready(s[0]) {
        (s.drop_first(), Some(emit(s[0])))
    } else {
        (s, None)
    }
}

/// Up to `n` steps of writing, stopping at the first slot that is not ready.
pub open spec fn pops<T>(s: Seq<Slot<T>>, n: nat) -> (Seq<Slot<T>>, Seq<Written<T>>)
    decreases n,
{
    if n == 0 {
        (s, seq![])
    } else {
        let (s1, o) = pop_front(s);
        match o {
            Some(x) => {
                let (s2, os) = pops(s1, (n - 1) as nat);
                (s2, seq![x] + os)
            },
            None => (s, seq![]),
        }
    }
}

pub open spec fn holds_id<T>(s: Slot<T>, id: u64) -> bool {
    match s {
        Slot::Placeholder { id: i, .. } => i == id,
        Slot::Pass(_) => false,
    }
}

pub open spec fn awaits<T>(s: Slot<T>, id: u64) -> bool {
    match s {
        Slot::Placeholder { id: i, outcome, .. } => i == id && outcome is None,
        Slot::Pass(_) => false,
    }
}

/// Receipt ids of the placeholders are unique and below `next`.
pub open spec fn slots_wf<T>(s: Seq<Slot<T>>, next: u64) -> bool {
    &&& forall|k: int, id: u64| 0 <= k < s.len() && #[trigger] holds_id(s[k], id) ==> id < next
    &&& forall|a: int, b: int, id: u64|
        0 <= a < s.len() && 0 <= b < s.len() && #[trigger] holds_id(s[a], id) && #[trigger] holds_id(s[b], id) ==> a == b
}

pub open spec fn fill<T>(s: Slot<T>, o: Result<String, String>) -> Slot<T> {
    match s {
        Slot::Placeholder { header, bytecode, id, .. } => Slot::Placeholder {
            header,
            bytecode,
            id,
            outcome: Some(o),
        },
        Slot::Pass(t) => Slot::Pass(t),
    }
}

/// Fulfilling receipt `id`: the placeholder that awaits it takes the outcome; any
/// other id changes nothing.
pub open spec fn fulfilled<T>(s: Seq<Slot<T>>, id: u64, o: Result<String, String>) -> Seq<Slot<T>> {
    if exists|k: int| 0 <= k < s.len() && awaits(s[k], id) {
        let k = choose|k: int| 0 <= k < s.len() && awaits(s[k], id);
        s.update(k, fill(s[k], o))
    } else {
        s
    }
}

/// Output order is document order: while the slot at position `j` waits for its
/// receipt, no run of writing hands out it or anything behind it, whatever receipts
/// behind it are already fulfilled.
pub proof fn lemma_written_in_order<T>(s: Seq<Slot<T>>, n: nat, j: int)
    requires
        0 <= j < s.len(),
        !ready(s[j]),
    ensures
        pops(s, n).1.len() <= j,
        pops(s, n).0.len() == s.len() - pops(s, n).1.len(),
        pops(s, n).0 == s.subrange(pops(s, n).1.len() as int, s.len() as int),
    decreases n,
{
    if n > 0 && ready(s[0]) {
        let s1 = s.drop_first();
        assert(s1[j - 1] == s[j]);
        lemma_written_in_order(s1, (n - 1) as nat, j - 1);
        let m: int = pops(s1, (n - 1) as nat).1.len() as int;
        assert(s1.subrange(m, s1.len() as int) =~= s.subrange(m + 1, s.len() as int));
    } else {
        assert(s.subrange(0, s.len() as int) =~= s);
    }
}

/// Once every slot can be written, writing hands out every slot exactly once, in
/// order: each pass-through item unchanged, and each payload node as one rendered
/// resolution.
pub proof fn lemma_all_written<T>(s: Seq<Slot<T>>)
    requires
        forall|k: int| 0 <= k < s.len() ==> ready(#[trigger] s[k]),
    ensures
        pops(s, s.len()).0.len() == 0,
        pops(s, s.len()).1 == s.map_values(|x: Slot<T>| emit(x)),
        forall|k: int|
            0 <= k < s.len() ==> (pops(s, s.len()).1[k] is Text <==> is_placeholder(#[trigger] s[k])),
        forall|k: int|
            0 <= k < s.len() && (#[trigger] s[k]) is Pass ==> pops(s, s.len()).1[k] == Written::Pass(
                s[k]->Pass_0,
            ),
    decreases s.len(),
{
    if s.len() > 0 {
        let s1 = s.drop_first();
        assert forall|k: int| 0 <= k < s1.len() implies ready(#[trigger] s1[k]) by {
            assert(s1[k] == s[k + 1]);
        }
        lemma_all_written(s1);
        assert(ready(s[0]));
        assert(pops(s, s.len()).1 == seq![emit(s[0])] + pops(s1, s1.len()).1);
        assert(pops(s, s.len()).1 =~= s.map_values(|x: Slot<T>| emit(x)));
    } else {
        assert(pops(s, s.len()).1 =~= s.map_values(|x: Slot<T>| emit(x)));
    }
}

/// The ordered output queue: slots are written strictly in the order they were
/// pushed, whatever order their receipts are fulfilled in.
pub struct Assembler<T> {
    slots: VecDeque<Slot<T>>,
    next_id: u64,
    resolved: u64,
}

impl<T> Assembler<T> {
    pub closed spec fn slots(&self) -> Seq<Slot<T>> {
        self.slots@
    }

    pub closed spec fn next_id(&self) -> u64 {
        self.next_id
    }

    /// The number of payload nodes written so far.
    pub closed spec fn resolved_count(&self) -> u64 {
        self.resolved
    }

    pub open spec fn wf(&self) -> bool {
        slots_wf(self.slots(), self.next_id())
    }

    pub fn new() -> (r: Self)
        ensures
            r.wf(),
            r.slots().len() == 0,
            r.next_id() == 0,
            r.resolved_count() == 0,
    {
        Assembler { slots: VecDeque::new(), next_id: 0, resolved: 0 }
    }

    /// Appends a structural item that is written unchanged.
    pub fn push_pass(&mut self, item: T)
        requires
            old(self).wf(),
        ensures
            final(self).wf(),
            final(self).slots() == old(self).slots().push(Slot::Pass(item)),
            final(self).next_id() == old(self).next_id(),
            final(self).resolved_count() == old(self).resolved_count(),
    {
        self.slots.push_back(Slot::Pass(item));
        assert forall|k: int, id: u64| 0 <= k < self.slots@.len() && #[trigger] holds_id(self.slots@[k], id) implies id < self.next_id by {
            assert(k < old(self).slots@.len());
        }
        assert forall|a: int, b: int, id: u64|
            0 <= a < self.slots@.len() && 0 <= b < self.slots@.len() && #[trigger] holds_id(self.slots@[a], id) && #[trigger] holds_id(self.slots@[b], id) implies a == b by {
            assert(a < old(self).slots@.len() && b < old(self).slots@.len());
            assert(self.slots@[a] == old(self).slots@[a]);
            assert(self.slots@[b] == old(self).slots@[b]);
        }
    }

    /// Appends a payload node that waits for a receipt; returns that receipt's id.
    pub fn push_placeholder(&mut self, header: Vec<u8>, bytecode: Vec<u8>) -> (id: u64)
        requires
            old(self).wf(),
            old(self).next_id() < u64::MAX,
        ensures
            final(self).wf(),
            id == old(self).next_id(),
            final(self).next_id() == id + 1,
            final(self).slots() == old(self).slots().push(
                Slot::Placeholder { header, bytecode, id, outcome: None },
            ),
            final(self).resolved_count() == old(self).resolved_count(),
    {
        let id = self.next_id;
        self.slots.push_back(Slot::Placeholder { header, bytecode, id, outcome: None });
        self.next_id = self.next_id + 1;
        assert forall|k: int, i: u64| 0 <= k < self.slots@.len() && #[trigger] holds_id(self.slots@[k], i) implies i < self.next_id by {
            if k < old(self).slots@.len() {
                assert(self.slots@[k] == old(self).slots@[k]);
            }
        }
        assert forall|a: int, b: int, i: u64|
            0 <= a < self.slots@.len() && 0 <= b < self.slots@.len() && #[trigger] holds_id(self.slots@[a], i) && #[trigger] holds_id(self.slots@[b], i) implies a == b by {
            let n = old(self).slots@.len();
            if a < n {
                assert(self.slots@[a] == old(self).slots@[a]);
            }
            if b < n {
                assert(self.slots@[b] == old(self).slots@[b]);
            }
        }
        id
    }

    /// Delivers the outcome of receipt `id`. Returns whether a placeholder awaited it.
    pub fn fulfil(&mut self, id: u64, outcome: Result<String, String>) -> (found: bool)
        requires
            old(self).wf(),
        ensures
            final(self).wf(),
            found == exists|k: int| 0 <= k < old(self).slots().len() && awaits(old(self).slots()[k], id),
            final(self).slots() == fulfilled(old(self).slots(), id, outcome),
            final(self).next_id() == old(self).next_id(),
            final(self).resolved_count() == old(self).resolved_count(),
    {
        let mut k: usize = 0;
        while k < self.slots.len()
            invariant
                k <= self.slots@.len(),
                self.slots@ == old(self).slots@,
                self.next_id == old(self).next_id,
                self.resolved == old(self).resolved,
                slots_wf(self.slots@, self.next_id),
                forall|j: int| 0 <= j < k ==> !awaits(#[trigger] self.slots@[j], id),
            decreases self.slots@.len() - k,
        {
            let hit = match &self.slots[k] {
                Slot::Placeholder { id: i, outcome: None, .. } => *i == id,
                _ => false,
            };
            if hit {
                let ghost s0 = self.slots@;
                proof {
                    assert(awaits(s0[k as int], id));
                    let c = choose|c: int| 0 <= c < s0.len() && awaits(s0[c], id);
                    assert(holds_id(s0[c], id) && holds_id(s0[k as int], id));
                    assert(c == k);
                }
                let slot = self.slots.remove(k);
                match slot {
                    Some(Slot::Placeholder { header, bytecode, id: i, .. }) => {
                        self.slots.insert(k, Slot::Placeholder { header, bytecode, id: i, outcome: Some(outcome) });
                    },
                    Some(other) => {
                        self.slots.insert(k, other);
                    },
                    None => {},
                }
                assert(self.slots@ =~= s0.update(k as int, fill(s0[k as int], outcome)));
                assert forall|j: int, i: u64| 0 <= j < self.slots@.len() && #[trigger] holds_id(self.slots@[j], i) implies i < self.next_id by {
                    assert(holds_id(s0[j], i));
                }
                assert forall|a: int, b: int, i: u64|
                    0 <= a < self.slots@.len() && 0 <= b < self.slots@.len() && #[trigger] holds_id(self.slots@[a], i) && #[trigger] holds_id(self.slots@[b], i) implies a == b by {
                    assert(holds_id(s0[a], i) && holds_id(s0[b], i));
                }
                assert(awaits(old(self).slots()[k as int], id));
                return true;
            }
            k = k + 1;
        }
        false
    }

    /// Hands out the front slot if it can be written, else nothing: a placeholder
    /// holds back every slot behind it until its own receipt is fulfilled.
    pub fn pop_ready(&mut self) -> (r: Option<Output<T>>)
        requires
            old(self).wf(),
        ensures
            final(self).wf(),
            final(self).slots() == pop_front(old(self).slots()).0,
            match r {
                Some(o) => pop_front(old(self).slots()).1 == Some(written(o)),
                None => pop_front(old(self).slots()).1 is None,
            },
            final(self).next_id() == old(self).next_id(),
            final(self).resolved_count() == if r matches Some(Output::Text(_)) && old(self).resolved_count() < u64::MAX {
                old(self).resolved_count() + 1
            } else {
                old(self).resolved_count() as int
            },
    {
        if self.slots.len() == 0 {
            return None;
        }
        let front_ready = match &self.slots[0] {
            Slot::Pass(_) => true,
            Slot::Placeholder { outcome, .. } => outcome.is_some(),
        };
        if !front_ready {
            return None;
        }
        let ghost s0 = self.slots@;
        let front = self.slots.pop_front();
        assert forall|j: int, i: u64| 0 <= j < self.slots@.len() && #[trigger] holds_id(self.slots@[j], i) implies i < self.next_id by {
            assert(self.slots@[j] == s0[j + 1]);
        }
        assert forall|a: int, b: int, i: u64|
            0 <= a < self.slots@.len() && 0 <= b < self.slots@.len() && #[trigger] holds_id(self.slots@[a], i) && #[trigger] holds_id(self.slots@[b], i) implies a == b by {
            assert(self.slots@[a] == s0[a + 1]);
            assert(self.slots@[b] == s0[b + 1]);
        }
        assert(self.slots@ =~= s0.drop_first());
        match front {
            Some(Slot::Pass(t)) => Some(Output::Pass(t)),
            Some(Slot::Placeholder { header, bytecode, outcome: Some(o), .. }) => {
                self.resolved = if self.resolved < u64::MAX { self.resolved + 1 } else { self.resolved };
                Some(Output::Text(render_resolution(header.as_slice(), bytecode.as_slice(), &o)))
            },
            _ => None,
        }
    }

    /// The receipt id that the next placeholder will take.
    pub fn next_id_exec(&self) -> (r: u64)
        ensures
            r == self.next_id(),
    {
        self.next_id
    }

    /// Whether every slot has been written.
    pub fn is_empty(&self) -> (r: bool)
        ensures
            r == (self.slots().len() == 0),
    {
        self.slots.len() == 0
    }

    /// The number of payload nodes written so far.
    pub fn resolved(&self) -> (r: u64)
        ensures
            r == self.resolved_count(),
    {
        self.resolved
    }
}

} // verus!
