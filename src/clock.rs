use vstd::prelude::*;

verus! {

/// Point-wise counters of a vector clock, read as mathematical integers.
pub open spec fn counts(v: Seq<u64>) -> Seq<int> {
    v.map_values(|x: u64| x as int)
}

pub open spec fn max_int(a: int, b: int) -> int {
    if a >= b {
        a
    } else {
        b
    }
}

/// A local event: the own entry goes up by one, the others stay.
pub open spec fn tick(c: Seq<int>, own: int) -> Seq<int> {
    c.update(own, c[own] + 1)
}

/// Point-wise maximum of two clocks of the same length.
pub open spec fn join(c: Seq<int>, r: Seq<int>) -> Seq<int> {
    Seq::new(c.len(), |i: int| max_int(c[i], r[i]))
}

/// Receipt of a remote clock: join, then count the receipt as a local event.
pub open spec fn receive(c: Seq<int>, r: Seq<int>, own: int) -> Seq<int> {
    tick(join(c, r), own)
}

/// One update of a clock, as a value for reasoning about runs of updates.
pub ghost enum ClockOp {
    Local,
    Receive(Seq<int>),
}

pub open spec fn step(c: Seq<int>, own: int, op: ClockOp) -> Seq<int> {
    match op {
        ClockOp::Local => tick(c, own),
        ClockOp::Receive(r) => receive(c, r, own),
    }
}

/// The clock after applying `ops` in order, starting from `c`.
pub open spec fn run(c: Seq<int>, own: int, ops: Seq<ClockOp>) -> Seq<int>
    decreases ops.len(),
{
    if ops.len() == 0 {
        c
    } else {
        step(run(c, own, ops.drop_last()), own, ops.last())
    }
}

/// One more call extends a run by one step: a caller that records each
/// call it makes as an operation holds the run of those operations.
pub proof fn lemma_run_push(c: Seq<int>, own: int, ops: Seq<ClockOp>, op: ClockOp)
    ensures
        run(c, own, ops.push(op)) == step(run(c, own, ops), own, op),
{
    assert(ops.push(op).drop_last() =~= ops);
}

/// Every received clock in `ops` has one entry per participant.
pub open spec fn ops_fit(ops: Seq<ClockOp>, n: int) -> bool {
    forall|k: int| 0 <= k < ops.len() ==> match #[trigger] ops[k] {
        ClockOp::Local => true,
        ClockOp::Receive(r) => r.len() == n,
    }
}

/// No received clock in `ops` knows more of the own counter than `bound`.
pub open spec fn ops_own_at_most(ops: Seq<ClockOp>, own: int, bound: int) -> bool {
    forall|k: int| 0 <= k < ops.len() ==> match #[trigger] ops[k] {
        ClockOp::Local => true,
        ClockOp::Receive(r) => r[own] <= bound,
    }
}

pub open spec fn pointwise_le(a: Seq<int>, b: Seq<int>) -> bool {
    a.len() == b.len() && forall|i: int| 0 <= i < a.len() ==> a[i] <= b[i]
}

/// One update never lowers an entry, and raises the own entry.
pub proof fn lemma_step_monotonic(c: Seq<int>, own: int, op: ClockOp)
    requires
        0 <= own < c.len(),
        ops_fit(seq![op], c.len() as int),
    ensures
        pointwise_le(c, step(c, own, op)),
        step(c, own, op)[own] > c[own],
{
    assert(match seq![op][0] {
        ClockOp::Local => true,
        ClockOp::Receive(r) => r.len() == c.len(),
    });
}

/// Along any run of local events and receipts no entry of the clock ever
/// decreases: the clock after a prefix of the run is point-wise at most the
/// clock after any longer prefix.
pub proof fn lemma_run_monotonic(c: Seq<int>, own: int, ops: Seq<ClockOp>, k: int, m: int)
    requires
        0 <= own < c.len(),
        ops_fit(ops, c.len() as int),
        0 <= k <= m <= ops.len(),
    ensures
        pointwise_le(run(c, own, ops.take(k)), run(c, own, ops.take(m))),
    decreases m - k,
{
    lemma_run_len(c, own, ops.take(m));
    if k < m {
        lemma_run_monotonic(c, own, ops, k, m - 1);
        let pre = ops.take(m - 1);
        assert(ops.take(m).drop_last() =~= pre);
        assert(ops.take(m).last() == ops[m - 1]);
        lemma_run_len(c, own, pre);
        assert(ops_fit(seq![ops[m - 1]], c.len() as int));
        lemma_step_monotonic(run(c, own, pre), own, ops[m - 1]);
    }
}

/// A run keeps the number of participants.
pub proof fn lemma_run_len(c: Seq<int>, own: int, ops: Seq<ClockOp>)
    requires
        0 <= own < c.len(),
        ops_fit(ops, c.len() as int),
    ensures
        run(c, own, ops).len() == c.len(),
    decreases ops.len(),
{
    if ops.len() > 0 {
        assert(ops_fit(ops.drop_last(), c.len() as int));
        lemma_run_len(c, own, ops.drop_last());
        assert(ops[ops.len() - 1] == ops.last());
    }
}

/// Each local event raises the own entry by exactly one; so does each receipt
/// of a clock that knows no more of the own counter than this one does. Any
/// receipt raises the own entry.
pub proof fn lemma_own_entry_step(c: Seq<int>, own: int, op: ClockOp)
    requires
        0 <= own < c.len(),
        ops_fit(seq![op], c.len() as int),
    ensures
        step(c, own, op)[own] > c[own],
        (match op {
            ClockOp::Local => true,
            ClockOp::Receive(r) => r[own] <= c[own],
        }) ==> step(c, own, op)[own] == c[own] + 1,
{
    lemma_step_monotonic(c, own, op);
}

/// What a run gives, entry by entry: the own entry counts the updates, and
/// each other entry is the largest of its start value and of what the
/// received clocks hold there.
proof fn lemma_run_shape(c: Seq<int>, own: int, ops: Seq<ClockOp>)
    requires
        0 <= own < c.len(),
        ops_fit(ops, c.len() as int),
        ops_own_at_most(ops, own, c[own]),
    ensures
        run(c, own, ops).len() == c.len(),
        run(c, own, ops)[own] == c[own] + ops.len(),
        forall|i: int| 0 <= i < c.len() && i != own ==> run(c, own, ops)[i] >= c[i],
        forall|i: int, k: int|
            0 <= i < c.len() && i != own && 0 <= k < ops.len() && ops[k] is Receive
                ==> run(c, own, ops)[i] >= #[trigger] ops[k]->Receive_0[i],
        forall|i: int| 0 <= i < c.len() && i != own ==> (run(c, own, ops)[i] == c[i] || exists|
            k: int,
        |
            0 <= k < ops.len() && (#[trigger] ops[k]) is Receive && ops[k]->Receive_0[i] == run(
                c,
                own,
                ops,
            )[i]),
    decreases ops.len(),
{
    if ops.len() > 0 {
        let pre = ops.drop_last();
        assert forall|k: int| 0 <= k < pre.len() implies match #[trigger] pre[k] {
            ClockOp::Local => true,
            ClockOp::Receive(r) => r.len() == c.len(),
        } by {
            assert(pre[k] == ops[k]);
        }
        assert forall|k: int| 0 <= k < pre.len() implies match #[trigger] pre[k] {
            ClockOp::Local => true,
            ClockOp::Receive(r) => r[own] <= c[own],
        } by {
            assert(pre[k] == ops[k]);
        }
        lemma_run_shape(c, own, pre);
        let last = ops[ops.len() - 1];
        assert(last == ops.last());
        let prev = run(c, own, pre);
        let cur = run(c, own, ops);
        assert(cur == step(prev, own, last));
        assert forall|i: int| 0 <= i < c.len() && i != own implies (cur[i] == c[i] || exists|
            k: int,
        |
            0 <= k < ops.len() && (#[trigger] ops[k]) is Receive && ops[k]->Receive_0[i]
                == cur[i]) by {
            if cur[i] != c[i] {
                if cur[i] == prev[i] {
                    let k = choose|k: int|
                        0 <= k < pre.len() && (#[trigger] pre[k]) is Receive
                            && pre[k]->Receive_0[i] == prev[i];
                    assert(ops[k] == pre[k]);
                } else {
                    assert(ops[ops.len() - 1] is Receive);
                }
            }
        }
        assert forall|i: int, k: int|
            0 <= i < c.len() && i != own && 0 <= k < ops.len() && ops[k] is Receive
                implies cur[i] >= #[trigger] ops[k]->Receive_0[i] by {
            if k < pre.len() {
                assert(pre[k] == ops[k]);
            }
        }
    }
}

/// Local events and receipts may come in any interleaving: two runs of the
/// same updates in different orders end at the same clock, and its own entry
/// is its start value plus the number of updates. This holds where no received
/// clock knows more of the own counter than the start clock does.
pub proof fn lemma_interleaving_independent(
    c: Seq<int>,
    own: int,
    ops1: Seq<ClockOp>,
    ops2: Seq<ClockOp>,
)
    requires
        0 <= own < c.len(),
        ops_fit(ops1, c.len() as int),
        ops_own_at_most(ops1, own, c[own]),
        ops1.to_multiset() =~= ops2.to_multiset(),
    ensures
        run(c, own, ops1) == run(c, own, ops2),
        run(c, own, ops1)[own] == c[own] + ops1.len(),
{
    broadcast use vstd::seq_lib::group_to_multiset_ensures;

    assert forall|k: int| 0 <= k < ops2.len() implies match #[trigger] ops2[k] {
        ClockOp::Local => true,
        ClockOp::Receive(r) => r.len() == c.len() && r[own] <= c[own],
    } by {
        assert(ops2.contains(ops2[k]));
        assert(ops1.to_multiset().count(ops2[k]) > 0);
        let j = choose|j: int| 0 <= j < ops1.len() && ops1[j] == ops2[k];
        assert(ops1[j] == ops2[k]);
    }
    lemma_run_shape(c, own, ops1);
    lemma_run_shape(c, own, ops2);
    let a = run(c, own, ops1);
    let b = run(c, own, ops2);
    assert(ops1.to_multiset().len() == ops2.to_multiset().len());
    assert(ops1.len() == ops2.len());
    assert forall|i: int| 0 <= i < c.len() implies a[i] == b[i] by {
        if i != own {
            if a[i] != c[i] {
                let k = choose|k: int|
                    0 <= k < ops1.len() && (#[trigger] ops1[k]) is Receive && ops1[k]->Receive_0[i]
                        == a[i];
                assert(ops1.contains(ops1[k]));
                assert(ops2.to_multiset().count(ops1[k]) > 0);
                let j = choose|j: int| 0 <= j < ops2.len() && ops2[j] == ops1[k];
                assert(ops2[j] is Receive);
            }
            if b[i] != c[i] {
                let k = choose|k: int|
                    0 <= k < ops2.len() && (#[trigger] ops2[k]) is Receive && ops2[k]->Receive_0[i]
                        == b[i];
                assert(ops2.contains(ops2[k]));
                assert(ops1.to_multiset().count(ops2[k]) > 0);
                let j = choose|j: int| 0 <= j < ops1.len() && ops1[j] == ops2[k];
                assert(ops1[j] is Receive);
            }
        }
    }
    assert(a =~= b);
}

/// Why a clock refused an update.
#[derive(Debug, Clone, Copy, PartialEq, Eq, Structural)]
pub enum ClockError {
    /// The remote clock does not have one entry per participant.
    MalformedClock,
    /// The own entry would no longer fit in a `u64`.
    CounterOverflow,
}

/// The live vector clock of one process: one counter per participant, and the
/// position of this process's own counter.
pub struct Clock {
    entries: Vec<u64>,
    own: usize,
}

impl View for Clock {
    type V = Seq<int>;

    closed spec fn view(&self) -> Seq<int> {
        counts(self.entries@)
    }
}

impl Clock {
    /// Position of this process's counter.
    pub closed spec fn own_index(&self) -> int {
        self.own as int
    }

    pub open spec fn wf(&self) -> bool {
        &&& 0 <= self.own_index() < self@.len()
        &&& forall|i: int| 0 <= i < self@.len() ==> 0 <= #[trigger] self@[i] <= u64::MAX
    }

    /// A clock for `n` participants: the own counter starts at 1, the others at 0.
    pub fn new(n: usize, own: usize) -> (r: Clock)
        requires
            own < n,
        ensures
            r.wf(),
            r.own_index() == own,
            r@ == Seq::new(n as nat, |i: int| if i == own { 1int } else { 0int }),
    {
        let mut entries: Vec<u64> = Vec::new();
        let mut i: usize = 0;
        while i < n
            invariant
                i <= n,
                own < n,
                entries@.len() == i,
                forall|j: int| 0 <= j < i ==> entries@[j] == (if j == own { 1u64 } else { 0u64 }),
            decreases n - i,
        {
            if i == own {
                entries.push(1);
            } else {
                entries.push(0);
            }
            i += 1;
        }
        let r = Clock { entries, own };
        assert(r@ =~= Seq::new(n as nat, |i: int| if i == own { 1int } else { 0int }));
        r
    }

    /// Number of participants.
    pub fn len(&self) -> (r: usize)
        ensures
            r == self@.len(),
    {
        self.entries.len()
    }

    /// Position of this process's counter.
    pub fn own(&self) -> (r: usize)
        ensures
            r == self.own_index(),
    {
        self.own
    }

    /// Whether one more local event fits in the own counter.
    pub fn can_tick(&self) -> (r: bool)
        requires
            self.wf(),
        ensures
            r == (self@[self.own_index()] < u64::MAX),
    {
        self.entries[self.own] < u64::MAX
    }

    /// A local event.
    pub fn local_event(&mut self)
        requires
            old(self).wf(),
            old(self)@[old(self).own_index()] < u64::MAX,
        ensures
            final(self).wf(),
            final(self).own_index() == old(self).own_index(),
            final(self)@ == tick(old(self)@, old(self).own_index()),
            final(self)@ == step(old(self)@, old(self).own_index(), ClockOp::Local),
    {
        let o = self.own;
        let v = self.entries[o];
        self.entries.set(o, v + 1);
        assert(self@ =~= tick(old(self)@, o as int));
    }

    /// Receipt of a remote clock: every entry becomes the larger of the two,
    /// then the own entry goes up by one. On an error nothing changes.
    pub fn merge_received(&mut self, remote: &[u64]) -> (r: Result<(), ClockError>)
        requires
            old(self).wf(),
        ensures
            final(self).wf(),
            final(self).own_index() == old(self).own_index(),
            remote@.len() != old(self)@.len() ==> r == Err::<(), ClockError>(
                ClockError::MalformedClock,
            ),
            remote@.len() == old(self)@.len() && max_int(
                old(self)@[old(self).own_index()],
                remote@[old(self).own_index()] as int,
            ) == u64::MAX ==> r == Err::<(), ClockError>(ClockError::CounterOverflow),
            r is Ok <==> remote@.len() == old(self)@.len() && max_int(
                old(self)@[old(self).own_index()],
                remote@[old(self).own_index()] as int,
            ) < u64::MAX,
            r is Ok ==> final(self)@ == receive(
                old(self)@,
                counts(remote@),
                old(self).own_index(),
            ),
            r is Ok ==> final(self)@ == step(
                old(self)@,
                old(self).own_index(),
                ClockOp::Receive(counts(remote@)),
            ),
            r is Err ==> final(self)@ == old(self)@,
    {
        let n = self.entries.len();
        if remote.len() != n {
            return Err(ClockError::MalformedClock);
        }
        let o = self.own;
        if self.entries[o] == u64::MAX || remote[o] == u64::MAX {
            return Err(ClockError::CounterOverflow);
        }
        let ghost pre = self.entries@;
        let mut i: usize = 0;
        while i < n
            invariant
                n == self.entries@.len(),
                n == remote@.len(),
                n == pre.len(),
                i <= n,
                o == self.own,
                o < n,
                forall|j: int|
                    0 <= j < i ==> self.entries@[j] as int == max_int(
                        pre[j] as int,
                        remote@[j] as int,
                    ),
                forall|j: int| i <= j < n ==> self.entries@[j] == pre[j],
            decreases n - i,
        {
            let a = self.entries[i];
            let b = remote[i];
            if b > a {
                self.entries.set(i, b);
            }
            i += 1;
        }
        let v = self.entries[o];
        self.entries.set(o, v + 1);
        assert(self@ =~= receive(counts(pre), counts(remote@), o as int));
        Ok(())
    }

    /// A copy of the current counters.
    pub fn snapshot(&self) -> (r: Vec<u64>)
        ensures
            counts(r@) == self@,
    {
        self.entries.clone()
    }
}

} // verus!
