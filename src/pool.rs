use std::collections::VecDeque;
use vstd::prelude::*;

verus! {

/// What one poll of a pooled connection's protocol engine reported.
#[derive(Clone, Copy, Debug, PartialEq, Eq, Structural)]
pub enum PollOutcome {
    /// Progress was made, or nothing was to be done: the connection stays.
    Pending,
    /// The connection completed and closed.
    Closed,
    /// The connection failed.
    Failed,
}

/// A connection that belongs to a pool, with the identity the pool gave it.
pub struct Pooled<C> {
    id: u64,
    conn: C,
}

impl<C> Pooled<C> {
    pub closed spec fn key(&self) -> u64 {
        self.id
    }

    pub closed spec fn connection(&self) -> C {
        self.conn
    }

    pub fn id(&self) -> (r: u64)
        ensures
            r == self.key(),
    {
        self.id
    }

    pub fn conn(&self) -> (r: &C)
        ensures
            *r == self.connection(),
    {
        &self.conn
    }

    /// The connection, to issue a stream on it; its identity stays.
    pub fn conn_mut(&mut self) -> (r: &mut C)
        ensures
            *r == old(self).connection(),
            final(self).key() == old(self).key(),
            final(self).connection() == *final(r),
    {
        &mut self.conn
    }
}

/// The identities of a sequence of pooled connections.
pub open spec fn keys_of<C>(q: Seq<Pooled<C>>) -> Seq<u64> {
    q.map_values(|p: Pooled<C>| p.key())
}

/// The identities that stay in the queue after one poll of each connection:
/// those whose poll reported `Pending`, in their order.
pub open spec fn survivors(ids: Seq<u64>, outcomes: Seq<PollOutcome>) -> Seq<u64>
    decreases ids.len(),
{
    if ids.len() == 0 {
        Seq::empty()
    } else {
        let rest = survivors(ids.drop_last(), outcomes.subrange(0, ids.len() - 1));
        if outcomes[ids.len() - 1] == PollOutcome::Pending {
            rest.push(ids.last())
        } else {
            rest
        }
    }
}

/// The sum of the streams open on each connection.
pub open spec fn wired_sum(wired: Seq<usize>) -> nat
    decreases wired.len(),
{
    if wired.len() == 0 {
        0
    } else {
        wired_sum(wired.drop_last()) + wired.last() as nat
    }
}

/// The background driver stops when no other handle shares the pool and no
/// pooled connection has a stream open.
pub open spec fn driver_stops(sole_owner: bool, wired: Seq<usize>) -> bool {
    sole_owner && wired_sum(wired) == 0
}

/// The ALPN protocol identifier of HTTP/2.
pub open spec fn alpn_h2() -> Seq<u8> {
    seq![104u8, 50u8]
}

/// Whether the protocol negotiated by ALPN is HTTP/2.
pub fn is_h2_alpn(proto: Option<&[u8]>) -> (r: bool)
    ensures
        r == (proto matches Some(p) && p@ == alpn_h2()),
{
    match proto {
        Some(p) => {
            let ok = p.len() == 2 && p[0] == 104u8 && p[1] == 50u8;
            if ok {
                assert(p@ =~= alpn_h2());
            }
            ok
        },
        None => false,
    }
}

/// Whether the driver stops, from what each idle connection reported of its
/// open streams.
pub fn should_stop(sole_owner: bool, wired: &Vec<usize>) -> (r: bool)
    ensures
        r == driver_stops(sole_owner, wired@),
{
    if !sole_owner {
        return false;
    }
    let n = wired.len();
    let mut all_zero = true;
    let mut j: usize = 0;
    while j < n
        invariant
            j <= n,
            n == wired@.len(),
            all_zero == (wired_sum(wired@.take(j as int)) == 0),
        decreases n - j,
    {
        assert(wired@.take(j + 1).drop_last() =~= wired@.take(j as int));
        if wired[j] != 0 {
            all_zero = false;
        }
        j = j + 1;
    }
    assert(wired@.take(n as int) =~= wired@);
    all_zero
}

/// The idle connections to one upstream, in queue order.
///
/// Connections are taken from the front and returned to the back. Every
/// connection the pool lets in gets a fresh identity, so that the contracts
/// can follow each one through the queue.
pub struct H2ClientPool<C> {
    queue: VecDeque<Pooled<C>>,
    next_id: u64,
}

impl<C> H2ClientPool<C> {
    /// Identities of the idle connections, front first.
    pub closed spec fn ids(&self) -> Seq<u64> {
        keys_of(self.queue@)
    }

    /// How many connections the pool has let in since it was made.
    pub closed spec fn created(&self) -> nat {
        self.next_id as nat
    }

    /// No connection is queued twice, and each one was let in by this pool.
    pub closed spec fn wf(&self) -> bool {
        &&& self.ids().no_duplicates()
        &&& forall|x: u64| self.ids().contains(x) ==> x < self.next_id
    }

    /// A well-formed pool queues no connection twice, and each queued
    /// connection was let in by it.
    pub proof fn lemma_wf_ids(&self)
        requires
            self.wf(),
        ensures
            self.ids().no_duplicates(),
            forall|x: u64| self.ids().contains(x) ==> x < self.created(),
    {
    }

    pub fn new() -> (r: H2ClientPool<C>)
        ensures
            r.wf(),
            r.ids() == Seq::<u64>::empty(),
            r.created() == 0,
    {
        let r = H2ClientPool { queue: VecDeque::new(), next_id: 0 };
        assert(r.ids() =~= Seq::<u64>::empty());
        r
    }

    /// The number of idle connections.
    pub fn len(&self) -> (r: usize)
        ensures
            r == self.ids().len(),
    {
        self.queue.len()
    }

    /// How many connections the pool has let in since it was made.
    pub fn connections_created(&self) -> (r: u64)
        ensures
            r == self.created(),
    {
        self.next_id
    }

    /// Whether a connection with this identity is idle in the queue.
    pub fn contains(&self, id: u64) -> (r: bool)
        ensures
            r == self.ids().contains(id),
    {
        let n = self.queue.len();
        let mut j: usize = 0;
        while j < n
            invariant
                j <= n,
                n == self.ids().len(),
                forall|k: int| 0 <= k < j ==> self.ids()[k] != id,
            decreases n - j,
        {
            if self.queue[j].id == id {
                assert(self.ids()[j as int] == id);
                return true;
            }
            j = j + 1;
        }
        false
    }

    /// Lets a newly established connection into the pool, with a fresh
    /// identity. It is handed back checked out: `release` queues it.
    pub fn adopt(&mut self, conn: C) -> (r: Pooled<C>)
        requires
            old(self).wf(),
            old(self).created() < u64::MAX,
        ensures
            final(self).wf(),
            final(self).ids() == old(self).ids(),
            final(self).created() == old(self).created() + 1,
            r.key() == old(self).created(),
            r.connection() == conn,
    {
        let id = self.next_id;
        self.next_id = self.next_id + 1;
        Pooled { id, conn }
    }

    fn enqueue(&mut self, p: Pooled<C>)
        requires
            old(self).wf(),
            p.key() < old(self).created(),
            !old(self).ids().contains(p.key()),
        ensures
            final(self).wf(),
            final(self).created() == old(self).created(),
            final(self).ids() == old(self).ids().push(p.key()),
    {
        let ghost id = p.id;
        self.queue.push_back(p);
        proof {
            let old_ids = old(self).ids();
            assert(self.ids() =~= old_ids.push(id));
            assert forall|x: u64| self.ids().contains(x) implies x < self.next_id by {
                if x != id {
                    let k = choose|k: int| 0 <= k < self.ids().len() && self.ids()[k] == x;
                    assert(old_ids[k] == x);
                    assert(old_ids.contains(x));
                }
            }
            assert forall|a: int, b: int|
                0 <= a < self.ids().len() && 0 <= b < self.ids().len() && a != b implies self.ids()[a]
                != self.ids()[b] by {
                if a == old_ids.len() {
                    assert(old_ids.contains(self.ids()[b]));
                } else if b == old_ids.len() {
                    assert(old_ids.contains(self.ids()[a]));
                }
            }
        }
    }

    /// Returns a checked-out connection to the back of the queue. A
    /// connection that this pool did not let in, or that is already queued,
    /// is refused and dropped.
    pub fn release(&mut self, p: Pooled<C>) -> (r: bool)
        requires
            old(self).wf(),
        ensures
            final(self).wf(),
            final(self).created() == old(self).created(),
            r == (p.key() < old(self).created() && !old(self).ids().contains(p.key())),
            r ==> final(self).ids() == old(self).ids().push(p.key()),
            !r ==> final(self).ids() == old(self).ids(),
    {
        if p.id >= self.next_id || self.contains(p.id) {
            return false;
        }
        self.enqueue(p);
        true
    }

    /// Takes the front connection off the queue.
    fn take_front(&mut self) -> (r: Pooled<C>)
        requires
            old(self).wf(),
            old(self).ids().len() > 0,
        ensures
            final(self).wf(),
            final(self).created() == old(self).created(),
            r.key() == old(self).ids()[0],
            final(self).ids() == old(self).ids().drop_first(),
            r.key() < final(self).created(),
            !final(self).ids().contains(r.key()),
    {
        let ghost before = self.queue@;
        assert(keys_of(before).len() == before.len());
        let p = self.queue.pop_front().unwrap();
        proof {
            let old_ids = keys_of(before);
            assert(keys_of(self.queue@) =~= old_ids.drop_first());
            assert(old_ids.contains(old_ids[0]));
            let ids = self.ids();
            assert forall|a: int, b: int|
                0 <= a < ids.len() && 0 <= b < ids.len() && a != b implies ids[a] != ids[b] by {
                assert(ids[a] == old_ids[a + 1] && ids[b] == old_ids[b + 1]);
            }
            assert forall|x: u64| ids.contains(x) implies x < self.next_id by {
                let k = choose|k: int| 0 <= k < ids.len() && ids[k] == x;
                assert(old_ids[k + 1] == x);
                assert(old_ids.contains(x));
            }
            if ids.contains(p.id) {
                let k = choose|k: int| 0 <= k < ids.len() && ids[k] == p.id;
                assert(old_ids[k + 1] == old_ids[0]);
            }
        }
        p
    }

    /// The connection at position `i` of the queue.
    pub closed spec fn idle(&self, i: int) -> C {
        self.queue@[i].connection()
    }

    /// The connection at position `i` of the queue, to read its state.
    pub fn idle_conn(&self, i: usize) -> (r: &C)
        requires
            i < self.ids().len(),
        ensures
            *r == self.idle(i as int),
    {
        &self.queue[i].conn
    }

    /// `s` describes a pass that takes a ready connection from this queue: the identities queued
    /// when it began, how many were asked and answered "not ready" (each
    /// then went to the back), and whether the next one is out being asked.
    pub closed spec fn in_pop(&self, s: PopPass) -> bool {
        let start = s.start@;
        &&& start.no_duplicates()
        &&& forall|x: u64| start.contains(x) ==> x < self.next_id
        &&& s.total as nat == start.len()
        &&& s.asked <= s.total
        &&& s.answers@ == Seq::new(s.asked as nat, |j: int| false)
        &&& if s.holding {
            &&& s.asked < s.total
            &&& self.ids() == start.skip(s.asked + 1) + start.take(s.asked as int)
        } else {
            self.ids() == start.skip(s.asked as int) + start.take(s.asked as int)
        }
    }

    /// `s` describes a tick of the driver over this queue: the identities
    /// queued when it began, the outcomes of those polled so far, and whether
    /// the next one is out being polled.
    pub closed spec fn in_poll(&self, s: PollPass) -> bool {
        let start = s.start@;
        &&& start.no_duplicates()
        &&& forall|x: u64| start.contains(x) ==> x < self.next_id
        &&& s.total as nat == start.len()
        &&& s.polled <= s.total
        &&& s.outcomes@.len() == s.polled
        &&& if s.holding {
            &&& s.polled < s.total
            &&& self.ids() == start.skip(s.polled + 1) + survivors(
                start.take(s.polled as int),
                s.outcomes@,
            )
        } else {
            self.ids() == start.skip(s.polled as int) + survivors(
                start.take(s.polled as int),
                s.outcomes@,
            )
        }
    }

    /// Begins taking a connection that can accept one more stream now.
    pub fn begin_pop(&self) -> (s: PopPass)
        requires
            self.wf(),
        ensures
            self.in_pop(s),
            s.start() == self.ids(),
            s.asked() == 0,
            s.answers() == Seq::<bool>::empty(),
            !s.holding(),
    {
        let s = PopPass {
            asked: 0,
            total: self.queue.len(),
            holding: false,
            start: Ghost(self.ids()),
            answers: Ghost(Seq::empty()),
        };
        assert(self.ids() =~= self.ids().skip(0) + self.ids().take(0));
        assert(s.answers@ =~= Seq::new(0, |j: int| false));
        s
    }

    /// The next connection to ask whether it is ready, taken off the front.
    /// `None` once every connection queued at the start of the pass has been
    /// asked and answered "not ready": the queue is then as it was, and the
    /// caller establishes a new connection.
    pub fn next_to_ask(&mut self, s: &mut PopPass) -> (r: Option<Pooled<C>>)
        requires
            old(self).wf(),
            old(self).in_pop(*old(s)),
            !old(s).holding(),
        ensures
            final(self).wf(),
            final(self).created() == old(self).created(),
            final(self).in_pop(*final(s)),
            final(s).start() == old(s).start(),
            final(s).asked() == old(s).asked(),
            final(s).answers() == old(s).answers(),
            r is None <==> old(s).asked() == old(s).start().len(),
            r is None ==> !final(s).holding() && final(self).ids() == old(s).start()
                && final(s).answers() == Seq::new(old(s).start().len(), |j: int| false),
            r matches Some(p) ==> final(s).holding() && p.key() == old(s).start()[old(s).asked() as int]
                && final(self).ids() == old(self).ids().drop_first(),
    {
        let ghost start = s.start@;
        if s.asked == s.total {
            assert(self.ids() =~= start);
            return None;
        }
        let ghost k = s.asked as int;
        assert(self.ids()[0] == start[k]);
        let p = self.take_front();
        assert(self.ids() =~= start.skip(k + 1) + start.take(k));
        s.holding = true;
        Some(p)
    }

    /// What the pass does with the connection out being asked, once it has
    /// answered: a ready one is handed out and the pass ends; one that is not
    /// ready goes to the back of the queue and the pass goes on. (A connection
    /// whose check failed is not handed back: the caller drops it.)
    pub fn take_if_ready(&mut self, s: &mut PopPass, p: Pooled<C>, ready: bool) -> (r: Option<
        Pooled<C>,
    >)
        requires
            old(self).wf(),
            old(self).in_pop(*old(s)),
            old(s).holding(),
            p.key() == old(s).start()[old(s).asked() as int],
        ensures
            final(self).wf(),
            final(self).created() == old(self).created(),
            final(s).start() == old(s).start(),
            ready ==> r == Some(p) && final(self).ids() == old(self).ids() && final(s).answers()
                == old(s).answers().push(true),
            !ready ==> {
                &&& r is None
                &&& final(self).ids() == old(self).ids().push(p.key())
                &&& final(self).in_pop(*final(s))
                &&& !final(s).holding()
                &&& final(s).asked() == old(s).asked() + 1
                &&& final(s).answers() == old(s).answers().push(false)
            },
    {
        let ghost start = s.start@;
        let ghost k = s.asked as int;
        proof {
            assert(start.contains(start[k]));
            if self.ids().contains(p.key()) {
                let j = choose|j: int| 0 <= j < self.ids().len() && self.ids()[j] == p.key();
                if j < start.len() - k - 1 {
                    assert(start[k + 1 + j] == start[k]);
                } else {
                    assert(start[j - (start.len() - k - 1)] == start[k]);
                }
            }
        }
        if ready {
            proof {
                s.answers@ = s.answers@.push(true);
            }
            s.holding = false;
            return Some(p);
        }
        self.enqueue(p);
        s.holding = false;
        s.asked = s.asked + 1;
        proof {
            s.answers@ = s.answers@.push(false);
            assert(s.answers@ =~= Seq::new(s.asked as nat, |j: int| false));
            assert(self.ids() =~= start.skip(k + 1) + start.take(k + 1));
        }
        None
    }

    /// Begins one tick of the background driver: every connection queued now
    /// is polled once, in queue order.
    pub fn begin_poll(&self) -> (s: PollPass)
        requires
            self.wf(),
        ensures
            self.in_poll(s),
            s.start() == self.ids(),
            s.polled() == 0,
            s.outcomes() == Seq::<PollOutcome>::empty(),
            !s.holding(),
    {
        let s = PollPass {
            polled: 0,
            total: self.queue.len(),
            holding: false,
            start: Ghost(self.ids()),
            outcomes: Ghost(Seq::empty()),
        };
        assert(self.ids() =~= self.ids().skip(0) + survivors(
            self.ids().take(0),
            Seq::empty(),
        ));
        s
    }

    /// The next connection to poll, taken off the front. `None` once every
    /// connection queued at the start of the tick has been polled exactly
    /// once: the queue then holds those whose poll reported `Pending`, in
    /// their order.
    pub fn next_to_poll(&mut self, s: &mut PollPass) -> (r: Option<Pooled<C>>)
        requires
            old(self).wf(),
            old(self).in_poll(*old(s)),
            !old(s).holding(),
        ensures
            final(self).wf(),
            final(self).created() == old(self).created(),
            final(self).in_poll(*final(s)),
            final(s).start() == old(s).start(),
            final(s).polled() == old(s).polled(),
            final(s).outcomes() == old(s).outcomes(),
            r is None <==> old(s).polled() == old(s).start().len(),
            r is None ==> !final(s).holding() && final(self).ids() == survivors(
                old(s).start(),
                old(s).outcomes(),
            ),
            r matches Some(p) ==> final(s).holding() && p.key() == old(s).start()[old(s).polled() as int]
                && final(self).ids() == old(self).ids().drop_first(),
    {
        let ghost start = s.start@;
        if s.polled == s.total {
            assert(start.take(start.len() as int) =~= start);
            assert(self.ids() =~= survivors(start, s.outcomes@));
            return None;
        }
        let ghost k = s.polled as int;
        assert(self.ids()[0] == start[k]);
        let p = self.take_front();
        assert(self.ids() =~= start.skip(k + 1) + survivors(start.take(k), s.outcomes@));
        s.holding = true;
        Some(p)
    }

    /// What the driver does with the connection out being polled, once its
    /// poll reported `outcome`: one still pending goes to the back of the
    /// queue, one that closed or failed is dropped.
    pub fn keep_after_poll(&mut self, s: &mut PollPass, p: Pooled<C>, outcome: PollOutcome)
        requires
            old(self).wf(),
            old(self).in_poll(*old(s)),
            old(s).holding(),
            p.key() == old(s).start()[old(s).polled() as int],
        ensures
            final(self).wf(),
            final(self).created() == old(self).created(),
            final(self).in_poll(*final(s)),
            !final(s).holding(),
            final(s).start() == old(s).start(),
            final(s).polled() == old(s).polled() + 1,
            final(s).outcomes() == old(s).outcomes().push(outcome),
            outcome == PollOutcome::Pending ==> final(self).ids() == old(self).ids().push(p.key()),
            outcome != PollOutcome::Pending ==> final(self).ids() == old(self).ids(),
    {
        let ghost start = s.start@;
        let ghost k = s.polled as int;
        let ghost prev = s.outcomes@;
        proof {
            assert(start.contains(start[k]));
            let head = start.take(k);
            assert forall|a: int, b: int|
                0 <= a < head.len() && 0 <= b < head.len() && a != b implies head[a] != head[b] by {
                assert(head[a] == start[a] && head[b] == start[b]);
            }
            lemma_survivors_within(head, prev);
            let sv = survivors(head, prev);
            if self.ids().contains(p.key()) {
                let j = choose|j: int| 0 <= j < self.ids().len() && self.ids()[j] == p.key();
                if j < start.len() - k - 1 {
                    assert(start[k + 1 + j] == start[k]);
                } else {
                    assert(sv[j - (start.len() - k - 1)] == start[k]);
                    assert(sv.contains(start[k]));
                    assert(head.contains(start[k]));
                    let i = choose|i: int| 0 <= i < head.len() && head[i] == start[k];
                    assert(start[i] == start[k]);
                }
            }
        }
        match outcome {
            PollOutcome::Pending => self.enqueue(p),
            _ => {},
        }
        s.holding = false;
        s.polled = s.polled + 1;
        proof {
            s.outcomes@ = prev.push(outcome);
            let t = start.take(k + 1);
            assert(t.drop_last() =~= start.take(k));
            assert(s.outcomes@.subrange(0, k) =~= prev);
            assert(self.ids() =~= start.skip(k + 1) + survivors(start.take(k + 1), s.outcomes@));
        }
    }
}

/// A pass that takes a ready connection, under way; see `H2ClientPool::in_pop`.
pub struct PopPass {
    asked: usize,
    total: usize,
    holding: bool,
    start: Ghost<Seq<u64>>,
    answers: Ghost<Seq<bool>>,
}

impl PopPass {
    /// The identities queued when the pass began, front first.
    pub closed spec fn start(&self) -> Seq<u64> {
        self.start@
    }

    /// How many connections have answered "not ready" so far.
    pub closed spec fn asked(&self) -> nat {
        self.asked as nat
    }

    /// The answers handed to `take_if_ready`, in order.
    pub closed spec fn answers(&self) -> Seq<bool> {
        self.answers@
    }

    /// Whether a connection is out being asked.
    pub closed spec fn holding(&self) -> bool {
        self.holding
    }
}

/// A tick of the driver under way; see `H2ClientPool::in_poll`.
pub struct PollPass {
    polled: usize,
    total: usize,
    holding: bool,
    start: Ghost<Seq<u64>>,
    outcomes: Ghost<Seq<PollOutcome>>,
}

impl PollPass {
    /// The identities queued when the tick began, front first.
    pub closed spec fn start(&self) -> Seq<u64> {
        self.start@
    }

    /// How many connections have been polled so far.
    pub closed spec fn polled(&self) -> nat {
        self.polled as nat
    }

    /// The outcomes handed to `keep_after_poll`, in order.
    pub closed spec fn outcomes(&self) -> Seq<PollOutcome> {
        self.outcomes@
    }

    /// Whether a connection is out being polled.
    pub closed spec fn holding(&self) -> bool {
        self.holding
    }
}

proof fn lemma_no_dup_concat(a: Seq<u64>, b: Seq<u64>)
    requires
        a.no_duplicates(),
        b.no_duplicates(),
        forall|x: u64| a.contains(x) ==> !b.contains(x),
    ensures
        (a + b).no_duplicates(),
{
    let c = a + b;
    assert forall|i: int, j: int| 0 <= i < c.len() && 0 <= j < c.len() && i != j implies c[i]
        != c[j] by {
        if i < a.len() && j >= a.len() {
            assert(a.contains(c[i]));
            assert(b.contains(c[j]));
        } else if j < a.len() && i >= a.len() {
            assert(a.contains(c[j]));
            assert(b.contains(c[i]));
        }
    }
}

proof fn lemma_survivors_within(ids: Seq<u64>, outcomes: Seq<PollOutcome>)
    requires
        ids.no_duplicates(),
        outcomes.len() == ids.len(),
    ensures
        survivors(ids, outcomes).no_duplicates(),
        forall|x: u64| survivors(ids, outcomes).contains(x) ==> ids.contains(x),
    decreases ids.len(),
{
    if ids.len() > 0 {
        let n = ids.len() - 1;
        let head = ids.drop_last();
        lemma_survivors_within(head, outcomes.subrange(0, n));
        let rest = survivors(head, outcomes.subrange(0, n));
        assert forall|x: u64| rest.contains(x) implies ids.contains(x) by {
            assert(head.contains(x));
            let k = choose|k: int| 0 <= k < head.len() && head[k] == x;
            assert(ids[k] == x);
        }
        if outcomes[n] == PollOutcome::Pending {
            assert(!rest.contains(ids.last())) by {
                if rest.contains(ids.last()) {
                    assert(head.contains(ids.last()));
                    let k = choose|k: int| 0 <= k < head.len() && head[k] == ids.last();
                    assert(ids[k] == ids[n]);
                }
            }
            lemma_no_dup_concat(rest, seq![ids.last()]);
            assert(rest + seq![ids.last()] =~= rest.push(ids.last()));
            assert forall|x: u64| rest.push(ids.last()).contains(x) implies ids.contains(x) by {
                if x != ids.last() {
                    let k = choose|k: int| 0 <= k < rest.push(ids.last()).len() && rest.push(
                        ids.last(),
                    )[k] == x;
                    assert(rest.contains(x));
                }
            }
        }
    }
}

/// A connection whose poll reported a failure (or its close) is no longer in
/// the queue after the driver's pass, so no later pass of `next_to_ask` can hand it out.
pub proof fn lemma_evicted_not_kept(ids: Seq<u64>, outcomes: Seq<PollOutcome>, i: int)
    requires
        ids.no_duplicates(),
        outcomes.len() == ids.len(),
        0 <= i < ids.len(),
        outcomes[i] != PollOutcome::Pending,
    ensures
        !survivors(ids, outcomes).contains(ids[i]),
    decreases ids.len(),
{
    let n = ids.len() - 1;
    let head = ids.drop_last();
    let rest = survivors(head, outcomes.subrange(0, n));
    lemma_survivors_within(head, outcomes.subrange(0, n));
    if i == n {
        if rest.contains(ids[i]) {
            assert(head.contains(ids[i]));
            let k = choose|k: int| 0 <= k < head.len() && head[k] == ids[i];
            assert(ids[k] == ids[n]);
        }
    } else {
        assert(head[i] == ids[i]);
        lemma_evicted_not_kept(head, outcomes.subrange(0, n), i);
        if outcomes[n] == PollOutcome::Pending {
            assert(ids[n] != ids[i]);
            if rest.push(ids.last()).contains(ids[i]) {
                let k = choose|k: int|
                    0 <= k < rest.push(ids.last()).len() && rest.push(ids.last())[k] == ids[i];
                if k < rest.len() {
                    assert(rest.contains(ids[i]));
                }
            }
        }
    }
}

/// After a driver tick in which connection `i` closed or failed, the queue
/// no longer holds it; since `next_to_ask` hands out only a connection that was
/// queued, no later pass on that queue returns it.
pub proof fn lemma_evicted_never_popped(
    ids: Seq<u64>,
    outcomes: Seq<PollOutcome>,
    i: int,
    popped: u64,
)
    requires
        ids.no_duplicates(),
        outcomes.len() == ids.len(),
        0 <= i < ids.len(),
        outcomes[i] != PollOutcome::Pending,
        survivors(ids, outcomes).contains(popped),
    ensures
        popped != ids[i],
{
    lemma_evicted_not_kept(ids, outcomes, i);
}

/// Counting connections over a run of requests: where each request raises
/// `created()` by one when it let a new connection in and leaves it as it
/// was otherwise (as `adopt` and the other operations do), the run lets in
/// at most one connection per request. `pools[i]` is the pool before
/// request `i`, and `fresh[i]` whether that request let one in.
pub proof fn lemma_requests_bound_connections<C>(
    pools: Seq<H2ClientPool<C>>,
    fresh: Seq<bool>,
)
    requires
        pools.len() == fresh.len() + 1,
        forall|i: int|
            0 <= i < fresh.len() ==> #[trigger] pools[i + 1].created() == pools[i].created() + (
            if fresh[i] {
                1nat
            } else {
                0nat
            }),
    ensures
        pools.last().created() <= pools[0].created() + fresh.len(),
    decreases fresh.len(),
{
    if fresh.len() > 0 {
        let n = fresh.len() - 1;
        assert(pools[n + 1].created() == pools[n].created() + (if fresh[n] {
            1nat
        } else {
            0nat
        }));
        lemma_requests_bound_connections(pools.drop_last(), fresh.drop_last());
    }
}

/// Once no other handle shares the pool and every pooled connection reports
/// no open stream, the driver stops at its next tick.
pub proof fn lemma_driver_stops_when_idle(sole_owner: bool, wired: Seq<usize>)
    requires
        sole_owner,
        forall|i: int| 0 <= i < wired.len() ==> wired[i] == 0,
    ensures
        driver_stops(sole_owner, wired),
    decreases wired.len(),
{
    if wired.len() > 0 {
        lemma_driver_stops_when_idle(sole_owner, wired.drop_last());
    }
}

} // verus!
