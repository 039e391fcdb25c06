use vstd::prelude::*;

verus! {

/// What came of the last action that the driver performed.
#[derive(Clone, Copy, Debug, PartialEq, Eq)]
pub enum Event {
    /// The record asked for was interpreted as a frequency.
    Decoded,
    /// The record asked for is not a valid frequency.
    Malformed,
    /// The tone asked for was emitted.
    Emitted,
    /// The tone primitive reported a failure.
    EmitFailed,
}

/// Why a run stopped early, with the index of the record concerned.
#[derive(Clone, Copy, Debug, PartialEq, Eq)]
pub enum Failure {
    Malformed(usize),
    Tone(usize),
}

/// What the driver is to do next.
#[derive(Clone, Copy, Debug, PartialEq, Eq)]
pub enum Action {
    /// Interpret record `i` as a frequency.
    Decode(usize),
    /// Emit the tone of record `i`, which was just decoded.
    Emit(usize),
    /// Every record was decoded and emitted: the run succeeded.
    Finish,
    /// The run failed; nothing more is read or emitted.
    Fail(Failure),
}

/// Progress of a fail-fast run over `total` records: records before `next`
/// have had their tones emitted, and `decoded` says whether record `next`
/// has been interpreted already.
#[derive(Clone, Copy, Debug)]
pub struct Dispatcher {
    pub total: usize,
    pub next: usize,
    pub decoded: bool,
    pub failure: Option<Failure>,
}

impl Dispatcher {
    pub open spec fn wf(self) -> bool {
        &&& self.next <= self.total
        &&& self.decoded ==> self.next < self.total
    }
}

/// The state before anything has been read.
pub open spec fn start(total: usize) -> Dispatcher {
    Dispatcher { total, next: 0, decoded: false, failure: None }
}

/// The action that a state calls for.
pub open spec fn action_of(d: Dispatcher) -> Action {
    match d.failure {
        Some(f) => Action::Fail(f),
        None => if d.next >= d.total {
            Action::Finish
        } else if d.decoded {
            Action::Emit(d.next)
        } else {
            Action::Decode(d.next)
        },
    }
}

/// The state after an event. An event that does not answer the pending
/// action, or one that comes after the run has ended, changes nothing.
pub open spec fn step(d: Dispatcher, e: Event) -> Dispatcher {
    match action_of(d) {
        Action::Decode(i) => match e {
            Event::Decoded => Dispatcher { decoded: true, ..d },
            Event::Malformed => Dispatcher { failure: Some(Failure::Malformed(i)), ..d },
            _ => d,
        },
        Action::Emit(i) => match e {
            Event::Emitted => Dispatcher { next: (i + 1) as usize, decoded: false, ..d },
            Event::EmitFailed => Dispatcher { failure: Some(Failure::Tone(i)), ..d },
            _ => d,
        },
        _ => d,
    }
}

/// Whether an event answers an emit action: the tone primitive was called.
pub open spec fn is_emit_outcome(e: Event) -> bool {
    e == Event::Emitted || e == Event::EmitFailed
}

/// The state after a sequence of events.
pub open spec fn run(d: Dispatcher, evs: Seq<Event>) -> Dispatcher
    decreases evs.len(),
{
    if evs.len() == 0 {
        d
    } else {
        run(step(d, evs[0]), evs.drop_first())
    }
}

/// The records whose tones were dispatched along a sequence of events, in
/// the order of dispatch.
pub open spec fn dispatched(d: Dispatcher, evs: Seq<Event>) -> Seq<int>
    decreases evs.len(),
{
    if evs.len() == 0 {
        seq![]
    } else {
        let rest = dispatched(step(d, evs[0]), evs.drop_first());
        match action_of(d) {
            Action::Emit(i) => if is_emit_outcome(evs[0]) {
                seq![i as int] + rest
            } else {
                rest
            },
            _ => rest,
        }
    }
}

impl Dispatcher {
    /// A run over `total` records, nothing read yet.
    pub fn new(total: usize) -> (r: Dispatcher)
        ensures
            r == start(total),
            r.wf(),
    {
        Dispatcher { total, next: 0, decoded: false, failure: None }
    }

    /// The action that the run calls for now.
    pub fn action(&self) -> (r: Action)
        ensures
            r == action_of(*self),
    {
        match self.failure {
            Some(f) => Action::Fail(f),
            None => if self.next >= self.total {
                Action::Finish
            } else if self.decoded {
                Action::Emit(self.next)
            } else {
                Action::Decode(self.next)
            },
        }
    }

    /// Takes in the outcome of the last action.
    pub fn advance(&mut self, e: Event)
        requires
            old(self).wf(),
        ensures
            *final(self) == step(*old(self), e),
            final(self).wf(),
    {
        match self.action() {
            Action::Decode(i) => match e {
                Event::Decoded => {
                    self.decoded = true;
                },
                Event::Malformed => {
                    self.failure = Some(Failure::Malformed(i));
                },
                _ => {},
            },
            Action::Emit(i) => match e {
                Event::Emitted => {
                    self.next = i + 1;
                    self.decoded = false;
                },
                Event::EmitFailed => {
                    self.failure = Some(Failure::Tone(i));
                },
                _ => {},
            },
            _ => {},
        }
    }

    /// Whether the run has ended, in success or failure.
    pub fn is_done(&self) -> (r: bool)
        ensures
            r == (action_of(*self) is Finish || action_of(*self) is Fail),
    {
        self.failure.is_some() || self.next >= self.total
    }
}

/// The events of a run in which each of `m` records is decoded and then
/// emitted.
pub open spec fn clean(m: nat) -> Seq<Event> {
    Seq::new(2 * m, |j: int| if j % 2 == 0 { Event::Decoded } else { Event::Emitted })
}

/// The state in which the tones of the records before `k` were emitted and
/// record `k` is still to be decoded.
pub open spec fn at(total: usize, k: usize) -> Dispatcher {
    Dispatcher { total, next: k, decoded: false, failure: None }
}

/// The records `0..n`, in order.
pub open spec fn upto(n: nat) -> Seq<int> {
    Seq::new(n, |i: int| i)
}

proof fn lemma_run_append(d: Dispatcher, a: Seq<Event>, b: Seq<Event>)
    ensures
        run(d, a + b) == run(run(d, a), b),
        dispatched(d, a + b) == dispatched(d, a) + dispatched(run(d, a), b),
    decreases a.len(),
{
    if a.len() == 0 {
        assert(a + b =~= b);
        assert(dispatched(d, a) + dispatched(run(d, a), b) =~= dispatched(d, b));
    } else {
        assert((a + b)[0] == a[0]);
        assert((a + b).drop_first() =~= a.drop_first() + b);
        lemma_run_append(step(d, a[0]), a.drop_first(), b);
        let r = dispatched(run(d, a), b);
        let rest = dispatched(step(d, a[0]), a.drop_first());
        match action_of(d) {
            Action::Emit(i) => if is_emit_outcome(a[0]) {
                assert(seq![i as int] + (rest + r) =~= (seq![i as int] + rest) + r);
            },
            _ => {},
        }
    }
}

proof fn lemma_clean_from(total: usize, k: usize, m: nat)
    requires
        k + m <= total,
    ensures
        run(at(total, k), clean(m)) == at(total, (k + m) as usize),
        dispatched(at(total, k), clean(m)) == Seq::new(m, |i: int| k + i),
    decreases m,
{
    if m == 0 {
        assert(dispatched(at(total, k), clean(m)) =~= Seq::new(m, |i: int| k + i));
    } else {
        let evs = clean(m);
        let d1 = step(at(total, k), Event::Decoded);
        let k1 = (k + 1) as usize;
        assert(evs[0] == Event::Decoded);
        assert(evs.drop_first()[0] == Event::Emitted);
        assert(step(d1, Event::Emitted) == at(total, k1));
        assert(evs.drop_first().drop_first() =~= clean((m - 1) as nat));
        lemma_clean_from(total, k1, (m - 1) as nat);
        assert(dispatched(at(total, k), evs) == dispatched(d1, evs.drop_first()));
        assert(run(at(total, k), evs) == run(d1, evs.drop_first()));
        assert(run(d1, evs.drop_first()) == run(
            at(total, k1),
            evs.drop_first().drop_first(),
        ));
        assert(seq![k as int] + Seq::new((m - 1) as nat, |i: int| k1 + i) =~= Seq::new(
            m,
            |i: int| k + i,
        ));
    }
}

/// Once a run has ended, in success or failure, further events dispatch
/// nothing and change nothing.
pub proof fn lemma_ended(d: Dispatcher, evs: Seq<Event>)
    requires
        action_of(d) is Finish || action_of(d) is Fail,
    ensures
        run(d, evs) == d,
        dispatched(d, evs) == Seq::<int>::empty(),
    decreases evs.len(),
{
    if evs.len() > 0 {
        lemma_ended(d, evs.drop_first());
    }
}

/// When every record decodes and every tone is emitted, a run over `total`
/// records dispatches each record exactly once, in order, and then finishes.
pub proof fn lemma_clean_run(total: usize)
    ensures
        dispatched(start(total), clean(total as nat)) == upto(total as nat),
        action_of(run(start(total), clean(total as nat))) == Action::Finish,
{
    lemma_clean_from(total, 0, total as nat);
    assert(upto(total as nat) =~= Seq::new(total as nat, |i: int| 0 + i));
}

/// A run over no records finishes at once and dispatches nothing, whatever
/// events follow.
pub proof fn lemma_empty_run(evs: Seq<Event>)
    ensures
        action_of(start(0)) == Action::Finish,
        run(start(0), evs) == start(0),
        dispatched(start(0), evs) == Seq::<int>::empty(),
{
    lemma_ended(start(0), evs);
}

/// When record `k` is malformed after `k` clean records, exactly the records
/// before it are dispatched, in order, and the run fails citing record `k`;
/// nothing after it is decoded or dispatched.
pub proof fn lemma_fail_fast_malformed(total: usize, k: usize, tail: Seq<Event>)
    requires
        k < total,
    ensures
        dispatched(start(total), clean(k as nat) + seq![Event::Malformed] + tail) == upto(k as nat),
        action_of(run(start(total), clean(k as nat) + seq![Event::Malformed] + tail))
            == Action::Fail(Failure::Malformed(k)),
{
    let a = clean(k as nat);
    let b = seq![Event::Malformed];
    lemma_clean_from(total, 0, k as nat);
    lemma_run_append(start(total), a, b);
    lemma_run_append(start(total), a + b, tail);
    let f = step(at(total, k), Event::Malformed);
    assert(b.drop_first() =~= Seq::<Event>::empty());
    assert(run(at(total, k), b) == run(f, Seq::<Event>::empty()));
    assert(run(at(total, k), b) == f);
    assert(dispatched(at(total, k), b) == dispatched(f, Seq::<Event>::empty()));
    lemma_ended(f, tail);
    assert(upto(k as nat) =~= Seq::new(k as nat, |i: int| 0 + i));
    assert(upto(k as nat) + Seq::<int>::empty() + Seq::<int>::empty() =~= upto(k as nat));
}

/// When the tone of record `k` fails after `k` clean records, the records up
/// to and including `k` are dispatched, in order, and the run fails citing
/// record `k`; nothing after it is decoded or dispatched.
pub proof fn lemma_fail_fast_tone(total: usize, k: usize, tail: Seq<Event>)
    requires
        k < total,
    ensures
        dispatched(start(total), clean(k as nat) + seq![Event::Decoded, Event::EmitFailed] + tail)
            == upto((k + 1) as nat),
        action_of(run(start(total), clean(k as nat) + seq![Event::Decoded, Event::EmitFailed] + tail))
            == Action::Fail(Failure::Tone(k)),
{
    let a = clean(k as nat);
    let b = seq![Event::Decoded, Event::EmitFailed];
    lemma_clean_from(total, 0, k as nat);
    lemma_run_append(start(total), a, b);
    lemma_run_append(start(total), a + b, tail);
    let d1 = step(at(total, k), Event::Decoded);
    let f = step(d1, Event::EmitFailed);
    assert(b.drop_first() =~= seq![Event::EmitFailed]);
    assert(b.drop_first().drop_first() =~= Seq::<Event>::empty());
    assert(run(at(total, k), b) == run(d1, b.drop_first()));
    assert(run(d1, b.drop_first()) == run(f, Seq::<Event>::empty()));
    assert(run(at(total, k), b) == f);
    assert(dispatched(d1, b.drop_first()) == seq![k as int] + dispatched(f, Seq::<Event>::empty()));
    assert(dispatched(at(total, k), b) =~= seq![k as int]);
    lemma_ended(f, tail);
    assert(Seq::new(k as nat, |i: int| 0 + i) + seq![k as int] + Seq::<int>::empty()
        =~= upto((k + 1) as nat));
}

} // verus!
