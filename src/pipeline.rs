use crate::fault::Fault;
use crate::machine::{
    all_values, inputs_since, live_sources, queued_values, InputType, Machine, Source,
    MAX_CAPACITY,
};
use crate::machine::Stop;
use crate::semantics::{lemma_run_extra_inputs, run_spec, Snapshot, Status};
use vstd::prelude::*;

verus! {

/// A machine about to run `program` from its first instruction.
pub open spec fn initial(program: Seq<i64>) -> Snapshot {
    Snapshot { memory: program, pc: 0, output: Seq::empty() }
}

/// What a machine given `inputs` and run to its end yields: its output if it halts.
pub open spec fn run_to_end(program: Seq<i64>, inputs: Seq<i64>) -> Result<Seq<i64>, Fault> {
    let res = run_spec(initial(program), inputs, u64::MAX as nat);
    match res.2 {
        Status::Halted => Ok(res.0.output),
        Status::Running => Err(Fault::StepLimit),
        Status::AwaitingInput => Err(Fault::InputExhausted),
        Status::Faulted(f) => Err(f),
    }
}

/// The output of machine `k` of a line where machine 0 reads its phase and then 0,
/// and each later machine reads its phase and then all that the one before produced.
pub open spec fn line_output(program: Seq<i64>, phases: Seq<i64>, k: nat) -> Result<
    Seq<i64>,
    Fault,
>
    decreases k,
{
    let before = if k == 0 {
        Ok(seq![0i64])
    } else {
        line_output(program, phases, (k - 1) as nat)
    };
    match before {
        Ok(signal) => run_to_end(program, seq![phases[k as int]] + signal),
        Err(f) => Err(f),
    }
}

/// The last element of a sequence, if any.
pub open spec fn last_of(s: Seq<i64>) -> Option<i64> {
    if s.len() > 0 {
        Some(s.last())
    } else {
        None
    }
}

proof fn lemma_queued_values_push(q: Seq<Source>, v: i64)
    ensures
        queued_values(q.push(Source::Value(v))) == queued_values(q) + seq![v],
    decreases q.len(),
{
    let p = q.push(Source::Value(v));
    if q.len() > 0 {
        assert(p.drop_first() =~= q.drop_first().push(Source::Value(v)));
        assert(p[0] == q[0]);
        lemma_queued_values_push(q.drop_first(), v);
        assert(seq![q[0]->Value_0] + (queued_values(q.drop_first()) + seq![v]) =~= (seq![
            q[0]->Value_0,
        ] + queued_values(q.drop_first())) + seq![v]);
    } else {
        assert(p.drop_first() =~= Seq::<Source>::empty());
        assert(queued_values(p.drop_first()) == Seq::<i64>::empty());
        assert(queued_values(p) == seq![v] + Seq::<i64>::empty());
        assert(seq![v] + Seq::<i64>::empty() =~= Seq::<i64>::empty() + seq![v]);
    }
}

/// A fault stops the line: every machine after it reports the same fault.
proof fn lemma_line_fault_stays(program: Seq<i64>, phases: Seq<i64>, k: nat, m: nat)
    requires
        k <= m,
        line_output(program, phases, k) is Err,
    ensures
        line_output(program, phases, m) == line_output(program, phases, k),
    decreases m - k,
{
    if k < m {
        lemma_line_fault_stays(program, phases, k, (m - 1) as nat);
    }
}

proof fn lemma_live_values(q: Seq<Source>)
    requires
        all_values(q),
    ensures
        live_sources(q) == q,
{
    if q.len() > 0 {
        assert(q[0] is Value);
    }
}

/// Queues each of `values` on `m`, as single values, in order.
fn feed(m: &mut Machine, values: &Vec<i64>)
    requires
        old(m).wf(),
    ensures
        final(m).wf(),
        final(m).snapshot() == old(m).snapshot(),
        final(m).received() == old(m).received(),
        final(m).is_connected() == old(m).is_connected(),
        all_values(old(m).sources()) ==> all_values(final(m).sources()) && queued_values(
            final(m).sources(),
        ) == queued_values(old(m).sources()) + values@,
{
    let ghost q0 = m.sources();
    for i in 0..values.len()
        invariant
            m.wf(),
            m.snapshot() == old(m).snapshot(),
            m.received() == old(m).received(),
            m.is_connected() == old(m).is_connected(),
            q0 == old(m).sources(),
            all_values(q0) ==> all_values(m.sources()) && queued_values(m.sources())
                == queued_values(q0) + values@.take(i as int),
    {
        let ghost q = m.sources();
        m.set_input(InputType::Value(values[i]));
        proof {
            if all_values(q0) {
                lemma_queued_values_push(q, values@[i as int]);
                assert(values@.take(i + 1) =~= values@.take(i as int) + seq![values@[i as int]]);
                assert(all_values(m.sources())) by {
                    assert forall|j: int| 0 <= j < m.sources().len() implies #[trigger] m.sources()[j] is Value by {
                        if j < q.len() {
                            assert(m.sources()[j] == q[j]);
                        }
                    }
                }
            }
        }
    }
    assert(values@.take(values.len() as int) =~= values@);
}

/// Runs a fresh machine on `program` with `inputs` queued, to its end.
fn run_with_inputs(program: &Vec<i64>, inputs: &Vec<i64>) -> (r: Result<Vec<i64>, Fault>)
    requires
        program.len() <= MAX_CAPACITY,
    ensures
        match run_to_end(program@, inputs@) {
            Ok(out) => r is Ok && r->Ok_0@ == out,
            Err(f) => r == Err::<Vec<i64>, Fault>(f),
        },
{
    let (_, mut m) = Machine::new(copy_of(program));
    assert(all_values(m.sources()));
    assert(queued_values(m.sources()) =~= Seq::<i64>::empty());
    feed(&mut m, inputs);
    assert(Seq::<i64>::empty() + inputs@ =~= inputs@);
    let ghost s0 = m.snapshot();
    let ghost q0 = m.sources();
    let result = m.execute();
    proof {
        let got = m.received();
        assert(Seq::<i64>::empty() + queued_values(q0) =~= queued_values(q0));
        assert(got.subrange(0, 0) =~= Seq::<i64>::empty());
        assert(inputs_since(Seq::<i64>::empty(), got) =~= got);
        let rest = queued_values(m.sources());
        assert(inputs@ == got + rest);
        let res = run_spec(s0, got, u64::MAX as nat);
        if res.2 is AwaitingInput {
            lemma_live_values(m.sources());
            assert(rest =~= Seq::<i64>::empty());
            assert(got + rest =~= got);
        } else {
            lemma_run_extra_inputs(s0, got, rest, u64::MAX as nat);
        }
    }
    match result {
        Ok(()) => Ok(copy_of(m.get_output())),
        Err(f) => Err(f),
    }
}

pub(crate) fn copy_of(v: &Vec<i64>) -> (r: Vec<i64>)
    ensures
        r@ == v@,
{
    let mut r: Vec<i64> = Vec::new();
    for i in 0..v.len()
        invariant
            r@ == v@.take(i as int),
    {
        r.push(v[i]);
        assert(r@ =~= v@.take(i + 1));
    }
    assert(v@.take(v.len() as int) =~= v@);
    r
}

/// Runs one machine per phase, in a line: machine 0 reads its phase and 0, each
/// later one its phase and everything the one before produced. Returns the last
/// value the last machine produced, or the first fault.
pub fn run_line(program: &Vec<i64>, phases: &Vec<i64>) -> (r: Result<Option<i64>, Fault>)
    requires
        program.len() <= MAX_CAPACITY,
        phases.len() > 0,
    ensures
        r == (match line_output(program@, phases@, (phases.len() - 1) as nat) {
            Ok(out) => Ok(last_of(out)),
            Err(f) => Err(f),
        }),
{
    let mut signal: Vec<i64> = vec![0];
    assert(signal@ =~= seq![0i64]);
    for k in 0..phases.len()
        invariant
            program.len() <= MAX_CAPACITY,
            k == 0 ==> signal@ == seq![0i64],
            k > 0 ==> line_output(program@, phases@, (k - 1) as nat) == Ok::<Seq<i64>, Fault>(
                signal@,
            ),
    {
        let mut inputs: Vec<i64> = vec![phases[k]];
        let mut j: usize = 0;
        while j < signal.len()
            invariant
                j <= signal.len(),
                k < phases.len(),
                inputs@ == seq![phases@[k as int]] + signal@.take(j as int),
            decreases signal.len() - j,
        {
            inputs.push(signal[j]);
            assert(inputs@ =~= seq![phases@[k as int]] + signal@.take(j + 1));
            j = j + 1;
        }
        assert(signal@.take(signal.len() as int) =~= signal@);
        match run_with_inputs(program, &inputs) {
            Ok(out) => {
                signal = out;
            },
            Err(f) => {
                proof {
                    lemma_line_fault_stays(program@, phases@, k as nat, (phases.len() - 1) as nat);
                }
                return Err(f);
            },
        }
    }
    Ok(
        if signal.len() > 0 {
            Some(signal[signal.len() - 1])
        } else {
            None
        },
    )
}

/// What a machine's turn in a ring does to its state `s` and queued values
/// `pending`: it runs until it halts or waits for input. Gives the state, the
/// values left and whether it halted, or the fault.
pub open spec fn turn(s: Snapshot, pending: Seq<i64>) -> Result<(Snapshot, Seq<i64>, bool), Fault> {
    let res = run_spec(s, pending, u64::MAX as nat);
    match res.2 {
        Status::Halted => Ok((res.0, res.1, true)),
        Status::AwaitingInput => Ok((res.0, res.1, false)),
        Status::Running => Err(Fault::StepLimit),
        Status::Faulted(f) => Err(f),
    }
}

/// One machine of a ring: its state, the values queued for it, whether it has
/// halted, and how much of its output has been passed on.
pub struct RingNode {
    pub snap: Snapshot,
    pub pending: Seq<i64>,
    pub halted: bool,
    pub sent: int,
}

/// The output of a machine not yet passed on.
pub open spec fn unsent(n: RingNode) -> Seq<i64> {
    if 0 <= n.sent <= n.snap.output.len() {
        n.snap.output.subrange(n.sent, n.snap.output.len() as int)
    } else {
        Seq::empty()
    }
}

/// Machine `i` takes its turn, unless it has halted, and its new output is
/// queued on the next machine, the last feeding the first. `progress` records
/// whether any machine has halted or produced output in this round.
pub open spec fn ring_turn(nodes: Seq<RingNode>, i: int, progress: bool) -> Result<
    (Seq<RingNode>, bool),
    Fault,
> {
    if nodes[i].halted {
        Ok((nodes, progress))
    } else {
        match turn(nodes[i].snap, nodes[i].pending) {
            Err(f) => Err(f),
            Ok((s, rest, h)) => {
                let t = RingNode { snap: s, pending: rest, halted: h, sent: nodes[i].sent };
                let out = unsent(t);
                let ns = nodes.update(i, RingNode { sent: s.output.len() as int, ..t });
                let j = if i == nodes.len() - 1 {
                    0
                } else {
                    i + 1
                };
                let ns2 = if out.len() > 0 {
                    ns.update(j, RingNode { pending: ns[j].pending + out, ..ns[j] })
                } else {
                    ns
                };
                Ok((ns2, progress || h || out.len() > 0))
            },
        }
    }
}

/// The first `k` machines take their turns, in order.
pub open spec fn ring_round(nodes: Seq<RingNode>, k: int) -> Result<(Seq<RingNode>, bool), Fault>
    decreases k,
{
    if k <= 0 {
        Ok((nodes, false))
    } else {
        match ring_round(nodes, k - 1) {
            Err(f) => Err(f),
            Ok((ns, p)) => ring_turn(ns, k - 1, p),
        }
    }
}

pub open spec fn all_halted(nodes: Seq<RingNode>) -> bool {
    forall|i: int| 0 <= i < nodes.len() ==> (#[trigger] nodes[i]).halted
}

/// Rounds until every machine has halted, for at most `rounds` rounds: the
/// last value of the last machine, or the first fault; a round in which no
/// machine halts or produces output means none can go on.
pub open spec fn ring_from(nodes: Seq<RingNode>, rounds: nat) -> Result<Option<i64>, Fault>
    decreases rounds,
{
    if rounds == 0 {
        Err(Fault::StepLimit)
    } else {
        match ring_round(nodes, nodes.len() as int) {
            Err(f) => Err(f),
            Ok((ns, p)) => if all_halted(ns) {
                Ok(last_of(ns.last().snap.output))
            } else if !p {
                Err(Fault::InputExhausted)
            } else {
                ring_from(ns, (rounds - 1) as nat)
            },
        }
    }
}

/// The machines of a ring before the first round: machine 0 has its phase and
/// 0 queued, the others their phase.
pub open spec fn ring_start(program: Seq<i64>, phases: Seq<i64>) -> Seq<RingNode> {
    Seq::new(
        phases.len(),
        |i: int|
            RingNode {
                snap: initial(program),
                pending: if i == 0 {
                    seq![phases[0], 0i64]
                } else {
                    seq![phases[i]]
                },
                halted: false,
                sent: 0,
            },
    )
}

/// What a ring of machines in the order `phases` ends with.
pub open spec fn ring_signal(program: Seq<i64>, phases: Seq<i64>) -> Result<Option<i64>, Fault> {
    ring_from(ring_start(program, phases), u64::MAX as nat)
}

/// The machines, with their halted flags and counts of output passed on, are
/// the nodes.
pub open spec fn mirrors(
    machines: Seq<Machine>,
    halted: Seq<bool>,
    sent: Seq<usize>,
    nodes: Seq<RingNode>,
) -> bool {
    &&& machines.len() == nodes.len()
    &&& halted.len() == nodes.len()
    &&& sent.len() == nodes.len()
    &&& forall|k: int|
        0 <= k < nodes.len() ==> {
            &&& (#[trigger] machines[k]).wf()
            &&& all_values(machines[k].sources())
            &&& machines[k].snapshot() == nodes[k].snap
            &&& queued_values(machines[k].sources()) == nodes[k].pending
            &&& halted[k] == nodes[k].halted
            &&& sent[k] as int == nodes[k].sent
        }
}

/// The values of `v` from index `from` on.
fn tail_from(v: &Vec<i64>, from: usize) -> (r: Vec<i64>)
    ensures
        from <= v.len() ==> r@ == v@.subrange(from as int, v.len() as int),
        from > v.len() ==> r@.len() == 0,
{
    let mut r: Vec<i64> = Vec::new();
    let mut k = from;
    while k < v.len()
        invariant
            from <= k <= v.len() || (k == from && from > v.len()),
            k <= v.len() ==> r@ == v@.subrange(from as int, k as int),
            from > v.len() ==> r@.len() == 0,
        decreases v.len() - k,
    {
        r.push(v[k]);
        assert(r@ =~= v@.subrange(from as int, k + 1));
        k = k + 1;
    }
    r
}

/// One turn of a machine of the ring: it runs until it halts or waits for input.
fn take_turn(m: &mut Machine) -> (r: Result<Stop, Fault>)
    requires
        old(m).wf(),
        all_values(old(m).sources()),
    ensures
        final(m).wf(),
        all_values(final(m).sources()),
        match turn(old(m).snapshot(), queued_values(old(m).sources())) {
            Err(f) => r == Err::<Stop, Fault>(f) || (f == Fault::StepLimit && r == Ok::<
                Stop,
                Fault,
            >(Stop::OutOfSteps)),
            Ok((s, rest, h)) => r == Ok::<Stop, Fault>(
                if h {
                    Stop::Halted
                } else {
                    Stop::NeedsInput
                },
            ) && final(m).snapshot() == s && queued_values(final(m).sources()) == rest,
        },
{
    let ghost mb = *m;
    let r = m.run(u64::MAX);
    proof {
        let new = inputs_since(mb.received(), m.received());
        let rest = queued_values(m.sources());
        let a = mb.received();
        let q = queued_values(mb.sources());
        assert(m.received() =~= a + new);
        assert(a + q == m.received() + rest);
        assert((a + q).subrange(a.len() as int, (a + q).len() as int) =~= q);
        assert(((a + new) + rest).subrange(a.len() as int, (a + q).len() as int) =~= new + rest);
        let res = run_spec(mb.snapshot(), new, u64::MAX as nat);
        if res.2 is AwaitingInput {
            lemma_live_values(m.sources());
            assert(rest =~= Seq::<i64>::empty());
            assert(new + rest =~= new);
            assert(res.1 =~= Seq::<i64>::empty());
        } else {
            lemma_run_extra_inputs(mb.snapshot(), new, rest, u64::MAX as nat);
            assert(res.1 + rest =~= rest);
        }
    }
    r
}

/// Queues `values` on machine `j` of the ring.
fn deliver(machines: &mut Vec<Machine>, j: usize, values: &Vec<i64>)
    requires
        j < old(machines).len(),
        old(machines)@[j as int].wf(),
        all_values(old(machines)@[j as int].sources()),
    ensures
        final(machines)@ == old(machines)@.update(j as int, final(machines)@[j as int]),
        final(machines)@[j as int].wf(),
        all_values(final(machines)@[j as int].sources()),
        final(machines)@[j as int].snapshot() == old(machines)@[j as int].snapshot(),
        queued_values(final(machines)@[j as int].sources()) == queued_values(
            old(machines)@[j as int].sources(),
        ) + values@,
{
    let ghost ms = machines@;
    let mut t = machines.remove(j);
    assert(t == ms[j as int]);
    feed(&mut t, values);
    machines.insert(j, t);
    assert(machines@ =~= ms.update(j as int, t));
}

proof fn lemma_ring_round_fault(nodes: Seq<RingNode>, k: int, m: int)
    requires
        0 < k <= m,
        ring_round(nodes, k) is Err,
    ensures
        ring_round(nodes, m) == ring_round(nodes, k),
    decreases m - k,
{
    if k < m {
        lemma_ring_round_fault(nodes, k, m - 1);
    }
}

/// Machine `i`'s turn in a round, as `ring_turn` states it, on the machines.
fn play_turn(
    machines: &mut Vec<Machine>,
    halted: &mut Vec<bool>,
    sent: &mut Vec<usize>,
    i: usize,
    progress: bool,
    Ghost(nodes): Ghost<Seq<RingNode>>,
) -> (r: Result<(bool, Ghost<Seq<RingNode>>), Fault>)
    requires
        i < nodes.len(),
        mirrors(old(machines)@, old(halted)@, old(sent)@, nodes),
    ensures
        match ring_turn(nodes, i as int, progress) {
            Err(f) => r == Err::<(bool, Ghost<Seq<RingNode>>), Fault>(f),
            Ok((ns, p)) => r is Ok && r->Ok_0.0 == p && r->Ok_0.1@ == ns && mirrors(
                final(machines)@,
                final(halted)@,
                final(sent)@,
                ns,
            ),
        },
{
    let n = machines.len();
    if halted[i] {
        return Ok((progress, Ghost(nodes)));
    }
    let ghost ms0 = machines@;
    let ghost node = nodes[i as int];
    let mut m = machines.remove(i);
    assert(m == ms0[i as int]);
    let r = take_turn(&mut m);
    let h = match r {
        Ok(Stop::Halted) => true,
        Ok(Stop::NeedsInput) => false,
        Ok(Stop::OutOfSteps) => {
            return Err(Fault::StepLimit);
        },
        Err(f) => {
            return Err(f);
        },
    };
    let mut p = progress;
    if h {
        halted.set(i, true);
        p = true;
    }
    let fresh = tail_from(m.get_output(), sent[i]);
    let produced = m.get_output().len();
    sent.set(i, produced);
    let ghost t = RingNode {
        snap: m.snapshot(),
        pending: queued_values(m.sources()),
        halted: h,
        sent: node.sent,
    };
    assert(fresh@ == unsent(t));
    let ghost ns = nodes.update(i as int, RingNode { sent: m.snapshot().output.len() as int, ..t });
    machines.insert(i, m);
    assert(machines@ =~= ms0.update(i as int, m));
    assert(mirrors(machines@, halted@, sent@, ns)) by {
        assert forall|k: int| 0 <= k < n implies {
            &&& (#[trigger] machines@[k]).wf()
            &&& all_values(machines@[k].sources())
            &&& machines@[k].snapshot() == ns[k].snap
            &&& queued_values(machines@[k].sources()) == ns[k].pending
            &&& halted@[k] == ns[k].halted
            &&& sent@[k] as int == ns[k].sent
        } by {
            if k != i {
                assert(machines@[k] == ms0[k]);
            }
        }
    }
    let j = if i == n - 1 {
        0
    } else {
        i + 1
    };
    if fresh.len() > 0 {
        p = true;
        let ghost before = machines@;
        deliver(machines, j, &fresh);
        let ghost ns2 = ns.update(
            j as int,
            RingNode { pending: ns[j as int].pending + unsent(t), ..ns[j as int] },
        );
        assert(mirrors(machines@, halted@, sent@, ns2)) by {
            assert forall|k: int| 0 <= k < n implies {
                &&& (#[trigger] machines@[k]).wf()
                &&& all_values(machines@[k].sources())
                &&& machines@[k].snapshot() == ns2[k].snap
                &&& queued_values(machines@[k].sources()) == ns2[k].pending
                &&& halted@[k] == ns2[k].halted
                &&& sent@[k] as int == ns2[k].sent
            } by {
                if k != j {
                    assert(machines@[k] == before[k]);
                }
            }
        }
        Ok((p, Ghost(ns2)))
    } else {
        Ok((p, Ghost(ns)))
    }
}

/// A turn changes the halted flag of no machine but the one whose turn it is.
proof fn lemma_ring_turn_keeps_halted(nodes: Seq<RingNode>, i: int, k: int, progress: bool)
    requires
        0 <= k < i < nodes.len(),
    ensures
        ring_turn(nodes, i, progress) matches Ok((ns, p)) ==> ns[k].halted == nodes[k].halted,
{
}

/// Runs one machine per phase in a ring, each feeding the next and the last
/// feeding the first, taking turns in rounds until every machine has halted.
/// Machine 0 reads its phase and then 0; the others their phase. Returns the
/// last value the last machine produced, or the first fault; a round in which
/// no machine halts or produces output is `InputExhausted`.
pub fn run_feedback_loop(program: &Vec<i64>, phases: &Vec<i64>) -> (r: Result<Option<i64>, Fault>)
    requires
        program.len() <= MAX_CAPACITY,
        phases.len() > 0,
    ensures
        r == ring_signal(program@, phases@),
{
    let n = phases.len();
    let ghost start = ring_start(program@, phases@);
    let mut machines: Vec<Machine> = Vec::new();
    let mut halted: Vec<bool> = Vec::new();
    let mut sent: Vec<usize> = Vec::new();
    for i in 0..n
        invariant
            n == phases.len(),
            start == ring_start(program@, phases@),
            program.len() <= MAX_CAPACITY,
            mirrors(machines@, halted@, sent@, start.take(i as int)),
    {
        let (_, mut m) = Machine::new(copy_of(program));
        assert(all_values(m.sources()));
        assert(queued_values(m.sources()) =~= Seq::<i64>::empty());
        let mut first: Vec<i64> = vec![phases[i]];
        if i == 0 {
            first.push(0);
        }
        feed(&mut m, &first);
        assert(Seq::<i64>::empty() + first@ =~= start[i as int].pending);
        let ghost ms = machines@;
        machines.push(m);
        halted.push(false);
        sent.push(0);
        proof {
            let st = start.take(i + 1);
            assert forall|k: int| 0 <= k < st.len() implies {
                &&& (#[trigger] machines@[k]).wf()
                &&& all_values(machines@[k].sources())
                &&& machines@[k].snapshot() == st[k].snap
                &&& queued_values(machines@[k].sources()) == st[k].pending
                &&& halted@[k] == st[k].halted
                &&& sent@[k] as int == st[k].sent
            } by {
                if k < i {
                    assert(machines@[k] == ms[k]);
                    assert(st[k] == start.take(i as int)[k]);
                }
            }
        }
    }
    assert(start.take(n as int) =~= start);
    let ghost mut nodes = start;
    let mut rounds: u64 = 0;
    loop
        invariant
            n == phases.len(),
            n > 0,
            program.len() <= MAX_CAPACITY,
            nodes.len() == n,
            mirrors(machines@, halted@, sent@, nodes),
            ring_signal(program@, phases@) == ring_from(nodes, (u64::MAX - rounds) as nat),
        decreases u64::MAX - rounds,
    {
        if rounds == u64::MAX {
            return Err(Fault::StepLimit);
        }
        let ghost round_start = nodes;
        let mut progress = false;
        let mut all_done = true;
        for i in 0..n
            invariant
                n == phases.len(),
                n > 0,
                round_start.len() == n,
                nodes.len() == n,
                mirrors(machines@, halted@, sent@, nodes),
                ring_round(round_start, i as int) == Ok::<(Seq<RingNode>, bool), Fault>(
                    (nodes, progress),
                ),
                all_done == forall|k: int| 0 <= k < i ==> #[trigger] nodes[k].halted,
                ring_signal(program@, phases@) == ring_from(round_start, (u64::MAX - rounds) as nat),
                rounds < u64::MAX,
        {
            let ghost before = nodes;
            let ghost p0 = progress;
            match play_turn(&mut machines, &mut halted, &mut sent, i, progress, Ghost(nodes)) {
                Ok((p, ns)) => {
                    progress = p;
                    proof {
                        nodes = ns@;
                    }
                },
                Err(f) => {
                    proof {
                        assert(ring_round(round_start, i + 1) == Err::<(Seq<RingNode>, bool), Fault>(f));
                        lemma_ring_round_fault(round_start, i + 1, n as int);
                    }
                    return Err(f);
                },
            }
            if !halted[i] {
                all_done = false;
            }
            proof {
                assert(ring_turn(before, i as int, p0) == Ok::<(Seq<RingNode>, bool), Fault>(
                    (nodes, progress),
                ));
                assert forall|k: int| 0 <= k < i implies nodes[k].halted == before[k].halted by {
                    lemma_ring_turn_keeps_halted(before, i as int, k, p0);
                }
                assert(machines@[i as int].wf());
                assert(halted@[i as int] == nodes[i as int].halted);
                assert(all_done == forall|k: int| 0 <= k < i + 1 ==> #[trigger] nodes[k].halted);
            }
        }
        assert(all_done == all_halted(nodes));
        if all_done {
            let out = machines[n - 1].get_output();
            let value = if out.len() > 0 {
                Some(out[out.len() - 1])
            } else {
                None
            };
            assert(value == last_of(nodes.last().snap.output));
            return Ok(value);
        }
        if !progress {
            return Err(Fault::InputExhausted);
        }
        rounds = rounds + 1;
    }
}

} // verus!
