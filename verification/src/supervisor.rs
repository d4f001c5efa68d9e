//! The execution model of a resolved plan: one cooperative task per stage,
//! bounded queues between them, and a single latched cancellation signal.
//!
//! A run is driven one suspension-point observation at a time: `step(i)` is
//! what stage `i` does at its next blocking point, under any interleaving
//! the caller chooses.  Once the cancellation signal is set, the very next
//! observation of a stage makes it exit, so every stage returns within one
//! observation of cancellation; the signal is never cleared.  The
//! surrounding runtime maps `step` onto real task scheduling and turns a
//! refused queue operation into suspension.

use vstd::prelude::*;
use crate::datapoint::Sample;
use crate::graph::{ConfigError, FnShape, Plan, Role, shape_of_role};
use crate::queue::{BoundedQueue, can_send};
use crate::transform::{rename_batch, scale_batch};
use crate::datapoint::clone_batch;

verus! {

/// What a stage does between its blocking points.  An `EmitScript` stage
/// produces its fixed list of batches, one send per observation, then
/// idles; `Rename` and `Scale` transform every batch that passes through;
/// `Collect` consumes batches and keeps every sample it sees.
pub enum StageLogic {
    EmitScript(Vec<Vec<Sample>>),
    Rename(String),
    Scale(u64),
    Collect,
}

/// The shape of a stage logic: which queue endpoints it uses.
pub open spec fn logic_shape(l: StageLogic) -> FnShape {
    match l {
        StageLogic::EmitScript(_) => FnShape::Source,
        StageLogic::Rename(_) => FnShape::Through,
        StageLogic::Scale(_) => FnShape::Through,
        StageLogic::Collect => FnShape::Sink,
    }
}

/// Executable twin of [`logic_shape`].
pub fn shape_of_logic(l: &StageLogic) -> (s: FnShape)
    ensures
        s == logic_shape(*l),
{
    match l {
        StageLogic::EmitScript(_) => FnShape::Source,
        StageLogic::Rename(_) => FnShape::Through,
        StageLogic::Scale(_) => FnShape::Through,
        StageLogic::Collect => FnShape::Sink,
    }
}

/// A plan in the shape the resolver guarantees: queues bounded by at least
/// one slot, endpoints within range and agreeing with every stage's role,
/// an input queue owned by its own stage, and no stage feeding itself.
pub open spec fn plan_resolved(plan: Plan) -> bool {
    &&& plan.capacity >= 1
    &&& (forall|i: int|
        0 <= i < plan.stages@.len() ==> {
            &&& (plan.stages@[i].output is Some ==> plan.stages@[i].output->0
                < plan.stages@.len() && plan.stages@[i].output != Some(i as usize))
            &&& (plan.stages@[i].role == Role::Load <==> plan.stages@[i].output is None)
            &&& (plan.stages@[i].role == Role::Extract <==> plan.stages@[i].input is None)
            &&& (plan.stages@[i].input is Some ==> plan.stages@[i].input == Some(i as usize))
        })
}

/// A plan the resolver produced has the shape the run model requires; in
/// particular no stage feeds its own input, because the resolved wiring is
/// acyclic.
pub proof fn lemma_resolved_plan_shape(
    stages: Seq<crate::graph::StageDecl>,
    chains: Seq<Seq<Seq<char>>>,
    plan: Plan,
    capacity: int,
)
    requires
        crate::graph::plan_matches(stages, chains, plan, capacity),
        capacity >= 1,
    ensures
        plan_resolved(plan),
{
    assert forall|i: int|
        0 <= i < plan.stages@.len() implies {
        &&& (plan.stages@[i].output is Some ==> plan.stages@[i].output->0 < plan.stages@.len()
            && plan.stages@[i].output != Some(i as usize))
        &&& (plan.stages@[i].role == Role::Load <==> plan.stages@[i].output is None)
        &&& (plan.stages@[i].role == Role::Extract <==> plan.stages@[i].input is None)
        &&& (plan.stages@[i].input is Some ==> plan.stages@[i].input == Some(i as usize))
    } by {
        assert(plan.stages@[i].role == stages[i].role);
        if plan.stages@[i].output == Some(i as usize) {
            vstd::std_specs::vec::axiom_spec_len(&plan.stages);
            let succ = crate::graph::successors(plan.stages@);
            assert(succ.len() == plan.stages@.len());
            assert(succ[i] == Some(i as usize));
            assert((i as usize) as int == i);
            assert(crate::graph::walk(succ, i, 0nat) == Some(i));
            assert(crate::graph::walk(succ, i, 1nat) == Some(i));
            crate::graph::lemma_no_cycle_no_self_feed(succ, i, 1nat);
        }
    }
}

/// One run of a resolved graph: the plan, the logic bound to every stage,
/// the queues (queue `i` is the input of stage `i`), each producer's
/// progress through its script, what every consuming stage has received (a
/// batch tagged with the index of the stage that sent it), what every
/// collector holds, the cancellation signal, and which stages have exited.
pub struct PipelineRun {
    pub plan: Plan,
    pub logics: Vec<StageLogic>,
    pub queues: Vec<BoundedQueue<(usize, Vec<Sample>)>>,
    pub emitted: Vec<usize>,
    pub delivered: Vec<Vec<(usize, Vec<Sample>)>>,
    pub collected: Vec<Vec<Sample>>,
    pub cancelled: bool,
    pub exited: Vec<bool>,
}

/// The script of an emitting stage (empty for any other logic).
pub open spec fn producer_script(r: PipelineRun, p: int) -> Seq<Vec<Sample>> {
    match r.logics@[p] {
        StageLogic::EmitScript(s) => s@,
        _ => Seq::empty(),
    }
}

impl PipelineRun {
    /// The number of stages of this run.
    pub open spec fn n(&self) -> int {
        self.plan.stages@.len() as int
    }

    /// Run well-formedness: the plan is resolved, every per-stage vector
    /// has one entry per stage, every logic's shape matches its stage's
    /// role, every queue is bounded by the plan's capacity, a producer
    /// never stands past the end of its script, and every batch buffered in
    /// queue `i` is tagged with a stage whose output is queue `i`.
    pub open spec fn wf(&self) -> bool {
        &&& plan_resolved(self.plan)
        &&& self.logics@.len() == self.n()
        &&& self.queues@.len() == self.n()
        &&& self.emitted@.len() == self.n()
        &&& self.delivered@.len() == self.n()
        &&& self.collected@.len() == self.n()
        &&& self.exited@.len() == self.n()
        &&& (forall|i: int|
            0 <= i < self.n() ==> logic_shape(#[trigger] self.logics@[i]) == shape_of_role(
                self.plan.stages@[i].role,
            ))
        &&& (forall|i: int|
            0 <= i < self.n() ==> (#[trigger] self.queues@[i]).wf() && self.queues@[i].cap
                == self.plan.capacity)
        &&& (forall|i: int|
            0 <= i < self.n() ==> #[trigger] self.emitted@[i] <= producer_script(*self, i).len())
        &&& (forall|i: int, k: int|
            0 <= i < self.n() && 0 <= k < self.queues@[i].items@.len() ==> {
                let tag = (#[trigger] self.queues@[i].items@[k]).0 as int;
                &&& 0 <= tag < self.n()
                &&& self.plan.stages@[tag].output == Some(i as usize)
            })
    }

    /// Bind a logic to every stage of a resolved plan and set up the run:
    /// empty queues, no progress, nothing delivered or collected, the
    /// cancellation signal clear, every stage running.
    ///
    /// Fails with `shape mismatch` naming the offending stage exactly when
    /// some stage's logic has a different shape than its declared role
    /// requires (the binding-time half of the signature validator); nothing
    /// is set up then, so no stage can ever start.
    pub fn start(plan: Plan, logics: Vec<StageLogic>) -> (r: Result<PipelineRun, ConfigError>)
        requires
            plan_resolved(plan),
            logics@.len() == plan.stages@.len(),
        ensures
            match r {
                Ok(run) => {
                    &&& (forall|i: int|
                        0 <= i < plan.stages@.len() ==> logic_shape(#[trigger] logics@[i])
                            == shape_of_role(plan.stages@[i].role))
                    &&& run.wf()
                    &&& run.plan == plan
                    &&& run.logics == logics
                    &&& !run.cancelled
                    &&& (forall|i: int|
                        0 <= i < run.n() ==> (#[trigger] run.queues@[i]).items@.len() == 0)
                    &&& (forall|i: int| 0 <= i < run.n() ==> #[trigger] run.emitted@[i] == 0)
                    &&& (forall|i: int|
                        0 <= i < run.n() ==> (#[trigger] run.delivered@[i])@.len() == 0)
                    &&& (forall|i: int|
                        0 <= i < run.n() ==> (#[trigger] run.collected@[i])@.len() == 0)
                    &&& (forall|i: int| 0 <= i < run.n() ==> !(#[trigger] run.exited@[i]))
                    &&& fifo_inv(run)
                },
                Err(ConfigError::ShapeMismatch(n)) => exists|i: int|
                    0 <= i < plan.stages@.len() && logic_shape(logics@[i]) != shape_of_role(
                        plan.stages@[i].role,
                    ) && n@ == plan.stages@[i].name@,
                Err(_) => false,
            },
    {
        let n = plan.stages.len();
        let mut i: usize = 0;
        while i < n
            invariant
                n == plan.stages@.len(),
                logics@.len() == n,
                i <= n,
                forall|p: int|
                    0 <= p < i ==> logic_shape(#[trigger] logics@[p]) == shape_of_role(
                        plan.stages@[p].role,
                    ),
            decreases n - i,
        {
            let want = crate::graph::required_shape(plan.stages[i].role);
            if shape_of_logic(&logics[i]) != want {
                return Err(ConfigError::ShapeMismatch(plan.stages[i].name.clone()));
            }
            i += 1;
        }
        let cap = plan.capacity;
        let mut queues: Vec<BoundedQueue<(usize, Vec<Sample>)>> = Vec::new();
        let mut emitted: Vec<usize> = Vec::new();
        let mut delivered: Vec<Vec<(usize, Vec<Sample>)>> = Vec::new();
        let mut collected: Vec<Vec<Sample>> = Vec::new();
        let mut exited: Vec<bool> = Vec::new();
        let mut i: usize = 0;
        while i < n
            invariant
                cap == plan.capacity,
                plan_resolved(plan),
                i <= n,
                queues@.len() == i,
                emitted@.len() == i,
                delivered@.len() == i,
                collected@.len() == i,
                exited@.len() == i,
                forall|p: int|
                    0 <= p < i ==> (#[trigger] queues@[p]).wf() && queues@[p].cap == cap
                        && queues@[p].items@.len() == 0,
                forall|p: int| 0 <= p < i ==> #[trigger] emitted@[p] == 0,
                forall|p: int| 0 <= p < i ==> (#[trigger] delivered@[p])@.len() == 0,
                forall|p: int| 0 <= p < i ==> (#[trigger] collected@[p])@.len() == 0,
                forall|p: int| 0 <= p < i ==> !(#[trigger] exited@[p]),
            decreases n - i,
        {
            queues.push(BoundedQueue::new(cap));
            emitted.push(0);
            delivered.push(Vec::new());
            collected.push(Vec::new());
            exited.push(false);
            i += 1;
        }
        let run = PipelineRun {
            plan,
            logics,
            queues,
            emitted,
            delivered,
            collected,
            cancelled: false,
            exited,
        };
        proof {
            assert forall|l: int, p: int|
                0 <= l < run.n() && 0 <= p < run.n() && run.logics@[p] is EmitScript
                    && run.plan.stages@[p].output == Some(l as usize) implies #[trigger] sent_trace(
                run,
                l,
                p,
            ) == script_views(producer_script(run, p)).take(run.emitted@[p] as int) by {
                assert(run.delivered@[l]@.filter(tag_is(p)) =~= Seq::<(
                    usize,
                    Vec<Sample>,
                )>::empty());
                assert(run.queues@[l].items@.filter(tag_is(p)) =~= Seq::<(
                    usize,
                    Vec<Sample>,
                )>::empty());
                assert(sent_trace(run, l, p) =~= Seq::<Seq<Sample>>::empty());
                assert(script_views(producer_script(run, p)).take(0) =~= Seq::<
                    Seq<Sample>,
                >::empty());
            }
        }
        Ok(run)
    }

    /// Trigger the cancellation signal: idempotent, touches nothing else,
    /// and once set it stays set for the rest of the run.
    pub fn cancel(&mut self)
        requires
            old(self).wf(),
        ensures
            final(self).wf(),
            final(self).cancelled,
            final(self).plan == old(self).plan,
            final(self).logics == old(self).logics,
            final(self).queues == old(self).queues,
            final(self).emitted == old(self).emitted,
            final(self).delivered == old(self).delivered,
            final(self).collected == old(self).collected,
            final(self).exited == old(self).exited,
    {
        self.cancelled = true;
    }

    /// Whether the cancellation signal is set.
    pub fn is_cancelled(&self) -> (c: bool)
        ensures
            c == self.cancelled,
    {
        self.cancelled
    }

    /// Append one tagged batch to queue `d` if it has room.
    fn queue_push(&mut self, d: usize, item: (usize, Vec<Sample>)) -> (sent: bool)
        requires
            old(self).wf(),
            (d as int) < old(self).n(),
            (item.0 as int) < old(self).n(),
            old(self).plan.stages@[item.0 as int].output == Some(d),
        ensures
            final(self).wf(),
            final(self).plan == old(self).plan,
            final(self).logics == old(self).logics,
            final(self).emitted == old(self).emitted,
            final(self).delivered == old(self).delivered,
            final(self).collected == old(self).collected,
            final(self).cancelled == old(self).cancelled,
            final(self).exited == old(self).exited,
            final(self).queues@.len() == old(self).queues@.len(),
            forall|j: int|
                0 <= j < old(self).n() && j != d as int ==> final(self).queues@[j] == old(
                    self,
                ).queues@[j],
            sent == can_send(old(self).queues@[d as int]),
            sent ==> final(self).queues@[d as int].items@ == old(self).queues@[
                d as int
            ].items@.push(item) && final(self).queues@[d as int].cap == old(self).queues@[
                d as int
            ].cap,
            !sent ==> final(self).queues@[d as int] == old(self).queues@[d as int],
    {
        let mut q = self.queues.remove(d);
        let sent = q.try_send(item);
        self.queues.insert(d, q);
        proof {
            assert(self.queues@ =~= old(self).queues@.update(d as int, self.queues@[d as int]));
        }
        sent
    }

    /// Take the oldest tagged batch out of queue `i`, if any.
    fn queue_pop(&mut self, i: usize) -> (r: Option<(usize, Vec<Sample>)>)
        requires
            old(self).wf(),
            (i as int) < old(self).n(),
        ensures
            final(self).wf(),
            final(self).plan == old(self).plan,
            final(self).logics == old(self).logics,
            final(self).emitted == old(self).emitted,
            final(self).delivered == old(self).delivered,
            final(self).collected == old(self).collected,
            final(self).cancelled == old(self).cancelled,
            final(self).exited == old(self).exited,
            final(self).queues@.len() == old(self).queues@.len(),
            forall|j: int|
                0 <= j < old(self).n() && j != i as int ==> final(self).queues@[j] == old(
                    self,
                ).queues@[j],
            match r {
                Some(it) => {
                    &&& old(self).queues@[i as int].items@.len() > 0
                    &&& it == old(self).queues@[i as int].items@[0]
                    &&& (it.0 as int) < old(self).n()
                    &&& old(self).plan.stages@[it.0 as int].output == Some(i)
                    &&& final(self).queues@[i as int].items@ == old(self).queues@[
                        i as int
                    ].items@.drop_first()
                    &&& final(self).queues@[i as int].cap == old(self).queues@[i as int].cap
                },
                None => old(self).queues@[i as int].items@.len() == 0 && final(self).queues@[
                    i as int
                ] == old(self).queues@[i as int],
            },
    {
        let mut q = self.queues.remove(i);
        let r = q.try_recv();
        self.queues.insert(i, q);
        proof {
            assert(self.queues@ =~= old(self).queues@.update(i as int, self.queues@[i as int]));
        }
        r
    }

    /// Append one tagged batch to stage `i`'s reception history.
    fn record_delivery(&mut self, i: usize, item: (usize, Vec<Sample>))
        requires
            old(self).wf(),
            (i as int) < old(self).n(),
        ensures
            final(self).wf(),
            final(self).plan == old(self).plan,
            final(self).logics == old(self).logics,
            final(self).queues == old(self).queues,
            final(self).emitted == old(self).emitted,
            final(self).collected == old(self).collected,
            final(self).cancelled == old(self).cancelled,
            final(self).exited == old(self).exited,
            final(self).delivered@.len() == old(self).delivered@.len(),
            forall|j: int|
                0 <= j < old(self).n() && j != i as int ==> final(self).delivered@[j] == old(
                    self,
                ).delivered@[j],
            final(self).delivered@[i as int]@ == old(self).delivered@[i as int]@.push(item),
    {
        let mut dv = self.delivered.remove(i);
        dv.push(item);
        self.delivered.insert(i, dv);
        proof {
            assert(self.delivered@ =~= old(self).delivered@.update(
                i as int,
                self.delivered@[i as int],
            ));
        }
    }

    /// Append every sample of one batch to collector `i`'s record.
    fn record_collect(&mut self, i: usize, batch: Vec<Sample>)
        requires
            old(self).wf(),
            (i as int) < old(self).n(),
        ensures
            final(self).wf(),
            final(self).plan == old(self).plan,
            final(self).logics == old(self).logics,
            final(self).queues == old(self).queues,
            final(self).emitted == old(self).emitted,
            final(self).delivered == old(self).delivered,
            final(self).cancelled == old(self).cancelled,
            final(self).exited == old(self).exited,
            final(self).collected@.len() == old(self).collected@.len(),
            forall|j: int|
                0 <= j < old(self).n() && j != i as int ==> final(self).collected@[j] == old(
                    self,
                ).collected@[j],
            final(self).collected@[i as int]@ == old(self).collected@[i as int]@ + batch@,
    {
        let mut c = self.collected.remove(i);
        let m = batch.len();
        let mut k: usize = 0;
        while k < m
            invariant
                m == batch@.len(),
                k <= m,
                c@ =~= old(self).collected@[i as int]@ + batch@.take(k as int),
            decreases m - k,
        {
            c.push(crate::datapoint::clone_sample(&batch[k]));
            proof {
                assert(c@ =~= old(self).collected@[i as int]@ + batch@.take(k as int + 1));
            }
            k += 1;
        }
        proof {
            assert(batch@.take(m as int) =~= batch@);
        }
        self.collected.insert(i, c);
        proof {
            assert(self.collected@ =~= old(self).collected@.update(
                i as int,
                self.collected@[i as int],
            ));
        }
    }

    /// Whether stage `i` has exited.
    pub fn has_exited(&self, i: usize) -> (e: bool)
        requires
            self.wf(),
            (i as int) < self.n(),
        ensures
            e == self.exited@[i as int],
    {
        self.exited[i]
    }
}

/// `dst` is `src` with every executable path prefixed by `prefix` and
/// nothing else changed.
pub open spec fn renamed_from(prefix: Seq<char>, src: Seq<Sample>, dst: Seq<Sample>) -> bool {
    &&& dst.len() == src.len()
    &&& (forall|k: int|
        0 <= k < src.len() ==> {
            &&& (#[trigger] dst[k]).pid == src[k].pid
            &&& dst[k].cpu_time == src[k].cpu_time
            &&& dst[k].exe@ == prefix + src[k].exe@
        })
}

/// `dst` is `src` with every CPU time multiplied by `factor` (saturating)
/// and nothing else changed.
pub open spec fn scaled_from(factor: u64, src: Seq<Sample>, dst: Seq<Sample>) -> bool {
    &&& dst.len() == src.len()
    &&& (forall|k: int|
        0 <= k < src.len() ==> {
            &&& (#[trigger] dst[k]).pid == src[k].pid
            &&& dst[k].exe@ == src[k].exe@
            &&& dst[k].cpu_time == (if src[k].cpu_time * factor <= u64::MAX {
                src[k].cpu_time * factor
            } else {
                u64::MAX as int
            })
        })
}

/// The batch `dst` is what stage logic `l` makes of the batch `src`.
pub open spec fn transformed_by(l: StageLogic, src: Seq<Sample>, dst: Seq<Sample>) -> bool {
    match l {
        StageLogic::Rename(prefix) => renamed_from(prefix@, src, dst),
        StageLogic::Scale(factor) => scaled_from(factor, src, dst),
        _ => false,
    }
}

/// These parts of the run are the same in `pre` and `post`.
pub open spec fn same_frame(pre: PipelineRun, post: PipelineRun) -> bool {
    &&& post.plan == pre.plan
    &&& post.logics == pre.logics
    &&& post.cancelled == pre.cancelled
    &&& post.exited == pre.exited
}

/// One observation of a producing stage: when its script still has a batch
/// to send and the downstream queue has room, the next script batch goes
/// out (tagged with the producer) and the producer's progress advances by
/// one; otherwise nothing changes.  A producer whose script is exhausted
/// idles until cancellation.
pub open spec fn source_step(pre: PipelineRun, post: PipelineRun, i: int) -> bool {
    let d = pre.plan.stages@[i].output->0 as int;
    let k = pre.emitted@[i] as int;
    if k < producer_script(pre, i).len() && can_send(pre.queues@[d]) {
        &&& same_frame(pre, post)
        &&& post.delivered == pre.delivered
        &&& post.collected == pre.collected
        &&& post.emitted@ == pre.emitted@.update(i, (k + 1) as usize)
        &&& post.queues@.len() == pre.queues@.len()
        &&& (forall|j: int| 0 <= j < pre.n() && j != d ==> post.queues@[j] == pre.queues@[j])
        &&& post.queues@[d].cap == pre.queues@[d].cap
        &&& post.queues@[d].items@.len() == pre.queues@[d].items@.len() + 1
        &&& post.queues@[d].items@.take(pre.queues@[d].items@.len() as int) == pre.queues@[
            d
        ].items@
        &&& (post.queues@[d].items@.last().0 as int) == i
        &&& post.queues@[d].items@.last().1@ == producer_script(pre, i)[k]@
    } else {
        post == pre
    }
}

/// One observation of a transforming stage: when a batch is waiting and
/// the downstream queue has room, the batch is taken in, recorded as
/// delivered, transformed, and sent on (tagged with the transformer);
/// otherwise nothing changes.
pub open spec fn through_step(pre: PipelineRun, post: PipelineRun, i: int) -> bool {
    let d = pre.plan.stages@[i].output->0 as int;
    if pre.queues@[i].items@.len() > 0 && can_send(pre.queues@[d]) {
        let item = pre.queues@[i].items@[0];
        &&& same_frame(pre, post)
        &&& post.emitted == pre.emitted
        &&& post.collected == pre.collected
        &&& post.delivered@.len() == pre.delivered@.len()
        &&& (forall|j: int| 0 <= j < pre.n() && j != i ==> post.delivered@[j] == pre.delivered@[j])
        &&& post.delivered@[i]@ == pre.delivered@[i]@.push(item)
        &&& post.queues@.len() == pre.queues@.len()
        &&& (forall|j: int|
            0 <= j < pre.n() && j != d && j != i ==> post.queues@[j] == pre.queues@[j])
        &&& post.queues@[i].cap == pre.queues@[i].cap
        &&& post.queues@[i].items@ == pre.queues@[i].items@.drop_first()
        &&& post.queues@[d].cap == pre.queues@[d].cap
        &&& post.queues@[d].items@.len() == pre.queues@[d].items@.len() + 1
        &&& post.queues@[d].items@.take(pre.queues@[d].items@.len() as int) == pre.queues@[
            d
        ].items@
        &&& (post.queues@[d].items@.last().0 as int) == i
        &&& transformed_by(pre.logics@[i], item.1@, post.queues@[d].items@.last().1@)
    } else {
        post == pre
    }
}

/// One observation of a collecting stage: when a batch is waiting it is
/// taken in, recorded as delivered, and every sample in it appended to the
/// stage's collection; otherwise nothing changes.  A collector idles on an
/// empty queue until cancellation.
pub open spec fn sink_step(pre: PipelineRun, post: PipelineRun, i: int) -> bool {
    if pre.queues@[i].items@.len() > 0 {
        let item = pre.queues@[i].items@[0];
        &&& same_frame(pre, post)
        &&& post.emitted == pre.emitted
        &&& post.delivered@.len() == pre.delivered@.len()
        &&& (forall|j: int| 0 <= j < pre.n() && j != i ==> post.delivered@[j] == pre.delivered@[j])
        &&& post.delivered@[i]@ == pre.delivered@[i]@.push(item)
        &&& post.collected@.len() == pre.collected@.len()
        &&& (forall|j: int| 0 <= j < pre.n() && j != i ==> post.collected@[j] == pre.collected@[j])
        &&& post.collected@[i]@ == pre.collected@[i]@ + item.1@
        &&& post.queues@.len() == pre.queues@.len()
        &&& (forall|j: int| 0 <= j < pre.n() && j != i ==> post.queues@[j] == pre.queues@[j])
        &&& post.queues@[i].cap == pre.queues@[i].cap
        &&& post.queues@[i].items@ == pre.queues@[i].items@.drop_first()
    } else {
        post == pre
    }
}

/// Whether a queued item was sent by stage `p`.
pub open spec fn tag_is(p: int) -> spec_fn((usize, Vec<Sample>)) -> bool {
    |it: (usize, Vec<Sample>)| it.0 as int == p
}

/// The batch contents of a tagged item sequence.
pub open spec fn batch_views(s: Seq<(usize, Vec<Sample>)>) -> Seq<Seq<Sample>> {
    s.map_values(|it: (usize, Vec<Sample>)| it.1@)
}

/// The batch contents of a script.
pub open spec fn script_views(s: Seq<Vec<Sample>>) -> Seq<Seq<Sample>> {
    s.map_values(|b: Vec<Sample>| b@)
}

/// Everything consumer `l` has taken in from producer `p` so far, in
/// arrival order, followed by what still waits in `l`'s queue from `p`.
pub open spec fn sent_trace(r: PipelineRun, l: int, p: int) -> Seq<Seq<Sample>> {
    batch_views(r.delivered@[l]@.filter(tag_is(p))) + batch_views(
        r.queues@[l].items@.filter(tag_is(p)),
    )
}

/// Per-producer FIFO: for every producer and the consumer it feeds, what
/// the consumer has taken in followed by what still waits is exactly the
/// prefix of the producer's script sent so far — no batch is lost,
/// duplicated or reordered between one producer and its consumer, whatever
/// the interleaving with other producers sharing the queue.
pub open spec fn fifo_inv(r: PipelineRun) -> bool {
    forall|l: int, p: int|
        0 <= l < r.n() && 0 <= p < r.n() && r.logics@[p] is EmitScript && r.plan.stages@[p].output
            == Some(l as usize) ==> #[trigger] sent_trace(r, l, p) == script_views(
            producer_script(r, p),
        ).take(r.emitted@[p] as int)
}

/// Filtering one appended item.
proof fn lemma_filter_push(
    s: Seq<(usize, Vec<Sample>)>,
    x: (usize, Vec<Sample>),
    pred: spec_fn((usize, Vec<Sample>)) -> bool,
)
    ensures
        s.push(x).filter(pred) == (if pred(x) {
            s.filter(pred).push(x)
        } else {
            s.filter(pred)
        }),
{
    assert(s.push(x).drop_last() =~= s);
    assert(s.push(x).last() == x);
    reveal(Seq::filter);
}

/// Filtering a one-item sequence.
proof fn lemma_filter_singleton(
    x: (usize, Vec<Sample>),
    pred: spec_fn((usize, Vec<Sample>)) -> bool,
)
    ensures
        seq![x].filter(pred) == (if pred(x) {
            seq![x]
        } else {
            Seq::<(usize, Vec<Sample>)>::empty()
        }),
{
    assert(seq![x].drop_last() =~= Seq::<(usize, Vec<Sample>)>::empty());
    assert(seq![x].last() == x);
    reveal(Seq::filter);
    assert(Seq::<(usize, Vec<Sample>)>::empty().filter(pred) =~= Seq::<(
        usize,
        Vec<Sample>,
    )>::empty());
}

/// Filtering the front item off.
proof fn lemma_filter_drop_first(
    s: Seq<(usize, Vec<Sample>)>,
    pred: spec_fn((usize, Vec<Sample>)) -> bool,
)
    requires
        s.len() > 0,
    ensures
        s.filter(pred) == (if pred(s[0]) {
            seq![s[0]] + s.drop_first().filter(pred)
        } else {
            s.drop_first().filter(pred)
        }),
{
    assert(s =~= seq![s[0]] + s.drop_first());
    Seq::filter_distributes_over_add(seq![s[0]], s.drop_first(), pred);
    lemma_filter_singleton(s[0], pred);
    if !pred(s[0]) {
        assert(Seq::<(usize, Vec<Sample>)>::empty() + s.drop_first().filter(pred)
            =~= s.drop_first().filter(pred));
    }
}

/// A run that differs only in its exit flags, its collections or the
/// cancellation signal keeps per-producer FIFO: in particular cancelling
/// does not disturb it.
pub proof fn lemma_fifo_frame(pre: PipelineRun, post: PipelineRun)
    requires
        fifo_inv(pre),
        post.plan == pre.plan,
        post.logics == pre.logics,
        post.queues == pre.queues,
        post.emitted == pre.emitted,
        post.delivered == pre.delivered,
    ensures
        fifo_inv(post),
{
    assert forall|l: int, p: int|
        0 <= l < post.n() && 0 <= p < post.n() && post.logics@[p] is EmitScript
            && post.plan.stages@[p].output == Some(l as usize) implies #[trigger] sent_trace(
        post,
        l,
        p,
    ) == script_views(producer_script(post, p)).take(post.emitted@[p] as int) by {
        assert(sent_trace(post, l, p) == sent_trace(pre, l, p));
        assert(producer_script(post, p) == producer_script(pre, p));
    }
}

/// A producer's observation keeps per-producer FIFO.
proof fn lemma_source_fifo(pre: PipelineRun, post: PipelineRun, i: int)
    requires
        pre.wf(),
        post.wf(),
        0 <= i < pre.n(),
        pre.logics@[i] is EmitScript,
        source_step(pre, post, i),
        fifo_inv(pre),
    ensures
        fifo_inv(post),
{
    assert(shape_of_role(pre.plan.stages@[i].role) == FnShape::Source);
    assert(pre.plan.stages@[i].role == Role::Extract);
    assert(pre.plan.stages@[i].output is Some);
    let d = pre.plan.stages@[i].output->0 as int;
    assert(pre.plan.stages@[i].output == Some(d as usize));
    let k = pre.emitted@[i] as int;
    let sv = pre.logics@[i]->EmitScript_0;
    assert(producer_script(pre, i) == sv@);
    vstd::std_specs::vec::axiom_spec_len(&sv);
    vstd::std_specs::vec::axiom_spec_len(&pre.plan.stages);
    assert(sv@.len() <= usize::MAX);
    assert(pre.n() <= usize::MAX);
    if k < producer_script(pre, i).len() && can_send(pre.queues@[d]) {
        let x = post.queues@[d].items@.last();
        assert(post.queues@[d].items@ =~= pre.queues@[d].items@.push(x));
        assert forall|l: int, p: int|
            0 <= l < post.n() && 0 <= p < post.n() && post.logics@[p] is EmitScript
                && post.plan.stages@[p].output == Some(l as usize) implies #[trigger] sent_trace(
            post,
            l,
            p,
        ) == script_views(producer_script(post, p)).take(post.emitted@[p] as int) by {
            assert(producer_script(post, p) == producer_script(pre, p));
            if l == d {
                lemma_filter_push(pre.queues@[d].items@, x, tag_is(p));
                if p == i {
                    assert(tag_is(p)(x));
                    assert(batch_views(
                        pre.queues@[d].items@.filter(tag_is(p)).push(x),
                    ) =~= batch_views(pre.queues@[d].items@.filter(tag_is(p))).push(x.1@));
                    assert(x.1@ == script_views(producer_script(pre, i))[k]);
                    assert(script_views(producer_script(pre, i)).take(k + 1) =~= script_views(
                        producer_script(pre, i),
                    ).take(k).push(script_views(producer_script(pre, i))[k]));
                    assert(sent_trace(post, d, i) =~= sent_trace(pre, d, i).push(x.1@));
                    assert(post.emitted@[i] as int == k + 1);
                } else {
                    assert(!tag_is(p)(x));
                    assert(sent_trace(post, l, p) == sent_trace(pre, l, p));
                    assert(post.emitted@[p] == pre.emitted@[p]);
                }
            } else {
                assert(post.queues@[l] == pre.queues@[l]);
                assert(sent_trace(post, l, p) == sent_trace(pre, l, p));
                if p == i {
                    assert(pre.plan.stages@[p].output == Some(d as usize));
                    assert(l as usize == d as usize);
                    assert(false);
                }
                assert(post.emitted@[p] == pre.emitted@[p]);
            }
        }
    } else {
        lemma_fifo_frame(pre, post);
    }
}

/// A consuming stage's intake keeps per-producer FIFO: the front item of
/// queue `l` moves from the buffered part to the delivered part.
proof fn lemma_intake_fifo(pre: PipelineRun, post: PipelineRun, l: int)
    requires
        pre.wf(),
        post.wf(),
        0 <= l < pre.n(),
        fifo_inv(pre),
        pre.queues@[l].items@.len() > 0,
        post.plan == pre.plan,
        post.logics == pre.logics,
        post.emitted == pre.emitted,
        post.queues@.len() == pre.queues@.len(),
        post.delivered@.len() == pre.delivered@.len(),
        post.queues@[l].items@ == pre.queues@[l].items@.drop_first(),
        post.delivered@[l]@ == pre.delivered@[l]@.push(pre.queues@[l].items@[0]),
        forall|j: int|
            0 <= j < pre.n() && j != l ==> post.delivered@[j] == pre.delivered@[j],
        forall|j: int|
            0 <= j < pre.n() && j != l ==> (post.queues@[j] == pre.queues@[j] || (
            post.queues@[j].items@.len() == pre.queues@[j].items@.len() + 1
                && post.queues@[j].items@.take(pre.queues@[j].items@.len() as int)
                == pre.queues@[j].items@ && !((post.queues@[j].items@.last().0 as int) < pre.n()
                && pre.logics@[post.queues@[j].items@.last().0 as int] is EmitScript))),
    ensures
        fifo_inv(post),
{
    let item = pre.queues@[l].items@[0];
    assert forall|l2: int, p: int|
        0 <= l2 < post.n() && 0 <= p < post.n() && post.logics@[p] is EmitScript
            && post.plan.stages@[p].output == Some(l2 as usize) implies #[trigger] sent_trace(
        post,
        l2,
        p,
    ) == script_views(producer_script(post, p)).take(post.emitted@[p] as int) by {
        assert(producer_script(post, p) == producer_script(pre, p));
        if l2 == l {
            lemma_filter_drop_first(pre.queues@[l].items@, tag_is(p));
            lemma_filter_push(pre.delivered@[l]@, item, tag_is(p));
            if tag_is(p)(item) {
                assert(batch_views(
                    pre.delivered@[l]@.filter(tag_is(p)).push(item),
                ) =~= batch_views(pre.delivered@[l]@.filter(tag_is(p))).push(item.1@));
                assert(batch_views(
                    seq![item] + post.queues@[l].items@.filter(tag_is(p)),
                ) =~= seq![item.1@] + batch_views(post.queues@[l].items@.filter(tag_is(p))));
                assert(sent_trace(post, l, p) =~= sent_trace(pre, l, p));
            } else {
                assert(sent_trace(post, l, p) == sent_trace(pre, l, p));
            }
        } else {
            if post.queues@[l2] == pre.queues@[l2] {
                assert(sent_trace(post, l2, p) == sent_trace(pre, l2, p));
            } else {
                let y = post.queues@[l2].items@.last();
                assert(post.queues@[l2].items@ =~= pre.queues@[l2].items@.push(y));
                lemma_filter_push(pre.queues@[l2].items@, y, tag_is(p));
                assert(!tag_is(p)(y));
                assert(sent_trace(post, l2, p) == sent_trace(pre, l2, p));
            }
        }
    }
}

impl PipelineRun {
    /// One observation of a producing stage.
    fn step_source(&mut self, i: usize)
        requires
            old(self).wf(),
            (i as int) < old(self).n(),
            !old(self).cancelled,
            !old(self).exited@[i as int],
            old(self).logics@[i as int] is EmitScript,
        ensures
            final(self).wf(),
            source_step(*old(self), *final(self), i as int),
    {
        proof {
            assert(shape_of_role(self.plan.stages@[i as int].role) == FnShape::Source);
            assert(self.plan.stages@[i as int].role == Role::Extract);
        }
        let d = match self.plan.stages[i].output {
            Some(d) => d,
            None => vstd::pervasive::unreached(),
        };
        let k = self.emitted[i];
        let mut payload: Option<Vec<Sample>> = None;
        match &self.logics[i] {
            StageLogic::EmitScript(script) => {
                if k < script.len() {
                    payload = Some(clone_batch(&script[k]));
                }
            },
            _ => {},
        }
        match payload {
            Some(b) => {
                if self.queues[d].len() < self.queues[d].cap {
                    let sent = self.queue_push(d, (i, b));
                    proof {
                        assert(sent);
                    }
                    self.emitted.set(i, k + 1);
                    proof {
                        let pre = *old(self);
                        let post = *self;
                        assert(post.queues@[d as int].items@.take(
                            pre.queues@[d as int].items@.len() as int,
                        ) =~= pre.queues@[d as int].items@);
                    }
                }
            },
            None => {},
        }
    }

    /// One observation of a transforming stage.
    fn step_through(&mut self, i: usize)
        requires
            old(self).wf(),
            (i as int) < old(self).n(),
            !old(self).cancelled,
            !old(self).exited@[i as int],
            old(self).logics@[i as int] is Rename || old(self).logics@[i as int] is Scale,
        ensures
            final(self).wf(),
            through_step(*old(self), *final(self), i as int),
    {
        proof {
            assert(shape_of_role(self.plan.stages@[i as int].role) == FnShape::Through);
            assert(self.plan.stages@[i as int].role == Role::Transform);
        }
        let d = match self.plan.stages[i].output {
            Some(d) => d,
            None => vstd::pervasive::unreached(),
        };
        if self.queues[i].len() == 0 {
            return ;
        }
        if self.queues[d].len() >= self.queues[d].cap {
            return ;
        }
        let item = match self.queue_pop(i) {
            Some(it) => it,
            None => vstd::pervasive::unreached(),
        };
        let work = clone_batch(&item.1);
        let ghost src = item.1@;
        self.record_delivery(i, item);
        let out_batch = match &self.logics[i] {
            StageLogic::Rename(prefix) => rename_batch(prefix.as_str(), work),
            StageLogic::Scale(factor) => scale_batch(*factor, work),
            _ => vstd::pervasive::unreached(),
        };
        proof {
            assert(transformed_by(self.logics@[i as int], src, out_batch@));
        }
        let sent = self.queue_push(d, (i, out_batch));
        proof {
            assert(sent);
            let pre = *old(self);
            let post = *self;
            assert(post.queues@[d as int].items@.take(
                pre.queues@[d as int].items@.len() as int,
            ) =~= pre.queues@[d as int].items@);
        }
    }

    /// One observation of a collecting stage.
    fn step_sink(&mut self, i: usize)
        requires
            old(self).wf(),
            (i as int) < old(self).n(),
            !old(self).cancelled,
            !old(self).exited@[i as int],
            old(self).logics@[i as int] is Collect,
        ensures
            final(self).wf(),
            sink_step(*old(self), *final(self), i as int),
    {
        if self.queues[i].len() == 0 {
            return ;
        }
        let item = match self.queue_pop(i) {
            Some(it) => it,
            None => vstd::pervasive::unreached(),
        };
        let keep = clone_batch(&item.1);
        self.record_delivery(i, item);
        self.record_collect(i, keep);
    }

    /// One suspension-point observation of stage `i`, under any
    /// interleaving the caller chooses.
    ///
    /// When the cancellation signal is set, this observation makes the
    /// stage exit and touches nothing else: every stage returns within one
    /// observation of cancellation, and the signal itself is never
    /// changed by stepping.  A stage that has exited stays exited and does
    /// nothing.  Otherwise the stage acts by its logic: see
    /// [`source_step`], [`through_step`] and [`sink_step`].
    pub fn step(&mut self, i: usize)
        requires
            old(self).wf(),
            (i as int) < old(self).n(),
        ensures
            final(self).wf(),
            final(self).cancelled == old(self).cancelled,
            final(self).plan == old(self).plan,
            final(self).logics == old(self).logics,
            final(self).exited@.len() == old(self).exited@.len(),
            forall|j: int|
                0 <= j < old(self).n() && old(self).exited@[j] ==> final(self).exited@[j],
            old(self).cancelled ==> {
                &&& final(self).exited@ == old(self).exited@.update(i as int, true)
                &&& final(self).queues == old(self).queues
                &&& final(self).emitted == old(self).emitted
                &&& final(self).delivered == old(self).delivered
                &&& final(self).collected == old(self).collected
            },
            !old(self).cancelled && old(self).exited@[i as int] ==> *final(self) == *old(self),
            !old(self).cancelled && !old(self).exited@[i as int] ==> match logic_shape(
                old(self).logics@[i as int],
            ) {
                FnShape::Source => source_step(*old(self), *final(self), i as int),
                FnShape::Through => through_step(*old(self), *final(self), i as int),
                FnShape::Sink => sink_step(*old(self), *final(self), i as int),
            },
            fifo_inv(*old(self)) ==> fifo_inv(*final(self)),
    {
        if self.cancelled {
            self.exited.set(i, true);
            proof {
                if fifo_inv(*old(self)) {
                    lemma_fifo_frame(*old(self), *self);
                }
            }
            return ;
        }
        if self.exited[i] {
            return ;
        }
        let shape = shape_of_logic(&self.logics[i]);
        match shape {
            FnShape::Source => {
                self.step_source(i);
                proof {
                    if fifo_inv(*old(self)) {
                        lemma_source_fifo(*old(self), *self, i as int);
                    }
                }
            },
            FnShape::Through => {
                self.step_through(i);
                proof {
                    if fifo_inv(*old(self)) {
                        let pre = *old(self);
                        let post = *self;
                        let d = pre.plan.stages@[i as int].output->0 as int;
                        if pre.queues@[i as int].items@.len() > 0 && can_send(pre.queues@[d]) {
                            assert(shape_of_role(pre.plan.stages@[i as int].role)
                                == FnShape::Through);
                            assert(pre.plan.stages@[i as int].role == Role::Transform);
                            assert(d != i as int);
                            assert forall|j: int|
                                0 <= j < pre.n() && j != i as int implies (post.queues@[j]
                                == pre.queues@[j] || (post.queues@[j].items@.len()
                                == pre.queues@[j].items@.len() + 1 && post.queues@[j].items@.take(
                                pre.queues@[j].items@.len() as int,
                            ) == pre.queues@[j].items@ && !((post.queues@[j].items@.last().0 as int)
                                < pre.n() && pre.logics@[
                                post.queues@[j].items@.last().0 as int
                            ] is EmitScript))) by {
                                if j == d {
                                    assert((post.queues@[d].items@.last().0 as int) == i as int);
                                    assert(!(pre.logics@[i as int] is EmitScript));
                                }
                            }
                            lemma_intake_fifo(pre, post, i as int);
                        } else {
                            assert(post == pre);
                        }
                    }
                }
            },
            FnShape::Sink => {
                self.step_sink(i);
                proof {
                    if fifo_inv(*old(self)) {
                        let pre = *old(self);
                        let post = *self;
                        if pre.queues@[i as int].items@.len() > 0 {
                            lemma_intake_fifo(pre, post, i as int);
                        } else {
                            assert(post == pre);
                        }
                    }
                }
            },
        }
    }
}

/// Fan-in ordering: whatever the interleaving of producers sharing one
/// queue, a consuming stage's intake from one producer — what it has taken
/// in so far, followed by what still waits in its queue — is exactly the
/// prefix of that producer's script sent so far, and in particular what it
/// has taken in is itself a prefix of that script: per-producer order is
/// never disturbed.
pub proof fn lemma_per_producer_order(r: PipelineRun, l: int, p: int)
    requires
        r.wf(),
        fifo_inv(r),
        0 <= l < r.n(),
        0 <= p < r.n(),
        r.logics@[p] is EmitScript,
        r.plan.stages@[p].output == Some(l as usize),
    ensures
        sent_trace(r, l, p) == script_views(producer_script(r, p)).take(r.emitted@[p] as int),
        batch_views(r.delivered@[l]@.filter(tag_is(p))) == script_views(
            producer_script(r, p),
        ).take(batch_views(r.delivered@[l]@.filter(tag_is(p))).len() as int),
{
    let a = batch_views(r.delivered@[l]@.filter(tag_is(p)));
    let full = script_views(producer_script(r, p)).take(r.emitted@[p] as int);
    assert(sent_trace(r, l, p) == full);
    assert(a.len() <= full.len());
    assert forall|j: int|
        0 <= j < a.len() implies a[j] == script_views(producer_script(r, p))[j] by {
        assert(a[j] == sent_trace(r, l, p)[j]);
        assert(full[j] == script_views(producer_script(r, p))[j]);
    }
    assert(a =~= script_views(producer_script(r, p)).take(a.len() as int));
}

} // verus!
