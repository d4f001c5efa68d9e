//! Pure transform-stage logic: what a Transform stage does to one batch of
//! samples between receiving it and sending it on.

use vstd::prelude::*;
use crate::datapoint::Sample;

verus! {

/// Prefix every sample's executable path with `prefix`; identity and CPU
/// time are untouched, and no sample is added, dropped or reordered.
pub fn rename_batch(prefix: &str, batch: Vec<Sample>) -> (r: Vec<Sample>)
    ensures
        r@.len() == batch@.len(),
        forall|i: int|
            0 <= i < batch@.len() ==> {
                &&& r@[i].pid == batch@[i].pid
                &&& r@[i].cpu_time == batch@[i].cpu_time
                &&& r@[i].exe@ == prefix@ + batch@[i].exe@
            },
{
    let mut out: Vec<Sample> = Vec::new();
    let n = batch.len();
    let mut i: usize = 0;
    while i < n
        invariant
            n == batch@.len(),
            i <= n,
            out@.len() == i,
            forall|p: int|
                0 <= p < i ==> {
                    &&& out@[p].pid == batch@[p].pid
                    &&& out@[p].cpu_time == batch@[p].cpu_time
                    &&& out@[p].exe@ == prefix@ + batch@[p].exe@
                },
        decreases n - i,
    {
        let mut exe = prefix.to_owned();
        exe.append(batch[i].exe.as_str());
        out.push(Sample { pid: batch[i].pid, exe, cpu_time: batch[i].cpu_time });
        i += 1;
    }
    out
}

/// Multiply every sample's CPU time by `factor`, saturating at the largest
/// representable value; identity is untouched, and no sample is added,
/// dropped or reordered.
pub fn scale_batch(factor: u64, batch: Vec<Sample>) -> (r: Vec<Sample>)
    ensures
        r@.len() == batch@.len(),
        forall|i: int|
            0 <= i < batch@.len() ==> {
                &&& r@[i].pid == batch@[i].pid
                &&& r@[i].exe@ == batch@[i].exe@
                &&& r@[i].cpu_time == (if batch@[i].cpu_time * factor <= u64::MAX {
                    batch@[i].cpu_time * factor
                } else {
                    u64::MAX as int
                })
            },
{
    let mut out: Vec<Sample> = Vec::new();
    let n = batch.len();
    let mut i: usize = 0;
    while i < n
        invariant
            n == batch@.len(),
            i <= n,
            out@.len() == i,
            forall|p: int|
                0 <= p < i ==> {
                    &&& out@[p].pid == batch@[p].pid
                    &&& out@[p].exe@ == batch@[p].exe@
                    &&& out@[p].cpu_time == (if batch@[p].cpu_time * factor <= u64::MAX {
                        batch@[p].cpu_time * factor
                    } else {
                        u64::MAX as int
                    })
                },
        decreases n - i,
    {
        let scaled = batch[i].cpu_time.checked_mul(factor);
        let cpu_time = match scaled {
            Some(v) => v,
            None => u64::MAX,
        };
        out.push(Sample { pid: batch[i].pid, exe: batch[i].exe.clone(), cpu_time });
        i += 1;
    }
    out
}

} // verus!
