//! Domain records: the per-process samples that flow through the pipeline
//! and the metric datapoints the load stages export.

use vstd::prelude::*;

verus! {

/// One process observation: identity plus the accumulated CPU time.
pub struct Sample {
    pub pid: u64,
    pub exe: String,
    pub cpu_time: u64,
}

/// A monitored entity: an instance name, its identifying attributes, and
/// the counters recorded for it.
pub struct Resource {
    pub instance: String,
    pub attrs: Vec<(String, String)>,
    pub metrics: Vec<Counter>,
}

/// A monotonically accumulated metric value with its own attributes.
pub struct Counter {
    pub name: String,
    pub attrs: Vec<(String, String)>,
    pub value: u64,
}

impl Resource {
    /// A resource with the given instance name and nothing recorded yet.
    pub fn new(instance: String) -> (r: Resource)
        ensures
            r.instance@ == instance@,
            r.attrs@.len() == 0,
            r.metrics@.len() == 0,
    {
        Resource { instance, attrs: Vec::new(), metrics: Vec::new() }
    }
}

impl Counter {
    /// A zero-valued counter with the given name and no attributes.
    pub fn new(name: String) -> (c: Counter)
        ensures
            c.name@ == name@,
            c.attrs@.len() == 0,
            c.value == 0,
    {
        Counter { name, attrs: Vec::new(), value: 0 }
    }
}

/// The character of one decimal digit.
pub open spec fn digit_char(d: int) -> char {
    if d == 0 {
        '0'
    } else if d == 1 {
        '1'
    } else if d == 2 {
        '2'
    } else if d == 3 {
        '3'
    } else if d == 4 {
        '4'
    } else if d == 5 {
        '5'
    } else if d == 6 {
        '6'
    } else if d == 7 {
        '7'
    } else if d == 8 {
        '8'
    } else {
        '9'
    }
}

/// The decimal rendering of a number: no sign, no leading zeros.
pub open spec fn decimal_digits(n: nat) -> Seq<char>
    decreases n,
{
    if n < 10 {
        seq![digit_char(n as int)]
    } else {
        decimal_digits(n / 10).push(digit_char((n % 10) as int))
    }
}

/// The one-character string of one decimal digit.
fn digit_str(d: u64) -> (s: &'static str)
    requires
        d < 10,
    ensures
        s@ =~= seq![digit_char(d as int)],
{
    let s: &'static str = match d {
        0 => "0",
        1 => "1",
        2 => "2",
        3 => "3",
        4 => "4",
        5 => "5",
        6 => "6",
        7 => "7",
        8 => "8",
        _ => "9",
    };
    proof {
        reveal_strlit("0");
        reveal_strlit("1");
        reveal_strlit("2");
        reveal_strlit("3");
        reveal_strlit("4");
        reveal_strlit("5");
        reveal_strlit("6");
        reveal_strlit("7");
        reveal_strlit("8");
        reveal_strlit("9");
    }
    s
}

/// Render a number in decimal.
pub fn u64_to_string(v: u64) -> (s: String)
    ensures
        s@ == decimal_digits(v as nat),
    decreases v,
{
    if v < 10 {
        digit_str(v).to_owned()
    } else {
        let mut s = u64_to_string(v / 10);
        s.append(digit_str(v % 10));
        proof {
            assert(s@ =~= decimal_digits(v as nat));
        }
        s
    }
}

/// Relies on hostname::get, which asks the operating system for the local
/// host name; nothing can be promised of the value, only that the lossy
/// conversion of it is handed back as a plain string when the call
/// succeeds.
#[verifier::external_body]
fn host_name() -> (r: Option<String>) {
    hostname::get().ok().map(|h| h.to_string_lossy().into_owned())
}

/// The instance name of a local process: the host name (or `unknown` when
/// the operating system will not give one), a colon, and the process id in
/// decimal.
pub fn local_instance(pid: u64) -> (r: String)
    ensures
        exists|h: Seq<char>| r@ == h + seq![':'] + decimal_digits(pid as nat),
{
    let mut s = match host_name() {
        Some(h) => h,
        None => "unknown".to_owned(),
    };
    let ghost h = s@;
    s.append(":");
    s.append(u64_to_string(pid).as_str());
    proof {
        reveal_strlit(":");
        assert(s@ =~= h + seq![':'] + decimal_digits(pid as nat));
    }
    s
}

/// An exact copy of one sample.
pub fn clone_sample(s: &Sample) -> (r: Sample)
    ensures
        r == *s,
{
    Sample { pid: s.pid, exe: s.exe.clone(), cpu_time: s.cpu_time }
}

/// An exact copy of one batch of samples.
pub fn clone_batch(b: &Vec<Sample>) -> (r: Vec<Sample>)
    ensures
        r@ == b@,
{
    let mut out: Vec<Sample> = Vec::new();
    let n = b.len();
    let mut i: usize = 0;
    while i < n
        invariant
            n == b@.len(),
            i <= n,
            out@ =~= b@.take(i as int),
        decreases n - i,
    {
        out.push(clone_sample(&b[i]));
        proof {
            assert(out@ =~= b@.take(i as int + 1));
        }
        i += 1;
    }
    proof {
        assert(b@.take(n as int) =~= b@);
    }
    out
}

/// Turn one process sample into the resource recorded for it, under the
/// given instance name: identifying attributes from the sample, and one
/// `process.cpu.time` counter holding the accumulated CPU time.
pub fn sample_to_resource(instance: String, s: &Sample) -> (r: Resource)
    ensures
        r.instance@ == instance@,
        r.attrs@.len() == 2,
        r.attrs@[0].0@ == "process.pid"@,
        r.attrs@[0].1@ == decimal_digits(s.pid as nat),
        r.attrs@[1].0@ == "process.executable.path"@,
        r.attrs@[1].1@ == s.exe@,
        r.metrics@.len() == 1,
        r.metrics@[0].name@ == "process.cpu.time"@,
        r.metrics@[0].attrs@.len() == 1,
        r.metrics@[0].attrs@[0].0@ == "cpu.mode"@,
        r.metrics@[0].attrs@[0].1@ == "total"@,
        r.metrics@[0].value == s.cpu_time,
{
    let mut attrs: Vec<(String, String)> = Vec::new();
    attrs.push(("process.pid".to_owned(), u64_to_string(s.pid)));
    attrs.push(("process.executable.path".to_owned(), s.exe.clone()));
    let mut cattrs: Vec<(String, String)> = Vec::new();
    cattrs.push(("cpu.mode".to_owned(), "total".to_owned()));
    let counter = Counter { name: "process.cpu.time".to_owned(), attrs: cattrs, value: s.cpu_time };
    let mut metrics: Vec<Counter> = Vec::new();
    metrics.push(counter);
    Resource { instance, attrs, metrics }
}

/// Turn one process sample into its resource, naming the instance after
/// the local host: what the sampling stage records for every process it
/// sees.
pub fn proc_to_resource(s: &Sample) -> (r: Resource)
    ensures
        exists|h: Seq<char>| r.instance@ == h + seq![':'] + decimal_digits(s.pid as nat),
        r.attrs@.len() == 2,
        r.attrs@[0].0@ == "process.pid"@,
        r.attrs@[0].1@ == decimal_digits(s.pid as nat),
        r.attrs@[1].0@ == "process.executable.path"@,
        r.attrs@[1].1@ == s.exe@,
        r.metrics@.len() == 1,
        r.metrics@[0].name@ == "process.cpu.time"@,
        r.metrics@[0].value == s.cpu_time,
{
    let instance = local_instance(s.pid);
    sample_to_resource(instance, s)
}

} // verus!
