use procflow::datapoint::{
    clone_batch, proc_to_resource, sample_to_resource, u64_to_string, Counter, Resource, Sample,
};
use procflow::otel::parse_headers;
use procflow::prom::{PromCounter, PromRegistry};
use procflow::transform::{rename_batch, scale_batch};

fn sample(pid: u64, exe: &str, cpu: u64) -> Sample {
    Sample { pid, exe: exe.to_string(), cpu_time: cpu }
}

#[test]
fn decimal_rendering() {
    assert_eq!(u64_to_string(0), "0");
    assert_eq!(u64_to_string(7), "7");
    assert_eq!(u64_to_string(10), "10");
    assert_eq!(u64_to_string(12345), "12345");
    assert_eq!(u64_to_string(u64::MAX), "18446744073709551615");
}

#[test]
fn parse_headers_splits_pairs() {
    let h = parse_headers("a=b,c=d");
    assert_eq!(h, vec![
        ("a".to_string(), "b".to_string()),
        ("c".to_string(), "d".to_string()),
    ]);
}

#[test]
fn parse_headers_trims_and_skips() {
    let h = parse_headers(" key = v ,noequals, x=y=z,,k2=v2");
    assert_eq!(h, vec![
        ("key ".to_string(), " v".to_string()),
        ("x".to_string(), "y".to_string()),
        ("k2".to_string(), "v2".to_string()),
    ]);
}

#[test]
fn parse_headers_empty_input() {
    assert_eq!(parse_headers(""), vec![]);
    assert_eq!(parse_headers("   "), vec![]);
    assert_eq!(parse_headers(","), vec![]);
}

#[test]
fn parse_headers_value_to_end() {
    let h = parse_headers("token=abc def");
    assert_eq!(h, vec![("token".to_string(), "abc def".to_string())]);
}

#[test]
fn constructors_start_empty() {
    let r = Resource::new("host:1".to_string());
    assert_eq!(r.instance, "host:1");
    assert!(r.attrs.is_empty());
    assert!(r.metrics.is_empty());
    let c = Counter::new("process.cpu.time".to_string());
    assert_eq!(c.name, "process.cpu.time");
    assert!(c.attrs.is_empty());
    assert_eq!(c.value, 0);
}

#[test]
fn sample_becomes_resource() {
    let s = sample(42, "/bin/sh", 9);
    let r = sample_to_resource("host:42".to_string(), &s);
    assert_eq!(r.instance, "host:42");
    assert_eq!(r.attrs, vec![
        ("process.pid".to_string(), "42".to_string()),
        ("process.executable.path".to_string(), "/bin/sh".to_string()),
    ]);
    assert_eq!(r.metrics.len(), 1);
    assert_eq!(r.metrics[0].name, "process.cpu.time");
    assert_eq!(r.metrics[0].attrs, vec![("cpu.mode".to_string(), "total".to_string())]);
    assert_eq!(r.metrics[0].value, 9);
}

#[test]
fn local_resource_instance_names_the_pid() {
    // the host name comes from the machine; the instance must still end
    // with a colon and the pid
    let s = sample(777, "/bin/true", 0);
    let r = proc_to_resource(&s);
    assert!(r.instance.ends_with(":777"));
    assert_eq!(r.attrs[0].1, "777");
}

#[test]
fn rename_prefixes_every_exe() {
    let out = rename_batch("modify-", vec![sample(1, "a", 5), sample(2, "b", 6)]);
    assert_eq!(out.len(), 2);
    assert_eq!(out[0].exe, "modify-a");
    assert_eq!(out[1].exe, "modify-b");
    assert_eq!(out[0].pid, 1);
    assert_eq!(out[1].cpu_time, 6);
}

#[test]
fn scale_saturates_at_max() {
    let out = scale_batch(3, vec![sample(1, "a", 5), sample(2, "b", u64::MAX / 2)]);
    assert_eq!(out[0].cpu_time, 15);
    assert_eq!(out[1].cpu_time, u64::MAX);
}

#[test]
fn clone_batch_copies_everything() {
    let b = vec![sample(1, "a", 2)];
    let c = clone_batch(&b);
    assert_eq!(c.len(), 1);
    assert_eq!(c[0].pid, 1);
    assert_eq!(c[0].exe, "a");
    assert_eq!(c[0].cpu_time, 2);
}

#[test]
fn registry_accumulates_per_label_set() {
    let mut reg = PromRegistry::default();
    let s = sample(42, "/bin/sh", 9);
    let r = sample_to_resource("h:42".to_string(), &s);
    reg.register(&r);
    reg.register(&r);
    assert_eq!(reg.metrics.len(), 1);
    assert_eq!(reg.metrics[0].name, "process.cpu.time");
    assert_eq!(reg.metrics[0].instances.len(), 1);
    assert_eq!(reg.metrics[0].instances[0].1, 18);
}

#[test]
fn registry_separates_label_sets_and_names() {
    let mut reg = PromRegistry::default();
    let r1 = sample_to_resource("h:1".to_string(), &sample(1, "a", 5));
    let r2 = sample_to_resource("h:2".to_string(), &sample(2, "b", 7));
    reg.register(&r1);
    reg.register(&r2);
    assert_eq!(reg.metrics.len(), 1);
    assert_eq!(reg.metrics[0].instances.len(), 2);
    assert_eq!(reg.metrics[0].instances[0].1, 5);
    assert_eq!(reg.metrics[0].instances[1].1, 7);
}

#[test]
fn registry_saturates_instead_of_overflowing() {
    let mut reg = PromRegistry::default();
    let mut r = Resource::new("h:1".to_string());
    let mut c = Counter::new("m".to_string());
    c.value = u64::MAX - 1;
    r.metrics.push(c);
    reg.register(&r);
    reg.register(&r);
    assert_eq!(reg.metrics[0].instances[0].1, u64::MAX);
}

#[test]
fn scrape_text_format() {
    let mut reg = PromRegistry::default();
    let mut r = Resource::new("h:1".to_string());
    r.attrs.push(("k".to_string(), "v".to_string()));
    let mut c = Counter::new("my_metric".to_string());
    c.value = 3;
    c.attrs.push(("mode".to_string(), "total".to_string()));
    r.metrics.push(c);
    reg.register(&r);
    assert_eq!(
        reg.metrics(),
        "my_metric{\"k\"=\"v\",\"instance\"=\"h:1\",\"mode\"=\"total\"} 3\n"
    );
}

#[test]
fn scrape_text_without_labels() {
    let mut reg = PromRegistry::default();
    let mut r = Resource::new("h:1".to_string());
    let mut c = Counter::new("bare".to_string());
    c.value = 5;
    r.metrics.push(c);
    reg.register(&r);
    // register always adds the instance label, so the line carries it
    assert_eq!(reg.metrics(), "bare{\"instance\"=\"h:1\"} 5\n");
}

#[test]
fn scrape_lines_in_recording_order() {
    let mut reg = PromRegistry::default();
    let mut r = Resource::new("h:1".to_string());
    let mut c1 = Counter::new("beta".to_string());
    c1.value = 1;
    let mut c2 = Counter::new("alpha".to_string());
    c2.value = 2;
    r.metrics.push(c1);
    r.metrics.push(c2);
    reg.register(&r);
    let text = reg.metrics();
    let beta_at = text.find("beta").unwrap();
    let alpha_at = text.find("alpha").unwrap();
    assert!(beta_at < alpha_at);
}

#[test]
fn scrape_line_with_no_labels_at_all() {
    // a counter recorded without any label renders as name, space, value
    let reg = PromRegistry {
        metrics: vec![PromCounter { name: "bare".to_string(), instances: vec![(vec![], 4)] }],
    };
    assert_eq!(reg.metrics(), "bare 4\n");
}
