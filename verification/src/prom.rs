//! The pull-scrape registry: counters accumulated per metric name and
//! label set, and the text rendering a scrape returns.  The HTTP server
//! that answers scrapes lives outside this crate; everything here is the
//! registry's own logic.

use vstd::prelude::*;
use crate::datapoint::{decimal_digits, u64_to_string, Resource};

verus! {

/// A label set: attribute pairs in recording order.
pub type Labels = Vec<(String, String)>;

/// One registered counter: its metric name and, per label set, the
/// accumulated value, in order of first appearance.
pub struct PromCounter {
    pub name: String,
    pub instances: Vec<(Labels, u64)>,
}

/// The scrape registry: one entry per metric name, in order of first
/// appearance.
pub struct PromRegistry {
    pub metrics: Vec<PromCounter>,
}

/// The mathematical value of a label set.
pub open spec fn labels_view(l: Seq<(String, String)>) -> Seq<(Seq<char>, Seq<char>)> {
    Seq::new(l.len(), |k: int| (l[k].0@, l[k].1@))
}

/// The mathematical value of one counter's instances.
pub open spec fn instances_view(ins: Seq<(Labels, u64)>) -> Seq<(Seq<(Seq<char>, Seq<char>)>, u64)> {
    Seq::new(ins.len(), |k: int| (labels_view(ins[k].0@), ins[k].1))
}

/// The mathematical value of the whole registry: names with their
/// instance maps, in recording order.
pub open spec fn registry_view(m: Seq<PromCounter>) -> Seq<
    (Seq<char>, Seq<(Seq<(Seq<char>, Seq<char>)>, u64)>),
> {
    Seq::new(m.len(), |k: int| (m[k].name@, instances_view(m[k].instances@)))
}

/// Addition that stops at the largest representable value.
pub open spec fn sat_add(a: u64, v: u64) -> u64 {
    if a + v <= u64::MAX {
        (a + v) as u64
    } else {
        u64::MAX
    }
}

/// One counter sample folded into an instance map: the first entry with
/// this label set grows by `v` (saturating); a label set never seen before
/// is appended with value `v`.
pub open spec fn upd_instances(
    ins: Seq<(Seq<(Seq<char>, Seq<char>)>, u64)>,
    key: Seq<(Seq<char>, Seq<char>)>,
    v: u64,
) -> Seq<(Seq<(Seq<char>, Seq<char>)>, u64)> {
    if exists|k: int| 0 <= k < ins.len() && ins[k].0 == key {
        let k = choose|k: int| 0 <= k < ins.len() && ins[k].0 == key;
        ins.update(k, (key, sat_add(ins[k].1, v)))
    } else {
        ins.push((key, v))
    }
}

/// One counter sample folded into the registry: the entry for this metric
/// name gets the sample folded into its instances; a name never seen
/// before is appended.
pub open spec fn upd_counters(
    m: Seq<(Seq<char>, Seq<(Seq<(Seq<char>, Seq<char>)>, u64)>)>,
    name: Seq<char>,
    key: Seq<(Seq<char>, Seq<char>)>,
    v: u64,
) -> Seq<(Seq<char>, Seq<(Seq<(Seq<char>, Seq<char>)>, u64)>)> {
    if exists|c: int| 0 <= c < m.len() && m[c].0 == name {
        let c = choose|c: int| 0 <= c < m.len() && m[c].0 == name;
        m.update(c, (name, upd_instances(m[c].1, key, v)))
    } else {
        m.push((name, seq![(key, v)]))
    }
}

/// The label set one resource's counter is recorded under: the resource's
/// attributes, then its instance name under the `instance` label, then the
/// counter's own attributes.
pub open spec fn counter_key(res: Resource, c: int) -> Seq<(Seq<char>, Seq<char>)> {
    labels_view(res.attrs@) + seq![("instance"@, res.instance@)] + labels_view(
        res.metrics@[c].attrs@,
    )
}

/// A whole resource folded into the registry: its counters in order.
pub open spec fn register_fold(
    m: Seq<(Seq<char>, Seq<(Seq<(Seq<char>, Seq<char>)>, u64)>)>,
    res: Resource,
    upto: int,
) -> Seq<(Seq<char>, Seq<(Seq<(Seq<char>, Seq<char>)>, u64)>)>
    decreases upto,
{
    if upto <= 0 {
        m
    } else {
        let prev = register_fold(m, res, upto - 1);
        upd_counters(
            prev,
            res.metrics@[upto - 1].name@,
            counter_key(res, upto - 1),
            res.metrics@[upto - 1].value,
        )
    }
}

impl PromRegistry {
    /// Counter names are unique, and within each counter the label sets
    /// are unique.
    pub open spec fn wf(&self) -> bool {
        &&& (forall|c1: int, c2: int|
            0 <= c1 < c2 < self.metrics@.len() ==> self.metrics@[c1].name@
                != self.metrics@[c2].name@)
        &&& (forall|c: int, k1: int, k2: int|
            0 <= c < self.metrics@.len() && 0 <= k1 < k2 < self.metrics@[c].instances@.len()
                ==> labels_view(self.metrics@[c].instances@[k1].0@) != labels_view(
                self.metrics@[c].instances@[k2].0@,
            ))
    }

    /// An empty registry.
    pub fn default() -> (r: PromRegistry)
        ensures
            r.wf(),
            registry_view(r.metrics@).len() == 0,
    {
        PromRegistry { metrics: Vec::new() }
    }

    /// Record every counter of one resource, in order: each sample is
    /// folded into the entry for its metric name under the resource's
    /// label set, growing the accumulated value (saturating at the largest
    /// representable) or appending a first entry.
    pub fn register(&mut self, res: &Resource)
        requires
            old(self).wf(),
        ensures
            final(self).wf(),
            registry_view(final(self).metrics@) == register_fold(
                registry_view(old(self).metrics@),
                *res,
                res.metrics@.len() as int,
            ),
    {
        let nm = res.metrics.len();
        let mut c: usize = 0;
        while c < nm
            invariant
                self.wf(),
                nm == res.metrics@.len(),
                c <= nm,
                registry_view(self.metrics@) == register_fold(
                    registry_view(old(self).metrics@),
                    *res,
                    c as int,
                ),
            decreases nm - c,
        {
            let key = build_key(res, c);
            let name = &res.metrics[c].name;
            let value = res.metrics[c].value;
            self.register_counter(name, key, value);
            c += 1;
        }
    }

    /// Fold one counter sample into the registry.
    fn register_counter(&mut self, name: &String, key: Labels, v: u64)
        requires
            old(self).wf(),
        ensures
            final(self).wf(),
            registry_view(final(self).metrics@) == upd_counters(
                registry_view(old(self).metrics@),
                name@,
                labels_view(key@),
                v,
            ),
    {
        let ghost m0 = registry_view(old(self).metrics@);
        proof {
            assert(m0.len() == old(self).metrics@.len());
        }
        let n = self.metrics.len();
        let mut c: usize = 0;
        while c < n
            invariant
                self.wf(),
                *self == *old(self),
                m0 == registry_view(old(self).metrics@),
                m0.len() == old(self).metrics@.len(),
                n == self.metrics@.len(),
                c <= n,
                forall|j: int| 0 <= j < c ==> self.metrics@[j].name@ != name@,
            decreases n - c,
        {
            if self.metrics[c].name == *name {
                proof {
                    assert(registry_view(self.metrics@).len() == self.metrics@.len());
                    assert(registry_view(self.metrics@)[c as int].0 == self.metrics@[
                        c as int
                    ].name@);
                    assert(m0[c as int].0 == name@);
                }
                let mut counter = self.metrics.remove(c);
                update_instances(&mut counter.instances, key, v);
                self.metrics.insert(c, counter);
                proof {
                    assert(self.metrics@ =~= old(self).metrics@.update(
                        c as int,
                        self.metrics@[c as int],
                    ));
                    let cc = choose|cc: int| 0 <= cc < m0.len() && m0[cc].0 == name@;
                    assert(cc == c as int) by {
                        assert(registry_view(old(self).metrics@)[cc].0 == old(self).metrics@[
                            cc
                        ].name@);
                        assert(registry_view(old(self).metrics@)[c as int].0 == old(
                            self,
                        ).metrics@[c as int].name@);
                    }
                    assert(registry_view(self.metrics@) =~= m0.update(
                        c as int,
                        (name@, upd_instances(m0[c as int].1, labels_view(key@), v)),
                    ));
                }
                return ;
            }
            c += 1;
        }
        let mut instances: Vec<(Labels, u64)> = Vec::new();
        instances.push((key, v));
        self.metrics.push(PromCounter { name: name.clone(), instances });
        proof {
            assert forall|cc: int| 0 <= cc < m0.len() implies m0[cc].0 != name@ by {
                assert(registry_view(old(self).metrics@)[cc].0 == old(self).metrics@[cc].name@);
            }
            assert(!(exists|cc: int| 0 <= cc < m0.len() && m0[cc].0 == name@));
            assert(instances_view(self.metrics@.last().instances@) =~= seq![
                (labels_view(key@), v),
            ]);
            assert(registry_view(self.metrics@) =~= m0.push(
                (name@, seq![(labels_view(key@), v)]),
            ));
            assert forall|c1: int, c2: int|
                0 <= c1 < c2 < self.metrics@.len() implies self.metrics@[c1].name@
                != self.metrics@[c2].name@ by {}
        }
    }
}

/// The text of one label: its name, a quoted equals sign, its value.
pub open spec fn label_unit(l: (Seq<char>, Seq<char>)) -> Seq<char> {
    l.0 + "\"=\""@ + l.1
}

/// The text of a label set, in recording order, separated by quoted
/// commas.
pub open spec fn labels_body(key: Seq<(Seq<char>, Seq<char>)>) -> Seq<char>
    decreases key.len(),
{
    if key.len() == 0 {
        Seq::empty()
    } else if key.len() == 1 {
        label_unit(key[0])
    } else {
        labels_body(key.drop_last()) + "\",\""@ + label_unit(key.last())
    }
}

/// One scrape line: the metric name, the label set in braces when there is
/// one, and the accumulated value in decimal.
pub open spec fn render_line(name: Seq<char>, key: Seq<(Seq<char>, Seq<char>)>, v: u64) -> Seq<
    char,
> {
    if key.len() == 0 {
        name + " "@ + decimal_digits(v as nat) + "\n"@
    } else {
        name + "{\""@ + labels_body(key) + "\"} "@ + decimal_digits(v as nat) + "\n"@
    }
}

/// All scrape lines of one counter, one per label set, in recording order.
pub open spec fn render_counter(
    name: Seq<char>,
    ins: Seq<(Seq<(Seq<char>, Seq<char>)>, u64)>,
) -> Seq<char>
    decreases ins.len(),
{
    if ins.len() == 0 {
        Seq::empty()
    } else {
        render_counter(name, ins.drop_last()) + render_line(name, ins.last().0, ins.last().1)
    }
}

/// The whole scrape text: every counter's lines, in recording order.
pub open spec fn render_registry(
    m: Seq<(Seq<char>, Seq<(Seq<(Seq<char>, Seq<char>)>, u64)>)>,
) -> Seq<char>
    decreases m.len(),
{
    if m.len() == 0 {
        Seq::empty()
    } else {
        render_registry(m.drop_last()) + render_counter(m.last().0, m.last().1)
    }
}

/// Stepping the recursion of [`render_registry`] one counter at a time.
proof fn lemma_render_registry_step(
    m: Seq<(Seq<char>, Seq<(Seq<(Seq<char>, Seq<char>)>, u64)>)>,
    c: int,
)
    requires
        0 <= c < m.len(),
    ensures
        render_registry(m.take(c + 1)) == render_registry(m.take(c)) + render_counter(
            m[c].0,
            m[c].1,
        ),
{
    assert(m.take(c + 1).drop_last() =~= m.take(c));
    assert(m.take(c + 1).last() == m[c]);
}

/// Stepping the recursion of [`render_counter`] one instance at a time.
proof fn lemma_render_counter_step(
    name: Seq<char>,
    ins: Seq<(Seq<(Seq<char>, Seq<char>)>, u64)>,
    k: int,
)
    requires
        0 <= k < ins.len(),
    ensures
        render_counter(name, ins.take(k + 1)) == render_counter(name, ins.take(k)) + render_line(
            name,
            ins[k].0,
            ins[k].1,
        ),
{
    assert(ins.take(k + 1).drop_last() =~= ins.take(k));
    assert(ins.take(k + 1).last() == ins[k]);
}

/// Stepping the recursion of [`labels_body`] one label at a time.
proof fn lemma_labels_body_step(key: Seq<(Seq<char>, Seq<char>)>, j: int)
    requires
        1 <= j < key.len(),
    ensures
        labels_body(key.take(j + 1)) == labels_body(key.take(j)) + "\",\""@ + label_unit(key[j]),
{
    assert(key.take(j + 1).drop_last() =~= key.take(j));
    assert(key.take(j + 1).last() == key[j]);
}

impl PromRegistry {
    /// The scrape text of everything recorded: one line per counter and
    /// label set, `name{"label"="value",...} count`, in recording order.
    pub fn metrics(&self) -> (out: String)
        ensures
            out@ == render_registry(registry_view(self.metrics@)),
    {
        let ghost rv = registry_view(self.metrics@);
        proof {
            assert(rv.take(0) =~= Seq::<(Seq<char>, Seq<(Seq<(Seq<char>, Seq<char>)>, u64)>)>::empty());
        }
        let mut out = String::new();
        let nc = self.metrics.len();
        let mut c: usize = 0;
        while c < nc
            invariant
                rv == registry_view(self.metrics@),
                nc == self.metrics@.len(),
                rv.len() == nc,
                c <= nc,
                out@ == render_registry(rv.take(c as int)),
            decreases nc - c,
        {
            let counter = &self.metrics[c];
            let ghost iv = instances_view(counter.instances@);
            proof {
                assert(rv[c as int] == (counter.name@, iv));
                assert(iv.take(0) =~= Seq::<(Seq<(Seq<char>, Seq<char>)>, u64)>::empty());
            }
            let ghost sofar = out@;
            let nk = counter.instances.len();
            let mut k: usize = 0;
            while k < nk
                invariant
                    counter == &self.metrics[c as int],
                    iv == instances_view(counter.instances@),
                    nk == counter.instances@.len(),
                    iv.len() == nk,
                    k <= nk,
                    out@ == sofar + render_counter(counter.name@, iv.take(k as int)),
                decreases nk - k,
            {
                let key = &counter.instances[k].0;
                let ghost kv = labels_view(key@);
                proof {
                    assert(iv[k as int] == (kv, counter.instances@[k as int].1));
                }
                out.append(counter.name.as_str());
                if key.len() == 0 {
                    out.append(" ");
                } else {
                    out.append("{\"");
                    let nj = key.len();
                    let mut j: usize = 0;
                    while j < nj
                        invariant
                            counter == &self.metrics[c as int],
                            key == &counter.instances@[k as int].0,
                            kv == labels_view(key@),
                            nj == key@.len(),
                            kv.len() == nj,
                            nj >= 1,
                            j <= nj,
                            out@ == sofar + render_counter(counter.name@, iv.take(k as int))
                                + counter.name@ + "{\""@ + labels_body(kv.take(j as int)),
                        decreases nj - j,
                    {
                        if j > 0 {
                            out.append("\",\"");
                        }
                        out.append(key[j].0.as_str());
                        out.append("\"=\"");
                        out.append(key[j].1.as_str());
                        proof {
                            assert(kv[j as int] == (key@[j as int].0@, key@[j as int].1@));
                            if j == 0 {
                                assert(kv.take(1) =~= seq![kv[0]]);
                                assert(labels_body(kv.take(1)) == label_unit(kv[0]));
                            } else {
                                lemma_labels_body_step(kv, j as int);
                                assert(kv.take(j as int + 1).take(j as int) =~= kv.take(j as int));
                            }
                        }
                        j += 1;
                    }
                    proof {
                        assert(kv.take(nj as int) =~= kv);
                    }
                    out.append("\"} ");
                }
                out.append(u64_to_string(counter.instances[k].1).as_str());
                out.append("\n");
                proof {
                    lemma_render_counter_step(counter.name@, iv, k as int);
                    if kv.len() == 0 {
                        assert(out@ == sofar + render_counter(counter.name@, iv.take(k as int))
                            + render_line(counter.name@, kv, counter.instances@[k as int].1));
                    }
                }
                k += 1;
            }
            proof {
                assert(iv.take(nk as int) =~= iv);
                lemma_render_registry_step(rv, c as int);
            }
            c += 1;
        }
        proof {
            assert(rv.take(nc as int) =~= rv);
        }
        out
    }
}

/// Whether two label sets are the same, label for label.
fn labels_eq(a: &Labels, b: &Labels) -> (r: bool)
    ensures
        r == (labels_view(a@) == labels_view(b@)),
{
    if a.len() != b.len() {
        proof {
            assert(labels_view(a@).len() != labels_view(b@).len());
        }
        return false;
    }
    let n = a.len();
    let mut k: usize = 0;
    while k < n
        invariant
            n == a@.len(),
            n == b@.len(),
            k <= n,
            forall|j: int|
                0 <= j < k ==> a@[j].0@ == b@[j].0@ && a@[j].1@ == b@[j].1@,
        decreases n - k,
    {
        if !(a[k].0 == b[k].0 && a[k].1 == b[k].1) {
            proof {
                assert(labels_view(a@)[k as int] != labels_view(b@)[k as int]);
            }
            return false;
        }
        k += 1;
    }
    proof {
        assert(labels_view(a@) =~= labels_view(b@));
    }
    true
}

/// Fold one sample into an instance map.
fn update_instances(ins: &mut Vec<(Labels, u64)>, key: Labels, v: u64)
    requires
        forall|k1: int, k2: int|
            0 <= k1 < k2 < old(ins)@.len() ==> labels_view(old(ins)@[k1].0@) != labels_view(
                old(ins)@[k2].0@,
            ),
    ensures
        instances_view(final(ins)@) == upd_instances(
            instances_view(old(ins)@),
            labels_view(key@),
            v,
        ),
        forall|k1: int, k2: int|
            0 <= k1 < k2 < final(ins)@.len() ==> labels_view(final(ins)@[k1].0@) != labels_view(
                final(ins)@[k2].0@,
            ),
{
    let ghost i0 = instances_view(old(ins)@);
    proof {
        assert(i0.len() == old(ins)@.len());
    }
    let n = ins.len();
    let mut k: usize = 0;
    while k < n
        invariant
            *ins == *old(ins),
            i0 == instances_view(old(ins)@),
            i0.len() == old(ins)@.len(),
            n == ins@.len(),
            k <= n,
            forall|j: int| 0 <= j < k ==> labels_view(ins@[j].0@) != labels_view(key@),
            forall|k1: int, k2: int|
                0 <= k1 < k2 < ins@.len() ==> labels_view(ins@[k1].0@) != labels_view(
                    ins@[k2].0@,
                ),
        decreases n - k,
    {
        if labels_eq(&ins[k].0, &key) {
            proof {
                assert(instances_view(ins@)[k as int].0 == labels_view(ins@[k as int].0@));
                assert(i0[k as int].0 == labels_view(key@));
            }
            let value = ins[k].1;
            let mut entry = ins.remove(k);
            entry.1 = if value <= u64::MAX - v {
                value + v
            } else {
                u64::MAX
            };
            proof {
                assert(entry.1 == sat_add(value, v));
            }
            ins.insert(k, entry);
            proof {
                assert(ins@ =~= old(ins)@.update(k as int, ins@[k as int]));
                let kk = choose|kk: int| 0 <= kk < i0.len() && i0[kk].0 == labels_view(key@);
                assert(kk == k as int) by {
                    assert(instances_view(old(ins)@)[kk].0 == labels_view(old(ins)@[kk].0@));
                    assert(instances_view(old(ins)@)[k as int].0 == labels_view(old(ins)@[
                        k as int
                    ].0@));
                }
                assert(labels_view(ins@[k as int].0@) == labels_view(key@));
                assert(instances_view(ins@) =~= i0.update(
                    k as int,
                    (labels_view(key@), sat_add(i0[k as int].1, v)),
                ));
            }
            return ;
        }
        k += 1;
    }
    ins.push((key, v));
    proof {
        assert forall|kk: int| 0 <= kk < i0.len() implies i0[kk].0 != labels_view(key@) by {
            assert(instances_view(old(ins)@)[kk].0 == labels_view(old(ins)@[kk].0@));
        }
        assert(!(exists|kk: int| 0 <= kk < i0.len() && i0[kk].0 == labels_view(key@)));
        assert(instances_view(ins@) =~= i0.push((labels_view(key@), v)));
    }
}

/// The label set one counter of a resource is recorded under.
fn build_key(res: &Resource, c: usize) -> (key: Labels)
    requires
        (c as int) < res.metrics@.len(),
    ensures
        labels_view(key@) == counter_key(*res, c as int),
{
    let mut key: Labels = Vec::new();
    let na = res.attrs.len();
    let mut k: usize = 0;
    while k < na
        invariant
            na == res.attrs@.len(),
            k <= na,
            labels_view(key@) =~= labels_view(res.attrs@).take(k as int),
        decreases na - k,
    {
        let ghost before = key@;
        key.push((res.attrs[k].0.clone(), res.attrs[k].1.clone()));
        proof {
            assert(labels_view(before).len() == before.len());
            assert(labels_view(res.attrs@).take(k as int).len() == k as int);
            assert(before.len() == k as int);
            assert forall|j: int|
                0 <= j < k as int + 1 implies labels_view(key@)[j] == labels_view(
                res.attrs@,
            ).take(k as int + 1)[j] by {
                if j < k as int {
                    assert(key@[j] == before[j]);
                    assert(labels_view(before)[j] == labels_view(res.attrs@).take(k as int)[j]);
                } else {
                    assert(key@[j] == (res.attrs@[j].0, res.attrs@[j].1));
                }
            }
            assert(labels_view(key@) =~= labels_view(res.attrs@).take(k as int + 1));
        }
        k += 1;
    }
    proof {
        assert(labels_view(res.attrs@).take(na as int) =~= labels_view(res.attrs@));
    }
    key.push(("instance".to_owned(), res.instance.clone()));
    let ghost mid = labels_view(res.attrs@) + seq![("instance"@, res.instance@)];
    proof {
        assert(labels_view(key@) =~= mid);
    }
    let ca = &res.metrics[c].attrs;
    let nc = ca.len();
    let mut k: usize = 0;
    while k < nc
        invariant
            (c as int) < res.metrics@.len(),
            nc == res.metrics@[c as int].attrs@.len(),
            ca == &res.metrics[c as int].attrs,
            k <= nc,
            labels_view(key@) =~= mid + labels_view(ca@).take(k as int),
            mid == labels_view(res.attrs@) + seq![("instance"@, res.instance@)],
        decreases nc - k,
    {
        let ghost before = key@;
        key.push((ca[k].0.clone(), ca[k].1.clone()));
        proof {
            assert(ca@ == res.metrics@[c as int].attrs@);
            assert(labels_view(ca@).len() == nc as int);
            assert(labels_view(before).len() == before.len());
            assert(labels_view(ca@).take(k as int).len() == k as int);
            assert(before.len() == mid.len() + k as int);
            assert(key@.len() == (mid + labels_view(ca@).take(k as int + 1)).len());
            assert forall|j: int|
                0 <= j < key@.len() implies labels_view(key@)[j] == (mid + labels_view(ca@).take(
                k as int + 1,
            ))[j] by {
                if j < before.len() {
                    assert(key@[j] == before[j]);
                    assert(labels_view(before)[j] == (mid + labels_view(ca@).take(k as int))[j]);
                    if j >= mid.len() {
                        assert((mid + labels_view(ca@).take(k as int))[j] == labels_view(ca@).take(
                            k as int,
                        )[j - mid.len()]);
                        assert((mid + labels_view(ca@).take(k as int + 1))[j] == labels_view(
                            ca@,
                        ).take(k as int + 1)[j - mid.len()]);
                    }
                } else {
                    assert(key@[j] == (ca@[k as int].0, ca@[k as int].1));
                    assert((mid + labels_view(ca@).take(k as int + 1))[j] == labels_view(ca@)[
                        k as int
                    ]);
                }
            }
            assert(labels_view(key@) =~= mid + labels_view(ca@).take(k as int + 1));
        }
        k += 1;
    }
    proof {
        assert(labels_view(ca@).take(nc as int) =~= labels_view(ca@));
        assert(labels_view(key@) =~= counter_key(*res, c as int));
    }
    key
}

} // verus!
